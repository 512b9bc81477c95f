use rfed::lxmf_propagation::IdQueue;

fn id(n: u8) -> Vec<u8> {
    vec![n; 32]
}

#[test]
fn keeps_insertion_order_and_refuses_duplicates() {
    let mut q = IdQueue::default();
    assert!(q.push_unique(id(3)));
    assert!(q.push_unique(id(1)));
    assert!(!q.push_unique(id(3)), "a duplicate is not added");
    assert!(q.push_unique(id(2)));
    assert_eq!(q.to_vec(), vec![id(3), id(1), id(2)]);
    assert_eq!(q.len(), 3);
}

#[test]
fn remove_keeps_the_order_of_the_rest() {
    let mut q = IdQueue::default();
    for n in 1..=4 {
        q.push_unique(id(n));
    }
    assert!(q.remove(&id(2)));
    assert!(!q.remove(&id(2)), "already gone");
    assert!(!q.contains(&id(2)));
    assert_eq!(q.to_vec(), vec![id(1), id(3), id(4)]);
    assert!(q.push_unique(id(2)));
    assert_eq!(q.to_vec(), vec![id(1), id(3), id(4), id(2)]);
}
