//! What pushing on the links of sessions comes to.
use vstd::prelude::*;
use crate::id_map::{without_all, IdMap};
use crate::octets::{copied, views};
use crate::stream_registry::StreamDispatchResult;

verus! {

/// What became of a push on one link.
#[derive(Clone, Copy, Debug, PartialEq, Eq, Structural)]
pub enum LinkPush {
    /// It went out.
    Sent,
    /// The link is gone: its session is stale.
    LinkGone,
    /// The link is there, and this push could not go out on it.
    NotSent,
}

/// The number of links on which a push went out.
pub open spec fn sent_count(reports: Seq<(Vec<u8>, LinkPush)>) -> nat
    decreases reports.len(),
{
    if reports.len() == 0 {
        0
    } else {
        sent_count(reports.drop_last()) + (if reports.last().1 == LinkPush::Sent {
            1nat
        } else {
            0nat
        })
    }
}

/// The links that are gone.
pub open spec fn gone_links(reports: Seq<(Vec<u8>, LinkPush)>) -> Seq<Seq<u8>>
    decreases reports.len(),
{
    if reports.len() == 0 {
        Seq::empty()
    } else {
        let rest = gone_links(reports.drop_last());
        if reports.last().1 == LinkPush::LinkGone {
            rest.push(reports.last().0@)
        } else {
            rest
        }
    }
}

/// Drops the sessions whose links are gone, and counts what went out.
pub fn settle_pushes<S>(sessions: &mut IdMap<S>, reports: &Vec<(Vec<u8>, LinkPush)>) -> (r: StreamDispatchResult)
    requires
        old(sessions).wf(),
    ensures
        final(sessions).wf(),
        final(sessions)@ == without_all(old(sessions)@, gone_links(reports@)),
        r.matched == reports@.len(),
        r.sent == sent_count(reports@),
{
    let mut gone: Vec<Vec<u8>> = Vec::new();
    let mut sent: usize = 0;
    let mut i: usize = 0;
    assert(views(gone@) =~= gone_links(reports@.take(0)));
    while i < reports.len()
        invariant
            0 <= i <= reports@.len(),
            views(gone@) == gone_links(reports@.take(i as int)),
            sent == sent_count(reports@.take(i as int)),
            sent <= i,
        decreases reports@.len() - i,
    {
        assert(reports@.take(i + 1).drop_last() =~= reports@.take(i as int));
        match reports[i].1 {
            LinkPush::Sent => {
                sent = sent + 1;
            },
            LinkPush::LinkGone => {
                let ghost was = views(gone@);
                let id: Vec<u8> = copied(reports[i].0.as_slice());
                gone.push(id);
                assert(views(gone@) =~= was.push(id@));
            },
            LinkPush::NotSent => {},
        }
        i += 1;
    }
    assert(reports@.take(reports@.len() as int) =~= reports@);
    sessions.remove_all(&gone);
    StreamDispatchResult { matched: reports.len(), sent }
}

/// Lets one of several failures of a push through, and none behind it.
pub struct FirstOnly {
    passed: bool,
}

impl FirstOnly {
    /// Whether something was let through.
    pub closed spec fn view(&self) -> bool {
        self.passed
    }

    /// A gate through which nothing has passed.
    pub fn new() -> (r: Self)
        ensures
            !r@,
    {
        FirstOnly { passed: false }
    }

    /// Whether this is the first to come.
    pub fn pass(&mut self) -> (r: bool)
        ensures
            r == !old(self)@,
            final(self)@,
    {
        let first: bool = !self.passed;
        self.passed = true;
        first
    }
}

/// The links that took a push are counted one by one, and those that are gone
/// are listed in their order. A link that neither took it nor is gone is in
/// neither.
pub proof fn law_reports_are_counted(
    a: Seq<(Vec<u8>, LinkPush)>,
    b: Seq<(Vec<u8>, LinkPush)>,
    e: (Vec<u8>, LinkPush),
)
    ensures
        sent_count(a + b) == sent_count(a) + sent_count(b),
        gone_links(a + b) == gone_links(a) + gone_links(b),
        sent_count(seq![e]) == (if e.1 is Sent {
            1nat
        } else {
            0nat
        }),
        gone_links(seq![e]) == (if e.1 is LinkGone {
            seq![e.0@]
        } else {
            Seq::empty()
        }),
        sent_count(Seq::empty()) == 0,
        gone_links(Seq::empty()).len() == 0,
    decreases b.len(),
{
    assert(seq![e].drop_last() =~= Seq::empty());
    assert(sent_count(seq![e].drop_last()) == 0);
    assert(gone_links(seq![e].drop_last()) =~= Seq::empty());
    assert(gone_links(seq![e]) =~= (if e.1 is LinkGone {
        seq![e.0@]
    } else {
        Seq::empty()
    }));
    if b.len() == 0 {
        assert(a + b =~= a);
        assert(gone_links(a) + gone_links(b) =~= gone_links(a));
    } else {
        law_reports_are_counted(a, b.drop_last(), e);
        assert((a + b).drop_last() =~= a + b.drop_last());
        assert(gone_links(a + b) =~= gone_links(a) + gone_links(b));
    }
}

} // verus!
