//! Text made of bytes and numbers: hexadecimal, decimal, UTF-8.
use vstd::prelude::*;
use vstd::utf8::*;

verus! {

/// `String::from_utf8`: the text of `bytes`, if they are valid UTF-8.
#[verifier::external_body]
pub(crate) fn string_from_utf8(bytes: Vec<u8>) -> (r: Option<String>)
    ensures
        r is Some <==> valid_utf8(bytes@),
        r matches Some(s) ==> s@ == decode_utf8(bytes@),
{
    String::from_utf8(bytes).ok()
}

/// The characters of ASCII bytes.
pub open spec fn ascii_chars(bytes: Seq<u8>) -> Seq<char> {
    Seq::new(bytes.len(), |i: int| bytes[i] as char)
}

fn ascii_string(bytes: Vec<u8>) -> (r: String)
    requires
        forall|i: int| 0 <= i < bytes@.len() ==> #[trigger] bytes@[i] < 128,
    ensures
        r@ == ascii_chars(bytes@),
{
    proof {
        let chars = ascii_chars(bytes@);
        assert forall|i: int| 0 <= i < chars.len() implies '\0' <= #[trigger] chars[i] <= '\u{7f}' by {
            assert(bytes@[i] < 128);
        }
        assert(is_ascii_chars(chars));
        is_ascii_chars_encode_utf8(chars);
        assert(encode_utf8(chars) =~= bytes@) by {
            assert forall|i: int| 0 <= i < chars.len() implies encode_utf8(chars)[i] == bytes@[i] by {
                assert(chars[i] as u8 == encode_utf8(chars)[i]);
                assert(bytes@[i] < 128);
            }
        }
        encode_utf8_valid_utf8(chars);
        encode_utf8_decode_utf8(chars);
    }
    match string_from_utf8(bytes) {
        Some(s) => s,
        None => String::new(),
    }
}

/// The lower-case hexadecimal digit of a number below 16.
pub open spec fn hex_digit(n: int) -> char {
    if n < 10 {
        (48 + n) as char
    } else {
        (87 + n) as char
    }
}

/// The text of a byte string, two lower-case hexadecimal digits a byte.
pub open spec fn hex_text(bytes: Seq<u8>) -> Seq<char> {
    Seq::new(
        2 * bytes.len(),
        |i: int|
            hex_digit(
                if i % 2 == 0 {
                    bytes[i / 2] as int / 16
                } else {
                    bytes[i / 2] as int % 16
                },
            ),
    )
}

fn digit_byte(n: u8) -> (r: u8)
    requires
        n < 16,
    ensures
        r < 128,
        r as char == hex_digit(n as int),
{
    if n < 10 {
        48 + n
    } else {
        87 + n
    }
}

/// The text of a byte string in lower-case hexadecimal.
pub fn hex(bytes: &[u8]) -> (r: String)
    ensures
        r@ == hex_text(bytes@),
{
    let mut out: Vec<u8> = Vec::new();
    let mut i: usize = 0;
    while i < bytes.len()
        invariant
            0 <= i <= bytes@.len(),
            out@.len() == 2 * i,
            forall|j: int| 0 <= j < out@.len() ==> #[trigger] out@[j] < 128 && out@[j] as char == hex_text(bytes@)[j],
        decreases bytes@.len() - i,
    {
        out.push(digit_byte(bytes[i] / 16));
        out.push(digit_byte(bytes[i] % 16));
        i += 1;
    }
    assert(ascii_chars(out@) =~= hex_text(bytes@));
    ascii_string(out)
}

/// The number that a hexadecimal digit stands for.
pub open spec fn hex_value(c: char) -> Option<int> {
    if '0' <= c <= '9' {
        Some(c as int - 48)
    } else if 'a' <= c <= 'f' {
        Some(c as int - 87)
    } else if 'A' <= c <= 'F' {
        Some(c as int - 55)
    } else {
        None
    }
}

/// Whether every character is a hexadecimal digit.
pub open spec fn all_hex(text: Seq<char>) -> bool {
    forall|i: int| 0 <= i < text.len() ==> hex_value(#[trigger] text[i]) is Some
}

/// The byte string that a text of hexadecimal digits stands for.
pub open spec fn hex_bytes(text: Seq<char>) -> Option<Seq<u8>> {
    if text.len() % 2 == 0 && all_hex(text) {
        Some(
            Seq::new(
                text.len() / 2,
                |i: int| (hex_value(text[2 * i])->0 * 16 + hex_value(text[2 * i + 1])->0) as u8,
            ),
        )
    } else {
        None
    }
}

fn value_of_digit(b: u8) -> (r: Option<u8>)
    ensures
        b < 128 ==> (r is Some <==> hex_value(b as char) is Some),
        r matches Some(v) ==> v < 16 && b < 128 && hex_value(b as char) == Some(v as int),
        b >= 128 ==> r is None,
{
    if 48 <= b && b <= 57 {
        Some(b - 48)
    } else if 97 <= b && b <= 102 {
        Some(b - 87)
    } else if 65 <= b && b <= 70 {
        Some(b - 55)
    } else {
        None
    }
}

/// The byte string that a text of hexadecimal digits stands for, of either
/// case. A text of odd length, or with any other character, stands for none.
pub fn decode_hex(text: &str) -> (r: Option<Vec<u8>>)
    ensures
        r is Some <==> hex_bytes(text@) is Some,
        r matches Some(b) ==> hex_bytes(text@) == Some(b@),
{
    if !text.is_ascii() {
        proof {
            if all_hex(text@) {
                assert(is_ascii_chars(text@)) by {
                    assert forall|i: int| 0 <= i < text@.len() implies '\0' <= #[trigger] text@[i] <= '\u{7f}' by {
                        assert(hex_value(text@[i]) is Some);
                    }
                }
            }
        }
        return None;
    }
    proof {
        is_ascii_chars_encode_utf8(text@);
    }
    let bytes: &[u8] = text.as_bytes();
    if bytes.len() % 2 != 0 {
        return None;
    }
    let mut out: Vec<u8> = Vec::new();
    let mut i: usize = 0;
    let n: usize = bytes.len() / 2;
    while i < n
        invariant
            0 <= i <= n,
            2 * n <= usize::MAX,
            bytes@.len() == 2 * n,
            bytes@.len() == text@.len(),
            is_ascii_chars(text@),
            forall|j: int| 0 <= j < text@.len() ==> #[trigger] text@[j] as u8 == bytes@[j],
            out@.len() == i,
            forall|j: int| 0 <= j < 2 * i ==> hex_value(#[trigger] text@[j]) is Some,
            forall|j: int| 0 <= j < i ==> #[trigger] out@[j] == (hex_value(text@[2 * j])->0 * 16 + hex_value(
                text@[2 * j + 1],
            )->0) as u8,
        decreases n - i,
    {
        let a: u8 = bytes[2 * i];
        let b: u8 = bytes[2 * i + 1];
        proof {
            assert('\0' <= text@[2 * i] <= '\u{7f}');
            assert('\0' <= text@[2 * i + 1] <= '\u{7f}');
            assert(text@[2 * i] == a as char);
            assert(text@[2 * i + 1] == b as char);
        }
        match (value_of_digit(a), value_of_digit(b)) {
            (Some(x), Some(y)) => {
                out.push(x * 16 + y);
            },
            _ => {
                assert(!all_hex(text@));
                return None;
            },
        }
        i += 1;
    }
    assert(all_hex(text@));
    assert(out@ =~= hex_bytes(text@)->0);
    Some(out)
}

/// Decoding the hexadecimal text of a byte string gives it back.
pub proof fn law_hex_round_trip(bytes: Seq<u8>)
    ensures
        hex_bytes(hex_text(bytes)) == Some(bytes),
{
    let text = hex_text(bytes);
    assert forall|i: int| 0 <= i < text.len() implies hex_value(#[trigger] text[i]) is Some by {}
    assert(hex_bytes(text)->0 =~= bytes) by {
        assert forall|i: int| 0 <= i < bytes.len() implies hex_bytes(text)->0[i] == bytes[i] by {
            assert(text[2 * i] == hex_digit(bytes[i] as int / 16));
            assert(text[2 * i + 1] == hex_digit(bytes[i] as int % 16));
            assert(hex_value(text[2 * i]) == Some(bytes[i] as int / 16));
            assert(hex_value(text[2 * i + 1]) == Some(bytes[i] as int % 16));
        }
    }
}

/// The decimal text of a number.
pub open spec fn decimal_text(n: nat) -> Seq<char>
    decreases n,
{
    if n < 10 {
        seq![(48 + n) as char]
    } else {
        decimal_text(n / 10).push((48 + n % 10) as char)
    }
}

fn decimal_bytes(n: u64) -> (r: Vec<u8>)
    ensures
        forall|i: int| 0 <= i < r@.len() ==> #[trigger] r@[i] < 128,
        ascii_chars(r@) == decimal_text(n as nat),
    decreases n,
{
    if n < 10 {
        let mut out: Vec<u8> = Vec::new();
        out.push(48 + n as u8);
        assert(ascii_chars(out@) =~= decimal_text(n as nat));
        out
    } else {
        let mut out: Vec<u8> = decimal_bytes(n / 10);
        let ghost head = out@;
        out.push(48 + (n % 10) as u8);
        assert(ascii_chars(out@) =~= ascii_chars(head).push((48 + n % 10) as char));
        out
    }
}

/// The decimal text of a number.
pub fn decimal(n: u64) -> (r: String)
    ensures
        r@ == decimal_text(n as nat),
{
    ascii_string(decimal_bytes(n))
}

/// The contents of a list of texts.
pub open spec fn text_views(list: Seq<String>) -> Seq<Seq<char>> {
    list.map_values(|s: String| s@)
}

/// The pieces of a text between the occurrences of `sep`.
pub open spec fn pieces_of(text: Seq<char>, sep: char) -> Seq<Seq<char>>
    decreases text.len(),
{
    if text.len() == 0 {
        seq![Seq::empty()]
    } else {
        let rest = pieces_of(text.drop_last(), sep);
        if text.last() == sep {
            rest.push(Seq::empty())
        } else {
            rest.drop_last().push(rest.last().push(text.last()))
        }
    }
}

proof fn lemma_some_piece(text: Seq<char>, sep: char)
    ensures
        pieces_of(text, sep).len() >= 1,
    decreases text.len(),
{
    if text.len() > 0 {
        lemma_some_piece(text.drop_last(), sep);
    }
}

/// A text without the separator is its own only piece.
pub proof fn lemma_one_piece(text: Seq<char>, sep: char)
    requires
        !text.contains(sep),
    ensures
        pieces_of(text, sep) == seq![text],
    decreases text.len(),
{
    if text.len() > 0 {
        assert(text[text.len() - 1] == text.last());
        assert(!text.drop_last().contains(sep)) by {
            if text.drop_last().contains(sep) {
                let i = text.drop_last().index_of(sep);
                assert(text[i] == sep);
            }
        }
        lemma_one_piece(text.drop_last(), sep);
        assert(text.drop_last().push(text.last()) =~= text);
        assert(pieces_of(text, sep) =~= seq![text]);
    } else {
        assert(text =~= Seq::empty());
    }
}

/// The pieces of two texts with a separator between them.
pub proof fn lemma_pieces_joined(a: Seq<char>, b: Seq<char>, sep: char)
    ensures
        pieces_of(a.push(sep) + b, sep) == pieces_of(a, sep) + pieces_of(b, sep),
    decreases b.len(),
{
    let whole = a.push(sep) + b;
    if b.len() == 0 {
        assert(whole =~= a.push(sep));
        assert(a.push(sep).drop_last() =~= a);
        assert(pieces_of(whole, sep) =~= pieces_of(a, sep) + pieces_of(b, sep));
    } else {
        lemma_pieces_joined(a, b.drop_last(), sep);
        lemma_some_piece(b.drop_last(), sep);
        assert(whole.drop_last() =~= a.push(sep) + b.drop_last());
        assert(whole.last() == b.last());
        assert(pieces_of(whole, sep) =~= pieces_of(a, sep) + pieces_of(b, sep));
    }
}

/// The pieces of a text between the occurrences of `sep`.
pub fn pieces(text: &str, sep: char) -> (r: Vec<String>)
    ensures
        text_views(r@) == pieces_of(text@, sep),
{
    let len: usize = text.unicode_len();
    let mut out: Vec<String> = Vec::new();
    let mut start: usize = 0;
    let mut i: usize = 0;
    assert(text@.subrange(0, 0) =~= Seq::<char>::empty());
    assert(pieces_of(text@.take(0), sep) =~= text_views(out@).push(text@.subrange(0, 0)));
    while i < len
        invariant
            0 <= start <= i <= len,
            len == text@.len(),
            pieces_of(text@.take(i as int), sep) == text_views(out@).push(text@.subrange(start as int, i as int)),
        decreases len - i,
    {
        proof {
            assert(text@.take(i + 1).drop_last() =~= text@.take(i as int));
            assert(text@.take(i + 1).last() == text@[i as int]);
        }
        let ghost done = text_views(out@);
        let ghost last = text@.subrange(start as int, i as int);
        assert(done.push(last).drop_last() =~= done);
        if text.get_char(i) == sep {
            let piece: String = text.substring_char(start, i).to_owned();
            let ghost before = out@;
            out.push(piece);
            start = i + 1;
            proof {
                assert(text_views(out@) =~= done.push(last));
                assert(text@.subrange(start as int, i + 1) =~= Seq::empty());
            }
        } else {
            assert(text@.subrange(start as int, i + 1) =~= last.push(text@[i as int]));
        }
        i += 1;
    }
    assert(text@.take(len as int) =~= text@);
    let piece: String = text.substring_char(start, len).to_owned();
    let ghost done = text_views(out@);
    out.push(piece);
    assert(text_views(out@) =~= done.push(piece@));
    out
}

/// Whether every character is a decimal digit.
pub open spec fn all_digits(text: Seq<char>) -> bool {
    forall|i: int| 0 <= i < text.len() ==> '0' <= #[trigger] text[i] <= '9'
}

/// The number that a text of decimal digits stands for.
pub open spec fn decimal_value(text: Seq<char>) -> nat
    decreases text.len(),
{
    if text.len() == 0 {
        0
    } else {
        decimal_value(text.drop_last()) * 10 + (text.last() as int - 48) as nat
    }
}

/// The digits of a number, which a plus sign may precede.
pub open spec fn unsigned_digits(text: Seq<char>) -> Seq<char> {
    if text.len() > 0 && text[0] == '+' {
        text.skip(1)
    } else {
        text
    }
}

/// The number that a text stands for, where it is one up to `max`.
pub open spec fn number_up_to(text: Seq<char>, max: nat) -> Option<nat> {
    let digits = unsigned_digits(text);
    if digits.len() > 0 && all_digits(digits) && decimal_value(digits) <= max {
        Some(decimal_value(digits))
    } else {
        None
    }
}

/// The number that a text stands for, where it is one that fits.
pub open spec fn u32_of(text: Seq<char>) -> Option<u32> {
    match number_up_to(text, u32::MAX as nat) {
        Some(n) => Some(n as u32),
        None => None,
    }
}

/// The number that a text stands for, where it is one that fits.
pub open spec fn u64_of(text: Seq<char>) -> Option<u64> {
    match number_up_to(text, u64::MAX as nat) {
        Some(n) => Some(n as u64),
        None => None,
    }
}

proof fn lemma_decimal_grows(text: Seq<char>, i: int)
    requires
        0 <= i <= text.len(),
        all_digits(text),
    ensures
        decimal_value(text.take(i)) <= decimal_value(text),
    decreases text.len() - i,
{
    if i < text.len() {
        lemma_decimal_grows(text, i + 1);
        assert(text.take(i + 1).drop_last() =~= text.take(i));
    } else {
        assert(text.take(i) =~= text);
    }
}

/// The number that a text stands for, where it is one up to `max`.
fn parse_up_to(text: &str, max: u64) -> (r: Option<u64>)
    ensures
        match r {
            Some(n) => number_up_to(text@, max as nat) == Some(n as nat),
            None => number_up_to(text@, max as nat) is None,
        },
{
    let len: usize = text.unicode_len();
    let start: usize = if len > 0 && text.get_char(0) == '+' {
        1
    } else {
        0
    };
    let ghost digits = unsigned_digits(text@);
    assert(digits =~= text@.skip(start as int));
    if start >= len {
        return None;
    }
    let mut value: u64 = 0;
    let mut i: usize = start;
    assert(digits.take(0) =~= Seq::empty());
    while i < len
        invariant
            start <= i <= len,
            len == text@.len(),
            digits == unsigned_digits(text@),
            digits == text@.skip(start as int),
            digits.len() > 0,
            value == decimal_value(digits.take(i - start)),
            value <= max,
            forall|j: int| 0 <= j < i - start ==> '0' <= #[trigger] digits[j] <= '9',
        decreases len - i,
    {
        let c: char = text.get_char(i);
        assert(digits[i - start] == c);
        if c < '0' || c > '9' {
            return None;
        }
        proof {
            assert(digits.take(i + 1 - start).drop_last() =~= digits.take(i - start));
        }
        let next: u128 = value as u128 * 10 + (c as u128 - 48);
        if next > max as u128 {
            proof {
                if all_digits(digits) {
                    lemma_decimal_grows(digits, i + 1 - start);
                }
            }
            return None;
        }
        value = next as u64;
        i += 1;
    }
    assert(digits.take(len - start) =~= digits);
    Some(value)
}

/// The number that a text stands for, where it is one that fits.
pub fn parse_u32(text: &str) -> (r: Option<u32>)
    ensures
        r == u32_of(text@),
{
    match parse_up_to(text, u32::MAX as u64) {
        Some(n) => Some(n as u32),
        None => None,
    }
}

/// The number that a text stands for, where it is one that fits.
pub fn parse_u64(text: &str) -> (r: Option<u64>)
    ensures
        r == u64_of(text@),
{
    parse_up_to(text, u64::MAX)
}

/// Whether a character is white space.
pub open spec fn is_white(c: char) -> bool {
    let n = c as u32;
    ||| 0x09 <= n <= 0x0d
    ||| n == 0x20
    ||| n == 0x85
    ||| n == 0xa0
    ||| n == 0x1680
    ||| 0x2000 <= n <= 0x200a
    ||| n == 0x2028
    ||| n == 0x2029
    ||| n == 0x202f
    ||| n == 0x205f
    ||| n == 0x3000
}

fn white(c: char) -> (r: bool)
    ensures
        r == is_white(c),
{
    let n: u32 = c as u32;
    (0x09 <= n && n <= 0x0d) || n == 0x20 || n == 0x85 || n == 0xa0 || n == 0x1680 || (0x2000 <= n && n <= 0x200a)
        || n == 0x2028 || n == 0x2029 || n == 0x202f || n == 0x205f || n == 0x3000
}

/// A text without the white space in front of it.
pub open spec fn trimmed_front(text: Seq<char>) -> Seq<char>
    decreases text.len(),
{
    if text.len() > 0 && is_white(text[0]) {
        trimmed_front(text.skip(1))
    } else {
        text
    }
}

/// A text without the white space behind it.
pub open spec fn trimmed_back(text: Seq<char>) -> Seq<char>
    decreases text.len(),
{
    if text.len() > 0 && is_white(text.last()) {
        trimmed_back(text.drop_last())
    } else {
        text
    }
}

/// A text without the white space around it.
pub open spec fn trimmed_text(text: Seq<char>) -> Seq<char> {
    trimmed_back(trimmed_front(text))
}

/// A text without the white space around it.
pub fn trimmed(text: &str) -> (r: String)
    ensures
        r@ == trimmed_text(text@),
{
    let len: usize = text.unicode_len();
    let mut from: usize = 0;
    assert(text@.skip(0) =~= text@);
    while from < len && white(text.get_char(from))
        invariant
            len == text@.len(),
            0 <= from <= len,
            trimmed_front(text@) == trimmed_front(text@.skip(from as int)),
        decreases len - from,
    {
        assert(text@.skip(from as int).skip(1) =~= text@.skip(from + 1));
        from += 1;
    }
    let ghost rest = text@.skip(from as int);
    assert(trimmed_front(text@) == rest);
    let mut to: usize = len;
    assert(text@.subrange(from as int, len as int) =~= rest);
    while to > from && white(text.get_char(to - 1))
        invariant
            len == text@.len(),
            from <= to <= len,
            trimmed_back(rest) == trimmed_back(text@.subrange(from as int, to as int)),
        decreases to - from,
    {
        assert(text@.subrange(from as int, to as int).last() == text@[to - 1]);
        assert(text@.subrange(from as int, to as int).drop_last() =~= text@.subrange(from as int, to - 1));
        to -= 1;
    }
    proof {
        let left = text@.subrange(from as int, to as int);
        if left.len() > 0 {
            assert(left.last() == text@[to - 1]);
        }
    }
    text.substring_char(from, to).to_owned()
}

/// A number is read back from its decimal text.
pub proof fn law_decimal_round_trip(n: nat)
    ensures
        decimal_text(n).len() > 0,
        all_digits(decimal_text(n)),
        decimal_value(decimal_text(n)) == n,
        n <= u32::MAX ==> u32_of(decimal_text(n)) == Some(n as u32),
    decreases n,
{
    let text = decimal_text(n);
    if n < 10 {
        assert(text.drop_last() =~= Seq::empty());
        assert(decimal_value(text.drop_last()) == 0);
    } else {
        law_decimal_round_trip(n / 10);
        assert(text.drop_last() =~= decimal_text(n / 10));
        assert forall|i: int| 0 <= i < text.len() implies '0' <= #[trigger] text[i] <= '9' by {
            if i < decimal_text(n / 10).len() {
                assert(text[i] == decimal_text(n / 10)[i]);
            }
        }
    }
    assert('0' <= text[0] <= '9');
}

/// A text without the white space around it is what is left between the white
/// space at its start and that at its end.
pub proof fn law_only_white_space_is_trimmed(front: Seq<char>, middle: Seq<char>, back: Seq<char>)
    requires
        forall|i: int| 0 <= i < front.len() ==> is_white(#[trigger] front[i]),
        forall|i: int| 0 <= i < back.len() ==> is_white(#[trigger] back[i]),
        middle.len() > 0 ==> !is_white(middle[0]) && !is_white(middle.last()),
    ensures
        trimmed_text(front + middle + back) == middle,
    decreases front.len() + back.len(),
{
    lemma_front_goes(front, middle + back);
    assert(front + middle + back =~= front + (middle + back));
    if middle.len() > 0 {
        assert((middle + back)[0] == middle[0]);
        assert(trimmed_front(middle + back) == middle + back);
        lemma_back_goes(middle, back);
    } else {
        assert(middle + back =~= back);
        lemma_front_goes(back, Seq::empty());
        assert(back + Seq::<char>::empty() =~= back);
        assert(trimmed_front(Seq::<char>::empty()) =~= Seq::empty());
        assert(trimmed_front(back) =~= Seq::empty());
        assert(middle =~= Seq::empty());
    }
}

proof fn lemma_front_goes(front: Seq<char>, rest: Seq<char>)
    requires
        forall|i: int| 0 <= i < front.len() ==> is_white(#[trigger] front[i]),
    ensures
        trimmed_front(front + rest) == trimmed_front(rest),
    decreases front.len(),
{
    if front.len() == 0 {
        assert(front + rest =~= rest);
    } else {
        assert((front + rest)[0] == front[0]);
        assert((front + rest).skip(1) =~= front.skip(1) + rest);
        lemma_front_goes(front.skip(1), rest);
    }
}

proof fn lemma_back_goes(middle: Seq<char>, back: Seq<char>)
    requires
        forall|i: int| 0 <= i < back.len() ==> is_white(#[trigger] back[i]),
        middle.len() > 0,
        !is_white(middle.last()),
    ensures
        trimmed_back(middle + back) == middle,
    decreases back.len(),
{
    if back.len() == 0 {
        assert(middle + back =~= middle);
    } else {
        assert((middle + back).last() == back[back.len() - 1]);
        assert((middle + back).drop_last() =~= middle + back.drop_last());
        lemma_back_goes(middle, back.drop_last());
    }
}

/// Two hexadecimal digits stand for a byte, the higher one first, in lower case.
pub proof fn law_digits_of_a_byte(bytes: Seq<u8>, i: int)
    requires
        0 <= i < bytes.len(),
    ensures
        hex_text(bytes).len() == 2 * bytes.len(),
        hex_value(hex_text(bytes)[2 * i]) is Some,
        hex_value(hex_text(bytes)[2 * i + 1]) is Some,
        16 * hex_value(hex_text(bytes)[2 * i])->0 + hex_value(hex_text(bytes)[2 * i + 1])->0 == bytes[i],
        '0' <= hex_text(bytes)[2 * i] <= '9' || 'a' <= hex_text(bytes)[2 * i] <= 'f',
        '0' <= hex_text(bytes)[2 * i + 1] <= '9' || 'a' <= hex_text(bytes)[2 * i + 1] <= 'f',
{
    let text = hex_text(bytes);
    assert(text[2 * i] == hex_digit(bytes[i] as int / 16));
    assert(text[2 * i + 1] == hex_digit(bytes[i] as int % 16));
}

/// A number is read from its digits, with or without a plus before them, as far
/// as it is not too large. The last digit counts once, and each before it ten
/// times what the one behind it does.
pub proof fn law_number_of_its_digits(digits: Seq<char>, d: char, max: nat)
    requires
        forall|i: int| 0 <= i < digits.len() ==> '0' <= #[trigger] digits[i] <= '9',
        '0' <= d <= '9',
    ensures
        decimal_value(digits.push(d)) == 10 * decimal_value(digits) + (d as int - '0' as int),
        decimal_value(Seq::empty()) == 0,
        decimal_value(digits.push(d)) <= max ==> number_up_to(digits.push(d), max) == Some(
            decimal_value(digits.push(d)),
        ) && number_up_to(seq!['+'] + digits.push(d), max) == Some(decimal_value(digits.push(d))),
        decimal_value(digits.push(d)) > max ==> number_up_to(digits.push(d), max) is None,
        number_up_to(Seq::empty(), max) is None,
{
    let all = digits.push(d);
    assert(all.drop_last() =~= digits);
    assert forall|i: int| 0 <= i < all.len() implies '0' <= #[trigger] all[i] <= '9' by {
        if i < digits.len() {
            assert(all[i] == digits[i]);
        }
    }
    assert(all_digits(all));
    assert('0' <= all[0] <= '9');
    assert((seq!['+'] + all).skip(1) =~= all);
    assert((seq!['+'] + all)[0] == '+');
}

/// A text with anything in it that is no digit, but for a plus at its start, is
/// no number.
pub proof fn law_other_texts_are_no_numbers(text: Seq<char>, k: int, max: nat)
    requires
        0 <= k < text.len(),
        !('0' <= text[k] <= '9'),
        k > 0 || text[0] != '+',
    ensures
        number_up_to(text, max) is None,
{
    let digits = unsigned_digits(text);
    if text[0] == '+' {
        assert(digits[k - 1] == text[k]);
    } else {
        assert(digits[k] == text[k]);
    }
}

/// A number is read where it fits into the bits that there are for it.
pub proof fn law_numbers_that_fit(n: nat)
    ensures
        n <= 0xffff_ffff ==> u32_of(decimal_text(n)) == Some(n as u32),
        n > 0xffff_ffff ==> u32_of(decimal_text(n)) is None,
        n <= u64::MAX ==> u64_of(decimal_text(n)) == Some(n as u64),
        n > u64::MAX ==> u64_of(decimal_text(n)) is None,
{
    law_decimal_round_trip(n);
    assert('0' <= decimal_text(n)[0] <= '9');
}

/// White space is what the tabulator, the line feeds and the space are, and the
/// spaces and separators that texts of other scripts know.
pub proof fn law_what_white_space_is(c: char)
    ensures
        c == '\t' || c == '\n' || c == '\r' || c == ' ' ==> is_white(c),
        c == '\u{b}' || c == '\u{c}' || c == '\u{85}' || c == '\u{a0}' ==> is_white(c),
        '!' <= c <= '~' ==> !is_white(c),
        c < '\t' ==> !is_white(c),
        is_white(c) && c > '\u{a0}' ==> c == '\u{1680}' || '\u{2000}' <= c <= '\u{200a}' || c == '\u{2028}' || c
            == '\u{2029}' || c == '\u{202f}' || c == '\u{205f}' || c == '\u{3000}',
        c == '\u{1680}' || '\u{2000}' <= c <= '\u{200a}' || c == '\u{2028}' || c == '\u{2029}' || c == '\u{202f}' || c
            == '\u{205f}' || c == '\u{3000}' ==> is_white(c),
{
}

} // verus!
