//! Reading items from a stream.
//!
//! A stream may be cut anywhere: what is not complete yet is waited for, and
//! only what is complete can be damaged.

use vstd::prelude::*;
use vstd::slice::slice_subrange;
use vstd::utf8::is_ascii_chars;

use crate::capture::fixture::{partial, tag, trailing_partial_item};
use crate::capture::items::{
    base64, base64_has_no_brackets, base64_round_trip, decimal_is_ascii, encoded, encoded_all,
    from_base64, items_view, padded_hex_is_ascii, plain, read_base64, Item, ItemView,
};
use crate::capture::search::{
    calm, calm_excludes, calm_from, find, first, first_is, first_is_nowhere, first_stands, is_calm,
    stands, stands_behind, stands_here,
};
use crate::strings::{
    all_digits, decimal, decimal_round_trip, decimal_value, nibble, padded_hex, parse_digits,
};

verus! {

broadcast use vstd::seq::group_seq_axioms;

/// What is wrong with an item.
#[derive(Debug, Clone, Copy, PartialEq, Eq, Structural)]
pub enum Flaw {
    /// The type is missing, or no number.
    Kind,
    /// The code is missing, or no number.
    Code,
    /// The length is missing, or no number.
    Length,
    /// The data is not base64 in its tags.
    Data,
    /// The data is not as long as was said.
    Size,
}

impl Flaw {
    pub open spec fn text(self) -> Seq<char> {
        match self {
            Flaw::Kind => "an item has no readable type"@,
            Flaw::Code => "an item has no readable code"@,
            Flaw::Length => "an item has no readable length"@,
            Flaw::Data => "the data of an item is not base64"@,
            Flaw::Size => "the data of an item is not as long as it says"@,
        }
    }

    /// What the user is told.
    pub fn message(self) -> (r: &'static str)
        ensures
            r@ == self.text(),
    {
        match self {
            Flaw::Kind => "an item has no readable type",
            Flaw::Code => "an item has no readable code",
            Flaw::Length => "an item has no readable length",
            Flaw::Data => "the data of an item is not base64",
            Flaw::Size => "the data of an item is not as long as it says",
        }
    }
}

// --- numbers --------------------------------------------------------------

/// The value of a hexadecimal digit.
pub open spec fn digit_value(b: u8) -> Option<int> {
    if 48 <= b <= 57 {
        Some(b - 48)
    } else if 97 <= b <= 102 {
        Some(b - 87)
    } else if 65 <= b <= 70 {
        Some(b - 55)
    } else {
        None
    }
}

/// The value of hexadecimal digits.
pub open spec fn hex_value(s: Seq<u8>) -> Option<int>
    decreases s.len(),
{
    if s.len() == 0 {
        Some(0)
    } else {
        match (hex_value(s.drop_last()), digit_value(s.last())) {
            (Some(v), Some(d)) => Some(v * 16 + d),
            _ => None,
        }
    }
}

/// A code: eight hexadecimal digits.
pub open spec fn code_value(s: Seq<u8>) -> Option<int> {
    if s.len() == 8 {
        hex_value(s)
    } else {
        None
    }
}

fn digit_of(b: u8) -> (r: Option<u8>)
    ensures
        match r {
            Some(d) => digit_value(b) == Some(d as int) && d < 16,
            None => digit_value(b) is None,
        },
{
    if 48 <= b && b <= 57 {
        Some(b - 48)
    } else if 97 <= b && b <= 102 {
        Some(b - 87)
    } else if 65 <= b && b <= 70 {
        Some(b - 55)
    } else {
        None
    }
}

proof fn hex_stops(s: Seq<u8>, n: int)
    requires
        0 <= n <= s.len(),
        hex_value(s.take(n)) is None,
    ensures
        hex_value(s) is None,
    decreases s.len() - n,
{
    if n < s.len() {
        assert(s.take(n + 1).drop_last() == s.take(n));
        hex_stops(s, n + 1);
    } else {
        assert(s.take(n) == s);
    }
}

fn read_code(s: &[u8]) -> (r: Option<u32>)
    ensures
        match r {
            Some(v) => code_value(s@) == Some(v as int),
            None => code_value(s@) is None,
        },
{
    if s.len() != 8 {
        return None;
    }
    let mut v: u64 = 0;
    let mut i: usize = 0;
    let mut top: u64 = 1;
    assert(s@.take(0).len() == 0);
    while i < 8
        invariant
            i <= 8,
            s@.len() == 8,
            hex_value(s@.take(i as int)) == Some(v as int),
            v < top,
            i == 0 ==> top == 1,
            i == 1 ==> top == 0x10,
            i == 2 ==> top == 0x100,
            i == 3 ==> top == 0x1000,
            i == 4 ==> top == 0x1_0000,
            i == 5 ==> top == 0x10_0000,
            i == 6 ==> top == 0x100_0000,
            i == 7 ==> top == 0x1000_0000,
            i == 8 ==> top == 0x1_0000_0000,
        decreases 8 - i,
    {
        assert(s@.take(i + 1).drop_last() == s@.take(i as int));
        assert(s@.take(i + 1).last() == s@[i as int]);
        match digit_of(s[i]) {
            Some(d) => {
                v = v * 16 + d as u64;
                top = top * 16;
            },
            None => {
                proof {
                    hex_stops(s@, i + 1);
                }
                return None;
            },
        }
        i = i + 1;
    }
    assert(s@.take(8) == s@);
    Some(v as u32)
}

/// Bytes as characters.
pub open spec fn as_chars(s: Seq<u8>) -> Seq<char> {
    s.map_values(|b: u8| b as char)
}

/// A length: decimal digits.
pub open spec fn length_value(s: Seq<u8>) -> Option<int> {
    let c = as_chars(s);
    if c.len() > 0 && all_digits(c) && decimal_value(c) <= u64::MAX {
        Some(decimal_value(c) as int)
    } else {
        None
    }
}

fn read_length(s: &[u8]) -> (r: Option<u64>)
    ensures
        match r {
            Some(v) => length_value(s@) == Some(v as int),
            None => length_value(s@) is None,
        },
{
    let mut c: Vec<char> = Vec::new();
    let mut i: usize = 0;
    while i < s.len()
        invariant
            i <= s@.len(),
            c@ == as_chars(s@).take(i as int),
        decreases s.len() - i,
    {
        c.push(s[i] as char);
        assert(as_chars(s@).take(i + 1) == as_chars(s@).take(i as int).push(s@[i as int] as char));
        i = i + 1;
    }
    assert(as_chars(s@).take(s@.len() as int) == as_chars(s@));
    parse_digits(&c)
}

// --- one item -------------------------------------------------------------

/// What stands between two tags, of which the first is at a place, and where
/// the second ends.
pub open spec fn between(s: Seq<u8>, at: int, open: Seq<u8>, close: Seq<u8>) -> Option<
    (Seq<u8>, int),
> {
    if !stands(s, open, at) {
        None
    } else {
        let inner = s.skip(at + open.len());
        match first(inner, close) {
            Some(n) => Some((inner.take(n), at + open.len() + n + close.len())),
            None => None,
        }
    }
}

/// The payload that the data of an item stands for.
pub open spec fn payload_in(rest: Seq<u8>) -> Option<Seq<u8>> {
    let data = partial(rest);
    if data.len() == 0 {
        Some(Seq::empty())
    } else {
        match between(data, 0, plain("<data encoding=\"base64\">"@), plain("</data>"@)) {
            None => None,
            Some((text, end)) => if partial(data.skip(end)).len() > 0 {
                None
            } else {
                from_base64(partial(text))
            },
        }
    }
}

/// The item of what stands between its tags, or what is wrong with it.
pub open spec fn item_in(body: Seq<u8>) -> Result<ItemView, Flaw> {
    match between(body, 0, plain("<type>"@), plain("</type>"@)) {
        None => Err(Flaw::Kind),
        Some((kind_text, a)) => match code_value(kind_text) {
            None => Err(Flaw::Kind),
            Some(kind) => match between(body, a, plain("<code>"@), plain("</code>"@)) {
                None => Err(Flaw::Code),
                Some((code_text, b)) => match code_value(code_text) {
                    None => Err(Flaw::Code),
                    Some(code) => match between(
                        body,
                        b,
                        plain("<length>"@),
                        plain("</length>"@),
                    ) {
                        None => Err(Flaw::Length),
                        Some((length_text, c)) => match length_value(length_text) {
                            None => Err(Flaw::Length),
                            Some(length) => match payload_in(body.skip(c)) {
                                None => Err(Flaw::Data),
                                Some(payload) => if payload.len() != length {
                                    Err(Flaw::Size)
                                } else {
                                    Ok(ItemView { kind: kind as u32, code: code as u32, payload })
                                },
                            },
                        },
                    },
                },
            },
        },
    }
}

fn read_between<'a>(s: &'a [u8], at: usize, open: &[u8], close: &[u8]) -> (r: Option<
    (&'a [u8], usize),
>)
    requires
        at <= s@.len(),
        close@.len() > 0,
    ensures
        match r {
            Some(p) => between(s@, at as int, open@, close@) == Some((p.0@, p.1 as int)) && p.1
                <= s@.len(),
            None => between(s@, at as int, open@, close@) is None,
        },
{
    let n: usize = s.len();
    if open.len() > n - at || !stands_here(s, open, at) {
        return None;
    }
    let from: usize = at + open.len();
    let inner = slice_subrange(s, from, n);
    assert(inner@ == s@.skip(from as int));
    match find(inner, close) {
        Some(k) => {
            proof {
                first_stands(inner@, close@, 0);
            }
            let text = slice_subrange(inner, 0, k);
            assert(text@ == inner@.take(k as int));
            Some((text, from + k + close.len()))
        },
        None => None,
    }
}

proof fn item_tags()
    ensures
        is_ascii_chars("<data encoding=\"base64\">"@),
        is_ascii_chars("</data>"@),
        is_ascii_chars("<type>"@),
        is_ascii_chars("</type>"@),
        is_ascii_chars("<code>"@),
        is_ascii_chars("</code>"@),
        is_ascii_chars("<length>"@),
        is_ascii_chars("</length>"@),
        is_ascii_chars("<item>"@),
        is_ascii_chars("</item>"@),
        "</data>"@.len() == 7,
        "</type>"@.len() == 7,
        "</code>"@.len() == 7,
        "</length>"@.len() == 9,
        "<item>"@.len() == 6,
        "</item>"@.len() == 7,
{
    reveal_strlit("<data encoding=\"base64\">");
    reveal_strlit("</data>");
    reveal_strlit("<type>");
    reveal_strlit("</type>");
    reveal_strlit("<code>");
    reveal_strlit("</code>");
    reveal_strlit("<length>");
    reveal_strlit("</length>");
    reveal_strlit("<item>");
    reveal_strlit("</item>");
}

fn read_payload(rest: &[u8]) -> (r: Option<Vec<u8>>)
    ensures
        match r {
            Some(p) => payload_in(rest@) == Some(p@),
            None => payload_in(rest@) is None,
        },
{
    proof {
        item_tags();
    }
    let data = trailing_partial_item(rest);
    if data.len() == 0 {
        let none: Vec<u8> = Vec::new();
        assert(none@ == Seq::<u8>::empty());
        return Some(none);
    }
    match read_between(data, 0, &tag("<data encoding=\"base64\">"), &tag("</data>")) {
        None => None,
        Some((text, end)) => {
            let after = slice_subrange(data, end, data.len());
            assert(after@ == data@.skip(end as int));
            if trailing_partial_item(after).len() > 0 {
                return None;
            }
            read_base64(trailing_partial_item(text))
        },
    }
}

/// Read what stands between the tags of an item.
pub fn read_body(body: &[u8]) -> (r: Result<Item, Flaw>)
    ensures
        match r {
            Ok(i) => item_in(body@) == Ok::<ItemView, Flaw>(i@),
            Err(e) => item_in(body@) == Err::<ItemView, Flaw>(e),
        },
{
    proof {
        item_tags();
    }
    let (kind_text, a) = match read_between(body, 0, &tag("<type>"), &tag("</type>")) {
        Some(p) => p,
        None => {
            return Err(Flaw::Kind);
        },
    };
    let kind: u32 = match read_code(kind_text) {
        Some(k) => k,
        None => {
            return Err(Flaw::Kind);
        },
    };
    let (code_text, b) = match read_between(body, a, &tag("<code>"), &tag("</code>")) {
        Some(p) => p,
        None => {
            return Err(Flaw::Code);
        },
    };
    let code: u32 = match read_code(code_text) {
        Some(k) => k,
        None => {
            return Err(Flaw::Code);
        },
    };
    let (length_text, c) = match read_between(body, b, &tag("<length>"), &tag("</length>")) {
        Some(p) => p,
        None => {
            return Err(Flaw::Length);
        },
    };
    let length: u64 = match read_length(length_text) {
        Some(k) => k,
        None => {
            return Err(Flaw::Length);
        },
    };
    let rest = slice_subrange(body, c, body.len());
    assert(rest@ == body@.skip(c as int));
    let payload = match read_payload(rest) {
        Some(p) => p,
        None => {
            return Err(Flaw::Data);
        },
    };
    if payload.len() as u64 != length {
        return Err(Flaw::Size);
    }
    Ok(Item { kind, code, payload })
}

// --- a stream -------------------------------------------------------------

/// The next item of a stream, once it is complete, and where it ends.
pub open spec fn next_in(s: Seq<u8>) -> Option<(Result<ItemView, Flaw>, int)> {
    match first(s, plain("<item>"@)) {
        None => None,
        Some(at) => {
            let inner = s.skip(at + 6);
            match first(inner, plain("</item>"@)) {
                None => None,
                Some(n) => Some((item_in(inner.take(n)), at + 6 + n + 7)),
            }
        },
    }
}

/// Everything that is complete in a stream, and what is left.
pub open spec fn all_in(s: Seq<u8>) -> (Seq<Result<ItemView, Flaw>>, Seq<u8>)
    decreases s.len(),
{
    match next_in(s) {
        None => (Seq::empty(), s),
        Some((r, end)) => if end <= 0 || end > s.len() {
            (Seq::empty(), s)
        } else {
            let (more, rest) = all_in(s.skip(end));
            (seq![r] + more, rest)
        },
    }
}

/// The next item of a stream, once it is complete, and where it ends.
pub fn next_item(s: &[u8]) -> (r: Option<(Result<Item, Flaw>, usize)>)
    ensures
        match r {
            Some((Ok(i), end)) => next_in(s@) == Some((Ok::<ItemView, Flaw>(i@), end as int)) && 0
                < end <= s@.len(),
            Some((Err(e), end)) => next_in(s@) == Some((Err::<ItemView, Flaw>(e), end as int)) && 0
                < end <= s@.len(),
            None => next_in(s@) is None,
        },
{
    proof {
        item_tags();
    }
    let n: usize = s.len();
    let at: usize = match find(s, &tag("<item>")) {
        Some(at) => at,
        None => {
            return None;
        },
    };
    proof {
        first_stands(s@, plain("<item>"@), 0);
    }
    let inner = slice_subrange(s, at + 6, n);
    assert(inner@ == s@.skip(at + 6));
    match find(inner, &tag("</item>")) {
        None => None,
        Some(k) => {
            proof {
                first_stands(inner@, plain("</item>"@), 0);
            }
            let body = slice_subrange(inner, 0, k);
            assert(body@ == inner@.take(k as int));
            Some((read_body(body), at + 6 + k + 7))
        },
    }
}

/// What a stream was found to hold.
#[derive(Debug)]
pub struct Reading {
    /// The items, up to the first that is damaged.
    pub items: Vec<Item>,
    /// What is wrong with that one.
    pub flaw: Option<Flaw>,
    /// How much of the stream was read.
    pub consumed: usize,
}

/// The items in front of the first damaged one.
pub open spec fn sound(s: Seq<Result<ItemView, Flaw>>) -> Seq<ItemView>
    decreases s.len(),
{
    if s.len() == 0 {
        Seq::empty()
    } else {
        match s[0] {
            Ok(i) => seq![i] + sound(s.drop_first()),
            Err(_) => Seq::empty(),
        }
    }
}

/// The first damage.
pub open spec fn damage(s: Seq<Result<ItemView, Flaw>>) -> Option<Flaw>
    decreases s.len(),
{
    if s.len() == 0 {
        None
    } else {
        match s[0] {
            Ok(_) => damage(s.drop_first()),
            Err(e) => Some(e),
        }
    }
}

/// Read the items of a stream, up to the first damaged one.
pub fn read_items(s: &[u8]) -> (r: Reading)
    ensures
        items_view(r.items@) == sound(all_in(s@).0),
        r.flaw == damage(all_in(s@).0),
        r.consumed <= s@.len(),
        r.flaw is None ==> s@.skip(r.consumed as int) == all_in(s@).1,
{
    let mut items: Vec<Item> = Vec::new();
    let mut from: usize = 0;
    assert(s@.skip(0) == s@);
    assert(items_view(items@) + sound(all_in(s@).0) == sound(all_in(s@).0));
    loop
        invariant
            from <= s@.len(),
            sound(all_in(s@).0) == items_view(items@) + sound(all_in(s@.skip(from as int)).0),
            damage(all_in(s@).0) == damage(all_in(s@.skip(from as int)).0),
            all_in(s@).1 == all_in(s@.skip(from as int)).1,
        decreases s@.len() - from,
    {
        let rest = slice_subrange(s, from, s.len());
        assert(rest@ == s@.skip(from as int));
        let ghost (all, left) = all_in(rest@);
        match next_item(rest) {
            None => {
                assert(sound(all).len() == 0);
                assert(items_view(items@) + sound(all) == items_view(items@));
                return Reading { items, flaw: None, consumed: from };
            },
            Some((Err(e), end)) => {
                assert(all[0] == Err::<ItemView, Flaw>(e));
                assert(sound(all).len() == 0);
                assert(items_view(items@) + sound(all) == items_view(items@));
                return Reading { items, flaw: Some(e), consumed: from };
            },
            Some((Ok(i), end)) => {
                let ghost before = items_view(items@);
                let ghost x = i@;
                items.push(i);
                proof {
                    let more = all_in(rest@.skip(end as int)).0;
                    assert(all == seq![Ok::<ItemView, Flaw>(x)] + more);
                    assert(all[0] == Ok::<ItemView, Flaw>(x));
                    assert(all.drop_first() == more);
                    assert(rest@.skip(end as int) == s@.skip(from + end));
                    assert(items_view(items@) == before.push(x));
                    assert(before + (seq![x] + sound(more)) == items_view(items@) + sound(more));
                }
                from = from + end;
            },
        }
    }
}

// --- laws -----------------------------------------------------------------

spec fn sixteens(w: nat) -> nat
    decreases w,
{
    if w == 0 {
        1
    } else {
        16 * sixteens((w - 1) as nat)
    }
}

proof fn codes_read_back(n: nat, w: nat)
    requires
        n < sixteens(w),
    ensures
        hex_value(plain(padded_hex(n, w))) == Some(n as int),
        plain(padded_hex(n, w)).len() == w,
    decreases w,
{
    if w > 0 {
        let m = sixteens((w - 1) as nat);
        assert(n / 16 < m);
        codes_read_back(n / 16, (w - 1) as nat);
        let t = padded_hex(n, w);
        let front = padded_hex(n / 16, (w - 1) as nat);
        assert(plain(t).drop_last() == plain(front));
        assert(plain(t).last() == nibble((n % 16) as int) as u8);
        assert(digit_value(plain(t).last()) == Some((n % 16) as int));
    }
}

proof fn lengths_read_back(n: nat)
    requires
        n <= u64::MAX,
    ensures
        length_value(plain(decimal(n))) == Some(n as int),
{
    decimal_round_trip(n);
    decimal_is_ascii(n);
    let t = decimal(n);
    assert(as_chars(plain(t)) == t) by {
        assert forall|i: int| 0 <= i < t.len() implies #[trigger] as_chars(plain(t))[i] == t[i] by {
            assert('\0' <= t[i] <= '\u{7f}');
        }
    }
    assert(t.len() > 0);
}

/// Whether something begins nowhere in bytes, whatever follows them.
spec fn quiet(a: Seq<u8>, needle: Seq<u8>) -> bool {
    forall|rest: Seq<u8>, j: int| 0 <= j < a.len() ==> !#[trigger] stands(a + rest, needle, j)
}

proof fn calm_is_quiet(a: Seq<u8>, needle: Seq<u8>)
    requires
        needle.len() >= 2,
        needle[0] == 60,
        calm(a, needle[1]),
    ensures
        quiet(a, needle),
{
    assert forall|rest: Seq<u8>, j: int| 0 <= j < a.len() implies !#[trigger] stands(
        a + rest,
        needle,
        j,
    ) by {
        calm_excludes(a, rest, needle, j);
    }
}

proof fn quiet_join(a: Seq<u8>, b: Seq<u8>, needle: Seq<u8>)
    requires
        quiet(a, needle),
        quiet(b, needle),
    ensures
        quiet(a + b, needle),
{
    assert forall|rest: Seq<u8>, j: int| 0 <= j < (a + b).len() implies !#[trigger] stands(
        a + b + rest,
        needle,
        j,
    ) by {
        assert(a + b + rest == a + (b + rest));
        if j < a.len() {
            assert(!stands(a + (b + rest), needle, j));
        } else {
            stands_behind(a, b + rest, needle, j - a.len());
            assert(!stands(b + rest, needle, j - a.len()));
        }
    }
}

/// A closing tag of another name is quiet.
proof fn other_close_is_quiet(t: Seq<u8>, needle: Seq<u8>)
    requires
        needle.len() >= 3,
        needle[0] == 60,
        needle[1] == 47,
        t.len() >= 3,
        t[2] != needle[2],
        calm(t.skip(1), 47),
    ensures
        quiet(t, needle),
{
    assert forall|rest: Seq<u8>, j: int| 0 <= j < t.len() implies !#[trigger] stands(
        t + rest,
        needle,
        j,
    ) by {
        let s = t + rest;
        if j == 0 {
            if stands(s, needle, 0) {
                assert(s.subrange(0, needle.len() as int)[2] == s[2]);
            }
        } else {
            assert(s == t.take(1) + (t.skip(1) + rest));
            calm_excludes(t.skip(1), rest, needle, j - 1);
            stands_behind(t.take(1), t.skip(1) + rest, needle, j - 1);
        }
    }
}

proof fn found_behind(a: Seq<u8>, needle: Seq<u8>, rest: Seq<u8>)
    requires
        quiet(a, needle),
        needle.len() > 0,
    ensures
        first(a + (needle + rest), needle) == Some(a.len() as int),
{
    let s = a + (needle + rest);
    let n: int = a.len() as int;
    assert(s.subrange(n, n + needle.len()) == needle);
    assert forall|j: int| 0 <= j < n implies !stands(s, needle, j) by {
        assert(!stands(a + (needle + rest), needle, j));
    }
    first_is(s, needle, 0, n);
}

proof fn reads_between(
    front: Seq<u8>,
    open: Seq<u8>,
    inner: Seq<u8>,
    close: Seq<u8>,
    rest: Seq<u8>,
)
    requires
        quiet(inner, close),
        close.len() > 0,
    ensures
        between(front + (open + (inner + (close + rest))), front.len() as int, open, close) == Some(
            (inner, (front.len() + open.len() + inner.len() + close.len()) as int),
        ),
{
    let s = front + (open + (inner + (close + rest)));
    let at: int = front.len() as int;
    assert(s.subrange(at, at + open.len()) == open);
    assert(s.skip(at + open.len()) == inner + (close + rest));
    found_behind(inner, close, rest);
    assert((inner + (close + rest)).take(inner.len() as int) == inner);
}

/// The data of an item as it is written.
spec fn data_of(payload: Seq<u8>) -> Seq<u8> {
    if payload.len() == 0 {
        Seq::empty()
    } else {
        plain("\n<data encoding=\"base64\">\n"@) + base64(payload) + plain("</data>"@)
    }
}

proof fn payloads_read_back(payload: Seq<u8>)
    ensures
        payload_in(data_of(payload)) == Some(payload),
{
    let d = data_of(payload);
    if payload.len() == 0 {
        assert(partial(d).len() == 0);
    } else {
        reveal_strlit("\n<data encoding=\"base64\">\n");
        reveal_strlit("<data encoding=\"base64\">");
        reveal_strlit("</data>");
        reveal_strlit("\n");
        let o = plain("<data encoding=\"base64\">"@);
        let nl = plain("\n"@);
        let b = base64(payload);
        let c = plain("</data>"@);
        let text = nl + b;
        assert(plain("\n<data encoding=\"base64\">\n"@) == nl + o + nl);
        let data = o + (text + (c + Seq::<u8>::empty()));
        assert(d == nl + data);
        assert(d.drop_first() == data);
        assert(data[0] == 60);
        assert(partial(d) == data) by {
            reveal_with_fuel(partial, 3);
        }
        base64_has_no_brackets(payload);
        assert forall|k: int| 0 <= k < text.len() implies #[trigger] text[k] != 60 by {
            if k > 0 {
                assert(text[k] == b[k - 1]);
            }
        }
        is_calm(text, 47, 0);
        calm_is_quiet(text, c);
        reads_between(Seq::<u8>::empty(), o, text, c, Seq::<u8>::empty());
        assert(Seq::<u8>::empty() + data == data);
        let end: int = (o.len() + text.len() + c.len()) as int;
        assert(data.skip(end).len() == 0);
        base64_round_trip(payload);
        assert(b.len() > 0);
        assert(b[0] == crate::capture::items::letter(payload[0] as int / 4));
        assert(text.drop_first() == b);
        assert(partial(text) == b) by {
            reveal_with_fuel(partial, 3);
        }
    }
}

/// What stands between the tags of an item that was written.
spec fn body_of(i: ItemView) -> Seq<u8> {
    plain("<type>"@) + (plain(padded_hex(i.kind as nat, 8)) + (plain("</type>"@) + (plain(
        "<code>"@,
    ) + (plain(padded_hex(i.code as nat, 8)) + (plain("</code>"@) + (plain("<length>"@) + (plain(
        decimal(i.payload.len()),
    ) + (plain("</length>"@) + data_of(i.payload)))))))))
}

proof fn numbers_are_quiet(i: ItemView, needle: Seq<u8>)
    requires
        needle.len() >= 2,
        needle[0] == 60,
    ensures
        quiet(plain(padded_hex(i.kind as nat, 8)), needle),
        quiet(plain(padded_hex(i.code as nat, 8)), needle),
        quiet(plain(decimal(i.payload.len())), needle),
{
    padded_hex_is_ascii(i.kind as nat, 8);
    padded_hex_is_ascii(i.code as nat, 8);
    decimal_is_ascii(i.payload.len());
    let k = plain(padded_hex(i.kind as nat, 8));
    let c = plain(padded_hex(i.code as nat, 8));
    let n = plain(decimal(i.payload.len()));
    is_calm(k, needle[1], 0);
    is_calm(c, needle[1], 0);
    is_calm(n, needle[1], 0);
    calm_is_quiet(k, needle);
    calm_is_quiet(c, needle);
    calm_is_quiet(n, needle);
}

/// The tags of a body, one after the other.
spec fn body_from(
    t1: Seq<u8>,
    k: Seq<u8>,
    t2: Seq<u8>,
    t3: Seq<u8>,
    c: Seq<u8>,
    t4: Seq<u8>,
    t5: Seq<u8>,
    n: Seq<u8>,
    t6: Seq<u8>,
    d: Seq<u8>,
) -> Seq<u8> {
    t1 + (k + (t2 + (t3 + (c + (t4 + (t5 + (n + (t6 + d))))))))
}

proof fn tags_read_back(
    t1: Seq<u8>,
    k: Seq<u8>,
    t2: Seq<u8>,
    t3: Seq<u8>,
    c: Seq<u8>,
    t4: Seq<u8>,
    t5: Seq<u8>,
    n: Seq<u8>,
    t6: Seq<u8>,
    d: Seq<u8>,
)
    requires
        quiet(k, t2),
        quiet(c, t4),
        quiet(n, t6),
        t2.len() > 0,
        t4.len() > 0,
        t6.len() > 0,
    ensures
        ({
            let body = body_from(t1, k, t2, t3, c, t4, t5, n, t6, d);
            let a = (t1.len() + k.len() + t2.len()) as int;
            let b = a + t3.len() + c.len() + t4.len();
            let e = b + t5.len() + n.len() + t6.len();
            &&& between(body, 0, t1, t2) == Some((k, a))
            &&& between(body, a, t3, t4) == Some((c, b))
            &&& between(body, b, t5, t6) == Some((n, e))
            &&& body.skip(e) == d
        }),
{
    let body = body_from(t1, k, t2, t3, c, t4, t5, n, t6, d);
    let from3 = t5 + (n + (t6 + d));
    let from2 = t3 + (c + (t4 + from3));
    assert(body == Seq::<u8>::empty() + (t1 + (k + (t2 + from2))));
    reads_between(Seq::<u8>::empty(), t1, k, t2, from2);
    let f2 = t1 + k + t2;
    assert(body == f2 + (t3 + (c + (t4 + from3))));
    reads_between(f2, t3, c, t4, from3);
    let f3 = f2 + t3 + c + t4;
    assert(body == f3 + (t5 + (n + (t6 + d))));
    reads_between(f3, t5, n, t6, d);
    let f4 = f3 + t5 + n + t6;
    assert(body == f4 + d);
    assert(body.skip(f4.len() as int) == d);
}

proof fn bodies_read_back(i: ItemView)
    requires
        i.payload.len() <= u64::MAX,
    ensures
        item_in(body_of(i)) == Ok::<ItemView, Flaw>(i),
{
    let t2 = plain("</type>"@);
    let t4 = plain("</code>"@);
    let t6 = plain("</length>"@);
    assert(t2.len() >= 2 && t2[0] == 60 && t4.len() >= 2 && t4[0] == 60 && t6.len() >= 2 && t6[0]
        == 60) by {
        reveal_strlit("</type>");
        reveal_strlit("</code>");
        reveal_strlit("</length>");
    }
    numbers_are_quiet(i, t2);
    numbers_are_quiet(i, t4);
    numbers_are_quiet(i, t6);
    tags_read_back(
        plain("<type>"@),
        plain(padded_hex(i.kind as nat, 8)),
        t2,
        plain("<code>"@),
        plain(padded_hex(i.code as nat, 8)),
        t4,
        plain("<length>"@),
        plain(decimal(i.payload.len())),
        t6,
        data_of(i.payload),
    );
    payloads_read_back(i.payload);
    assert(sixteens(8) == 0x1_0000_0000) by {
        reveal_with_fuel(sixteens, 9);
    }
    codes_read_back(i.kind as nat, 8);
    codes_read_back(i.code as nat, 8);
    lengths_read_back(i.payload.len());
}

proof fn bodies_are_quiet(i: ItemView)
    ensures
        quiet(body_of(i), plain("</item>"@)),
{
    let needle = plain("</item>"@);
    reveal_strlit("</item>");
    reveal_strlit("<type>");
    reveal_strlit("</type>");
    reveal_strlit("<code>");
    reveal_strlit("</code>");
    reveal_strlit("<length>");
    reveal_strlit("</length>");
    let t1 = plain("<type>"@);
    let t2 = plain("</type>"@);
    let t3 = plain("<code>"@);
    let t4 = plain("</code>"@);
    let t5 = plain("<length>"@);
    let t6 = plain("</length>"@);
    let k = plain(padded_hex(i.kind as nat, 8));
    let c = plain(padded_hex(i.code as nat, 8));
    let n = plain(decimal(i.payload.len()));
    let d = data_of(i.payload);
    assert(calm(t1, 47) && calm(t3, 47) && calm(t5, 47)) by {
        reveal_with_fuel(calm_from, 10);
    }
    calm_is_quiet(t1, needle);
    calm_is_quiet(t3, needle);
    calm_is_quiet(t5, needle);
    assert(calm(t2.skip(1), 47) && calm(t4.skip(1), 47) && calm(t6.skip(1), 47)) by {
        reveal_with_fuel(calm_from, 10);
    }
    other_close_is_quiet(t2, needle);
    other_close_is_quiet(t4, needle);
    other_close_is_quiet(t6, needle);
    numbers_are_quiet(i, needle);
    data_is_quiet(i.payload);
    quiet_join(t6, d, needle);
    quiet_join(n, t6 + d, needle);
    quiet_join(t5, n + (t6 + d), needle);
    quiet_join(t4, t5 + (n + (t6 + d)), needle);
    quiet_join(c, t4 + (t5 + (n + (t6 + d))), needle);
    quiet_join(t3, c + (t4 + (t5 + (n + (t6 + d)))), needle);
    quiet_join(t2, t3 + (c + (t4 + (t5 + (n + (t6 + d))))), needle);
    quiet_join(k, t2 + (t3 + (c + (t4 + (t5 + (n + (t6 + d)))))), needle);
    quiet_join(t1, k + (t2 + (t3 + (c + (t4 + (t5 + (n + (t6 + d))))))), needle);
}

proof fn data_is_quiet(payload: Seq<u8>)
    ensures
        quiet(data_of(payload), plain("</item>"@)),
{
    let needle = plain("</item>"@);
    reveal_strlit("</item>");
    if payload.len() > 0 {
        reveal_strlit("\n<data encoding=\"base64\">\n");
        reveal_strlit("</data>");
        let o = plain("\n<data encoding=\"base64\">\n"@);
        let b = base64(payload);
        let c = plain("</data>"@);
        assert(calm(o, 47)) by {
            reveal_with_fuel(calm_from, 28);
        }
        calm_is_quiet(o, needle);
        base64_has_no_brackets(payload);
        is_calm(b, 47, 0);
        calm_is_quiet(b, needle);
        assert(calm(c.skip(1), 47)) by {
            reveal_with_fuel(calm_from, 9);
        }
        other_close_is_quiet(c, needle);
        quiet_join(o, b, needle);
        quiet_join(o + b, c, needle);
    }
}

/// An item as it is written: its opening, its body, and its close.
#[verifier::spinoff_prover]
proof fn items_have_bodies(i: ItemView)
    ensures
        encoded(i) == plain("<item>"@) + (body_of(i) + (plain("</item>"@) + plain("\n"@))),
        plain("<item>"@).len() == 6,
        plain("</item>"@).len() == 7,
        plain("\n"@) == seq![10u8],
{
    reveal_strlit("<item>");
    reveal_strlit("</item>");
    reveal_strlit("</item>\n");
    reveal_strlit("\n");
    reveal_strlit("<type>");
    reveal_strlit("<item><type>");
    reveal_strlit("</type><code>");
    reveal_strlit("</type>");
    reveal_strlit("<code>");
    reveal_strlit("</code><length>");
    reveal_strlit("</code>");
    reveal_strlit("<length>");
    let open = plain("<item>"@);
    let close = plain("</item>"@);
    let nl = plain("\n"@);
    assert(nl =~= seq![10u8]);
    assert(plain("<item><type>"@) == open + plain("<type>"@));
    assert(plain("</type><code>"@) == plain("</type>"@) + plain("<code>"@));
    assert(plain("</code><length>"@) == plain("</code>"@) + plain("<length>"@));
    assert(plain("</item>\n"@) == close + nl);
    assert(encoded(i) == open + (body_of(i) + (close + nl)));
}

/// An item that was written is the next one that is read, behind the newline
/// that ends the one before it, and whatever follows it.
#[verifier::spinoff_prover]
#[verifier::rlimit(30)]
proof fn items_read_back(pre: Seq<u8>, i: ItemView, rest: Seq<u8>)
    requires
        i.payload.len() <= u64::MAX,
        pre == Seq::<u8>::empty() || pre == plain("\n"@),
    ensures
        next_in(pre + (encoded(i) + rest)) == Some(
            (Ok::<ItemView, Flaw>(i), pre.len() + encoded(i).len() - 1),
        ),
        (pre + (encoded(i) + rest)).skip(pre.len() + encoded(i).len() - 1) == plain("\n"@) + rest,
        encoded(i).len() >= 14,
{
    let open = plain("<item>"@);
    let close = plain("</item>"@);
    let nl = plain("\n"@);
    let body = body_of(i);
    items_have_bodies(i);
    let s = pre + (encoded(i) + rest);
    let behind = body + (close + (nl + rest));
    assert(s == pre + (open + behind));
    assert(calm(pre, 105)) by {
        reveal_with_fuel(calm_from, 3);
    }
    assert(open[0] == 60 && open[1] == 105) by {
        reveal_strlit("<item>");
    }
    calm_is_quiet(pre, open);
    found_behind(pre, open, behind);
    assert(s.skip((pre.len() + 6) as int) == behind);
    bodies_are_quiet(i);
    found_behind(body, close, nl + rest);
    assert(behind.take(body.len() as int) == body);
    bodies_read_back(i);
    assert(s.skip((pre.len() + 6 + body.len() + 7) as int) == nl + rest);
}

/// Items as they come out of a stream.
pub open spec fn all_sound(items: Seq<ItemView>) -> Seq<Result<ItemView, Flaw>> {
    items.map_values(|i: ItemView| Ok::<ItemView, Flaw>(i))
}

proof fn one_item_less(s: Seq<u8>, r: Result<ItemView, Flaw>, end: int)
    requires
        next_in(s) == Some((r, end)),
        0 < end <= s.len(),
    ensures
        all_in(s) == (seq![r] + all_in(s.skip(end)).0, all_in(s.skip(end)).1),
{
}

#[verifier::spinoff_prover]
#[verifier::rlimit(30)]
proof fn streams_read_back_behind(pre: Seq<u8>, items: Seq<ItemView>, tail: Seq<u8>)
    requires
        forall|k: int| 0 <= k < items.len() ==> (#[trigger] items[k]).payload.len() <= u64::MAX,
        pre == Seq::<u8>::empty() || pre == plain("\n"@),
        next_in(tail) is None,
        next_in(plain("\n"@) + tail) is None,
    ensures
        ({
            let r = all_in(pre + (encoded_all(items) + tail));
            &&& r.0 == all_sound(items)
            &&& r.1 == (if items.len() == 0 {
                pre
            } else {
                plain("\n"@)
            }) + tail
        }),
    decreases items.len(),
{
    let nl = plain("\n"@);
    if items.len() == 0 {
        assert(encoded_all(items) + tail == tail);
        assert(Seq::<u8>::empty() + tail == tail);
        assert(all_sound(items) == Seq::<Result<ItemView, Flaw>>::empty());
    } else {
        let i = items[0];
        let f = items.drop_first();
        assert forall|k: int| 0 <= k < f.len() implies (#[trigger] f[k]).payload.len()
            <= u64::MAX by {
            assert(f[k] == items[k + 1]);
        }
        crate::capture::fixture::packed_all_front(items);
        let rest = encoded_all(f) + tail;
        assert(encoded_all(items) + tail == encoded(i) + rest);
        items_read_back(pre, i, rest);
        streams_read_back_behind(nl, f, tail);
        let s = pre + (encoded_all(items) + tail);
        let end: int = pre.len() + encoded(i).len() - 1;
        assert(0 < end <= s.len());
        assert(s.skip(end) == nl + rest);
        one_item_less(s, Ok::<ItemView, Flaw>(i), end);
        assert(all_sound(items) == seq![Ok::<ItemView, Flaw>(i)] + all_sound(f));
    }
}

/// A stream reads as what was written into it: every item comes back, in
/// order and undamaged, and what follows the last one is waited on.
pub proof fn streams_read_back(items: Seq<ItemView>, tail: Seq<u8>)
    requires
        forall|k: int| 0 <= k < items.len() ==> (#[trigger] items[k]).payload.len() <= u64::MAX,
        first(tail, plain("</item>"@)) is None,
    ensures
        all_in(encoded_all(items) + tail).0 == all_sound(items),
        all_in(encoded_all(items) + tail).1 == (if items.len() == 0 {
            Seq::<u8>::empty()
        } else {
            plain("\n"@)
        }) + tail,
        items.len() > 0 ==> partial(all_in(encoded_all(items) + tail).1) == partial(tail),
{
    let nl = plain("\n"@);
    let close = plain("</item>"@);
    reveal_strlit("\n");
    reveal_strlit("</item>");
    reveal_strlit("<item>");
    nothing_to_read(tail);
    assert(first(nl + tail, close) is None) by {
        crate::capture::search::finding_is_exact(tail, close);
        assert forall|j: int| 0 <= j implies !stands(nl + tail, close, j) by {
            if j == 0 {
                if stands(nl + tail, close, 0) {
                    assert((nl + tail).subrange(0, 7)[0] == (nl + tail)[0]);
                }
            } else {
                stands_behind(nl, tail, close, j - 1);
            }
        }
        first_is_nowhere(nl + tail, close, 0);
    }
    nothing_to_read(nl + tail);
    streams_read_back_behind(Seq::<u8>::empty(), items, tail);
    assert(Seq::<u8>::empty() + (encoded_all(items) + tail) == encoded_all(items) + tail);
    assert((nl + tail).drop_first() == tail);
    assert(partial(nl + tail) == partial(tail));
}

proof fn nothing_to_read(s: Seq<u8>)
    requires
        first(s, plain("</item>"@)) is None,
    ensures
        next_in(s) is None,
{
    reveal_strlit("</item>");
    reveal_strlit("<item>");
    let close = plain("</item>"@);
    let open = plain("<item>"@);
    crate::capture::search::finding_is_exact(s, close);
    match first(s, open) {
        Some(at) => {
            first_stands(s, open, 0);
            let inner = s.skip(at + 6);
            let front = s.take(at + 6);
            assert(s == front + inner);
            assert forall|j: int| 0 <= j implies !stands(inner, close, j) by {
                stands_behind(front, inner, close, j);
            }
            first_is_nowhere(inner, close, 0);
        },
        None => {},
    }
}

} // verus!
