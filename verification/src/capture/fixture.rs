//! Packing captures.
//!
//! A raw capture of a real session is mostly base64 cover art. Packing
//! externalises every artwork payload into a content-addressed file and leaves
//! a reference behind; unpacking reverses it exactly.

use vstd::prelude::*;
use vstd::slice::slice_subrange;
use vstd::utf8::{
    decode_utf8, encode_utf8_decode_utf8, encode_utf8_valid_utf8, is_ascii_chars, valid_utf8,
};

use crate::artwork::{join_path, joined};
use crate::capture::items::{
    base64, base64_has_no_brackets, decimal_is_ascii, encode_items, encoded, encoded_all, head,
    items_view, padded_hex_is_ascii, plain, plain_is_utf8, push_head, push_item, push_plain, Item,
    ItemView, PICT, SSNC,
};
use crate::capture::reader::{all_in, damage, read_items, sound};
use crate::capture::search::{
    calm, calm_excludes, calm_from, calm_join, find, finding_is_exact, first, first_is,
    first_is_nowhere, first_stands, is_calm, last, last_is, last_stands, rfind, stands,
    stands_behind,
};
use crate::digest::{digest_text, hex_digest, short_digest};
use crate::meta::{CoreField, CoreView, MetaEvent, MetaView};
use crate::strings::{
    ascending, concat, debug_quoted, decimal, hex, insert_sorted, opt_text, padded_hex, quote, same,
    texts, to_chars, to_decimal, to_padded_hex, trim, trimmed, trimmed_end, trimmed_start,
};

verus! {

broadcast use vstd::seq::group_seq_axioms;

// --- references -----------------------------------------------------------

/// The name of a picture: its digest.
pub fn art_digest(bytes: &[u8]) -> (r: String)
    ensures
        r@ == digest_text(bytes@),
        r@.len() == 64,
{
    hex_digest(bytes)
}

/// What opens the data of a reference.
pub open spec fn opening() -> Seq<u8> {
    plain("<data encoding=\"lpcapture-ref\">"@)
}

/// What opens an item.
pub open spec fn item_opening() -> Seq<u8> {
    plain("<item>"@)
}

/// What closes an item.
pub open spec fn item_closing() -> Seq<u8> {
    plain("</item>"@)
}

/// What closes data.
pub open spec fn data_closing() -> Seq<u8> {
    plain("</data>"@)
}

/// Whether an item is a picture that is kept in a file of its own.
pub open spec fn is_art(i: ItemView) -> bool {
    i.kind == SSNC && i.code == PICT && i.payload.len() > 0
}

/// A reference to a picture.
pub open spec fn reference(i: ItemView) -> Seq<u8> {
    head(i.kind, i.code, i.payload.len()) + plain("\n"@) + opening() + plain("\n"@) + plain(
        digest_text(i.payload),
    ) + data_closing() + plain("</item>\n"@)
}

/// An item as it is packed.
pub open spec fn packed_one(i: ItemView) -> Seq<u8> {
    if is_art(i) {
        reference(i)
    } else {
        encoded(i)
    }
}

/// Items as they are packed.
pub open spec fn packed_all(s: Seq<ItemView>) -> Seq<u8>
    decreases s.len(),
{
    if s.len() == 0 {
        Seq::empty()
    } else {
        packed_all(s.drop_last()) + packed_one(s.last())
    }
}

/// A picture and its digest.
#[derive(Debug)]
pub struct Art {
    pub digest: String,
    pub payload: Vec<u8>,
}

/// Pictures as values.
pub open spec fn arts_view(s: Seq<Art>) -> Seq<(Seq<char>, Seq<u8>)> {
    s.map_values(|a: Art| (a.digest@, a.payload@))
}

/// The pictures among some items.
pub open spec fn arts(s: Seq<ItemView>) -> Seq<(Seq<char>, Seq<u8>)>
    decreases s.len(),
{
    if s.len() == 0 {
        Seq::empty()
    } else if is_art(s.last()) {
        arts(s.drop_last()).push((digest_text(s.last().payload), s.last().payload))
    } else {
        arts(s.drop_last())
    }
}

/// The picture with a digest.
pub open spec fn payload_of(art: Seq<(Seq<char>, Seq<u8>)>, digest: Seq<char>) -> Option<Seq<u8>>
    decreases art.len(),
{
    if art.len() == 0 {
        None
    } else if art[0].0 == digest {
        Some(art[0].1)
    } else {
        payload_of(art.drop_first(), digest)
    }
}

/// Whether a byte separates: ASCII white space.
pub open spec fn separates(b: u8) -> bool {
    b == 32 || b == 9 || b == 10 || b == 12 || b == 13
}

/// The unconsumed tail of a capture, minus separating white space.
///
/// After a clean stream the tail still holds the newline that follows the last
/// item. Writing an item emits that separator itself, so copying the tail
/// verbatim would append one extra newline per cycle.
pub open spec fn partial(rest: Seq<u8>) -> Seq<u8>
    decreases rest.len(),
{
    if rest.len() > 0 && separates(rest[0]) {
        partial(rest.drop_first())
    } else {
        rest
    }
}

/// The unconsumed tail of a capture, minus separating white space.
pub fn trailing_partial_item(rest: &[u8]) -> (r: &[u8])
    ensures
        r@ == partial(rest@),
{
    let mut i: usize = 0;
    assert(rest@.skip(0) == rest@);
    while i < rest.len() && (rest[i] == 32 || rest[i] == 9 || rest[i] == 10 || rest[i] == 12
        || rest[i] == 13)
        invariant
            i <= rest@.len(),
            partial(rest@) == partial(rest@.skip(i as int)),
        decreases rest.len() - i,
    {
        assert(rest@.skip(i as int).drop_first() == rest@.skip(i + 1));
        i = i + 1;
    }
    assert(rest@.skip(i as int) == rest@.subrange(i as int, rest@.len() as int));
    slice_subrange(rest, i, rest.len())
}

/// A packed capture.
#[derive(Debug)]
pub struct Packed {
    pub bytes: Vec<u8>,
    /// The pictures that it refers to.
    pub art: Vec<Art>,
    /// Their digests, each once, in order.
    pub digests: Vec<String>,
}

fn push_reference(out: &mut Vec<u8>, item: &Item, digest: &str)
    requires
        digest@ == digest_text(item.payload@),
        is_art(item@),
    ensures
        final(out)@ == old(out)@ + reference(item@),
{
    proof {
        reveal_strlit("\n");
        reveal_strlit("<data encoding=\"lpcapture-ref\">");
        reveal_strlit("</data>");
        reveal_strlit("</item>\n");
        digest_is_hex(item.payload@);
    }
    push_head(out, item.kind, item.code, item.payload.len());
    push_plain(out, "\n");
    push_plain(out, "<data encoding=\"lpcapture-ref\">");
    push_plain(out, "\n");
    push_plain(out, digest);
    push_plain(out, "</data>");
    push_plain(out, "</item>\n");
    assert(out@ == old(out)@ + reference(item@));
}

/// Rewrite items with artwork payloads replaced by references. `rest` is what
/// follows them.
///
/// A capture that ends mid-item is the whole point of some of them; reframing
/// does not quietly tidy the truncation away.
pub fn pack_items(items: &Vec<Item>, rest: &[u8]) -> (r: Packed)
    ensures
        r.bytes@ == packed_all(items_view(items@)) + partial(rest@),
        arts_view(r.art@) == arts(items_view(items@)),
        forall|i: int|
            0 <= i < items@.len() && is_art(#[trigger] items_view(items@)[i]) ==> digest_text(
                items_view(items@)[i].payload,
            ).len() == 64,
        ascending(texts(r.digests@)),
        forall|d: Seq<char>|
            texts(r.digests@).contains(d) <==> exists|i: int|
                0 <= i < items@.len() && is_art(#[trigger] items_view(items@)[i]) && digest_text(
                    items_view(items@)[i].payload,
                ) == d,
{
    let ghost all = items_view(items@);
    let mut out: Vec<u8> = Vec::new();
    let mut art: Vec<Art> = Vec::new();
    let mut digests: Vec<String> = Vec::new();
    let mut n: usize = 0;
    assert(all.take(0).len() == 0);
    assert(arts_view(art@) == arts(all.take(0)));
    while n < items.len()
        invariant
            n <= items@.len(),
            all == items_view(items@),
            out@ == packed_all(all.take(n as int)),
            arts_view(art@) == arts(all.take(n as int)),
            forall|i: int|
                0 <= i < n && is_art(#[trigger] all[i]) ==> digest_text(all[i].payload).len() == 64,
            ascending(texts(digests@)),
            forall|d: Seq<char>|
                texts(digests@).contains(d) <==> exists|i: int|
                    0 <= i < n && is_art(#[trigger] all[i]) && digest_text(all[i].payload) == d,
        decreases items.len() - n,
    {
        let item = &items[n];
        let ghost x = all[n as int];
        assert(x == item@);
        assert(all.take(n + 1).drop_last() == all.take(n as int));
        assert(all.take(n + 1).last() == x);
        let ghost known = texts(digests@);
        if item.kind == SSNC && item.code == PICT && item.payload.len() > 0 {
            let digest = art_digest(&item.payload);
            push_reference(&mut out, item, digest.as_str());
            let payload = copy_bytes(&item.payload);
            let ghost before = arts_view(art@);
            art.push(Art { digest: digest.clone(), payload });
            assert(arts_view(art@) == before.push((digest_text(x.payload), x.payload)));
            insert_sorted(&mut digests, digest);
            assert forall|d: Seq<char>| texts(digests@).contains(d) <==> exists|i: int|
                0 <= i < n + 1 && is_art(#[trigger] all[i]) && digest_text(all[i].payload)
                    == d by {
                if known.contains(d) {
                    let i = choose|i: int|
                        0 <= i < n && is_art(#[trigger] all[i]) && digest_text(all[i].payload) == d;
                    assert(is_art(all[i]));
                }
                assert(is_art(all[n as int]));
            }
        } else {
            push_item(&mut out, item.kind, item.code, &item.payload);
            assert forall|d: Seq<char>| texts(digests@).contains(d) <==> exists|i: int|
                0 <= i < n + 1 && is_art(#[trigger] all[i]) && digest_text(all[i].payload)
                    == d by {
                if known.contains(d) {
                    let i = choose|i: int|
                        0 <= i < n && is_art(#[trigger] all[i]) && digest_text(all[i].payload) == d;
                    assert(is_art(all[i]));
                }
            }
        }
        n = n + 1;
    }
    assert(all.take(items.len() as int) == all);
    out.extend_from_slice(trailing_partial_item(rest));
    Packed { bytes: out, art, digests }
}

fn copy_bytes(b: &Vec<u8>) -> (r: Vec<u8>)
    ensures
        r@ == b@,
{
    let mut out: Vec<u8> = Vec::new();
    out.extend_from_slice(b);
    out
}

/// Write items again. `rest` is what follows them.
pub fn rewrite(items: &Vec<Item>, rest: &[u8]) -> (r: Vec<u8>)
    ensures
        r@ == encoded_all(items_view(items@)) + partial(rest@),
{
    let mut out = encode_items(items);
    out.extend_from_slice(trailing_partial_item(rest));
    out
}

/// The items of a capture.
pub open spec fn items_of(input: Seq<u8>) -> Seq<ItemView> {
    sound(all_in(input).0)
}

/// What follows the items of a capture.
pub open spec fn tail_of(input: Seq<u8>) -> Seq<u8> {
    partial(all_in(input).1)
}

/// A capture that is reframed.
pub open spec fn canonical(input: Seq<u8>) -> Seq<u8> {
    encoded_all(items_of(input)) + tail_of(input)
}

/// A capture that is packed.
pub open spec fn packed(input: Seq<u8>) -> Seq<u8> {
    packed_all(items_of(input)) + tail_of(input)
}

/// Rewrite a capture with artwork payloads replaced by references.
///
/// Damage in a capture is data, not a failure: one that reproduces a parser
/// error is worth keeping. Preserving it exactly is impossible once reframed,
/// so refuse rather than silently produce something that differs from what was
/// captured.
pub fn pack(input: &[u8]) -> (r: Result<Packed, String>)
    ensures
        match damage(all_in(input@).0) {
            Some(e) => r matches Err(m) && m@ == "capture contains unparseable data ("@ + e.text()
                + "); pack it as raw instead"@,
            None => {
                &&& r matches Ok(p)
                &&& p.bytes@ == packed(input@)
                &&& arts_view(p.art@) == arts(items_of(input@))
                &&& ascending(texts(p.digests@))
                &&& forall|d: Seq<char>|
                    texts(p.digests@).contains(d) <==> exists|i: int|
                        0 <= i < items_of(input@).len() && is_art(#[trigger] items_of(input@)[i])
                            && digest_text(items_of(input@)[i].payload) == d
            },
        },
{
    let reading = read_items(input);
    match reading.flaw {
        Some(e) => {
            let mut m = concat("capture contains unparseable data (", e.message());
            m.append("); pack it as raw instead");
            Err(m)
        },
        None => {
            let rest = slice_subrange(input, reading.consumed, input.len());
            assert(rest@ == input@.skip(reading.consumed as int));
            Ok(pack_items(&reading.items, rest))
        },
    }
}

/// Reframe a capture: read it and write every item again.
///
/// Packing normalises framing as a side effect, so the check that nothing was
/// lost compares against this rather than the original bytes.
pub fn canonicalise(input: &[u8]) -> (r: Result<Vec<u8>, String>)
    ensures
        match damage(all_in(input@).0) {
            Some(e) => r matches Err(m) && m@ == "capture contains unparseable data: "@ + e.text(),
            None => r matches Ok(v) && v@ == canonical(input@),
        },
{
    let reading = read_items(input);
    match reading.flaw {
        Some(e) => Err(concat("capture contains unparseable data: ", e.message())),
        None => {
            let rest = slice_subrange(input, reading.consumed, input.len());
            assert(rest@ == input@.skip(reading.consumed as int));
            Ok(rewrite(&reading.items, rest))
        },
    }
}

/// What is wrong with a packed capture.
#[derive(Debug)]
pub enum UnpackError {
    NoItem,
    Unterminated,
    NoData,
    NotText,
    NotADigest(String),
    /// This picture is needed.
    Missing(String),
    /// The picture with this digest has another one.
    Wrong { digest: String, actual: String },
}

/// An [`UnpackError`] as values.
pub enum ErrorView {
    NoItem,
    Unterminated,
    NoData,
    NotText,
    NotADigest(Seq<char>),
    Missing(Seq<char>),
    Wrong { digest: Seq<char>, actual: Seq<char> },
}

impl View for UnpackError {
    type V = ErrorView;

    open spec fn view(&self) -> ErrorView {
        match *self {
            UnpackError::NoItem => ErrorView::NoItem,
            UnpackError::Unterminated => ErrorView::Unterminated,
            UnpackError::NoData => ErrorView::NoData,
            UnpackError::NotText => ErrorView::NotText,
            UnpackError::NotADigest(d) => ErrorView::NotADigest(d@),
            UnpackError::Missing(d) => ErrorView::Missing(d@),
            UnpackError::Wrong { digest, actual } => ErrorView::Wrong {
                digest: digest@,
                actual: actual@,
            },
        }
    }
}

impl UnpackError {
    /// What the user is told. `path` is where the picture in question is.
    pub fn message(&self, path: &str) -> (r: String)
        ensures
            r@ == match self@ {
                ErrorView::NoItem => "found an artwork reference with no enclosing <item>"@,
                ErrorView::Unterminated => "found an unterminated artwork reference"@,
                ErrorView::NoData => "artwork reference is missing </data>"@,
                ErrorView::NotText => "artwork reference is not utf-8"@,
                ErrorView::NotADigest(d) => "artwork reference "@ + debug_quoted(d)
                    + " is not a sha256 digest"@,
                ErrorView::Missing(_) => "reading referenced artwork "@ + path@,
                ErrorView::Wrong { digest, actual } => path@ + " has digest "@ + actual
                    + ", expected "@ + digest,
            },
    {
        match self {
            UnpackError::NoItem => "found an artwork reference with no enclosing <item>".to_owned(),
            UnpackError::Unterminated => "found an unterminated artwork reference".to_owned(),
            UnpackError::NoData => "artwork reference is missing </data>".to_owned(),
            UnpackError::NotText => "artwork reference is not utf-8".to_owned(),
            UnpackError::NotADigest(d) => {
                let mut m = concat("artwork reference ", quote(d.as_str()).as_str());
                m.append(" is not a sha256 digest");
                m
            },
            UnpackError::Missing(_) => concat("reading referenced artwork ", path),
            UnpackError::Wrong { digest, actual } => {
                let mut m = concat(path, " has digest ");
                m.append(actual.as_str());
                m.append(", expected ");
                m.append(digest.as_str());
                m
            },
        }
    }
}

/// Whether a character is a hexadecimal digit of either case.
pub open spec fn hex_digit(c: char) -> bool {
    '0' <= c <= '9' || 'a' <= c <= 'f' || 'A' <= c <= 'F'
}

/// Whether a text looks like a digest.
pub open spec fn looks_like_digest(t: Seq<char>) -> bool {
    t.len() == 64 && forall|i: int| 0 <= i < 64 ==> hex_digit(#[trigger] t[i])
}

/// The digest in the data of a reference.
pub open spec fn digest_in(data: Seq<u8>) -> Result<Seq<char>, ErrorView> {
    if !valid_utf8(data) {
        Err(ErrorView::NotText)
    } else {
        let t = trimmed(decode_utf8(data));
        if looks_like_digest(t) {
            Ok(t)
        } else {
            Err(ErrorView::NotADigest(t))
        }
    }
}

/// A reference in a packed capture: where its item begins and ends.
pub struct Reference {
    pub start: int,
    pub end: int,
    pub digest: Seq<char>,
}

/// The first reference in a packed capture, or what is wrong with it.
pub open spec fn reference_in(rest: Seq<u8>) -> Option<Result<Reference, ErrorView>> {
    match first(rest, opening()) {
        None => None,
        Some(at) => Some(
            match last(rest.take(at), item_opening()) {
                None => Err(ErrorView::NoItem),
                Some(start) => match first(rest.skip(at), item_closing()) {
                    None => Err(ErrorView::Unterminated),
                    Some(n) => {
                        let body = rest.skip(at + opening().len());
                        match first(body, data_closing()) {
                            None => Err(ErrorView::NoData),
                            Some(m) => match digest_in(body.take(m)) {
                                Err(e) => Err(e),
                                Ok(digest) => Ok(
                                    Reference {
                                        start,
                                        end: at + n + item_closing().len(),
                                        digest,
                                    },
                                ),
                            },
                        }
                    },
                },
            },
        ),
    }
}

/// What follows a reference: the newline after it goes with it.
pub open spec fn after(rest: Seq<u8>, end: int) -> Seq<u8> {
    if end < rest.len() && rest[end] == 10 {
        rest.skip(end + 1)
    } else {
        rest.skip(end)
    }
}

/// The capture that a packed one stands for. References are rewritten;
/// everything else passes through untouched.
pub open spec fn unpacked(rest: Seq<u8>, art: Seq<(Seq<char>, Seq<u8>)>) -> Result<
    Seq<u8>,
    ErrorView,
>
    decreases rest.len(),
{
    match reference_in(rest) {
        None => Ok(rest),
        Some(Err(e)) => Err(e),
        Some(Ok(r)) => match payload_of(art, r.digest) {
            None => Err(ErrorView::Missing(r.digest)),
            Some(payload) => if digest_text(payload) != r.digest {
                Err(ErrorView::Wrong { digest: r.digest, actual: digest_text(payload) })
            } else if r.end <= 0 || r.end > rest.len() {
                Ok(rest)
            } else {
                prepended(
                    rest.take(r.start) + encoded(ItemView { kind: SSNC, code: PICT, payload }),
                    unpacked(after(rest, r.end), art),
                )
            },
        },
    }
}

/// Calls `std::str::from_utf8`. It gives a text if and only if the bytes are
/// UTF-8, and then the one that they encode.
#[verifier::external_body]
pub(crate) fn text_of(bytes: &[u8]) -> (r: Option<String>)
    ensures
        match r {
            Some(s) => valid_utf8(bytes@) && s@ == decode_utf8(bytes@),
            None => !valid_utf8(bytes@),
        },
{
    std::str::from_utf8(bytes).ok().map(str::to_owned)
}

fn read_digest(data: &[u8]) -> (r: Result<String, UnpackError>)
    ensures
        match r {
            Ok(d) => digest_in(data@) == Ok::<Seq<char>, ErrorView>(d@),
            Err(e) => digest_in(data@) == Err::<Seq<char>, ErrorView>(e@),
        },
{
    let text = match text_of(data) {
        Some(t) => t,
        None => {
            return Err(UnpackError::NotText);
        },
    };
    let digest = trim(text.as_str());
    let c = to_chars(digest.as_str());
    if c.len() != 64 {
        return Err(UnpackError::NotADigest(digest));
    }
    let mut i: usize = 0;
    while i < c.len()
        invariant
            i <= c@.len(),
            c@ == digest@,
            c@.len() == 64,
            forall|k: int| 0 <= k < i ==> hex_digit(#[trigger] c@[k]),
            digest@ == trimmed(decode_utf8(data@)),
            valid_utf8(data@),
        decreases c.len() - i,
    {
        let x = c[i];
        if !(('0' <= x && x <= '9') || ('a' <= x && x <= 'f') || ('A' <= x && x <= 'F')) {
            assert(!hex_digit(c@[i as int]));
            return Err(UnpackError::NotADigest(digest));
        }
        i = i + 1;
    }
    Ok(digest)
}

fn find_payload<'a>(art: &'a Vec<Art>, digest: &str) -> (r: Option<&'a Vec<u8>>)
    ensures
        match r {
            Some(p) => payload_of(arts_view(art@), digest@) == Some(p@),
            None => payload_of(arts_view(art@), digest@) is None,
        },
{
    let ghost all = arts_view(art@);
    let mut i: usize = 0;
    assert(all.skip(0) == all);
    while i < art.len()
        invariant
            i <= art@.len(),
            all == arts_view(art@),
            payload_of(all, digest@) == payload_of(all.skip(i as int), digest@),
        decreases art.len() - i,
    {
        assert(all.skip(i as int)[0] == (art@[i as int].digest@, art@[i as int].payload@));
        assert(all.skip(i as int).drop_first() == all.skip(i + 1));
        if same(art[i].digest.as_str(), digest) {
            return Some(&art[i].payload);
        }
        i = i + 1;
    }
    None
}

/// A reference that was found.
struct Found {
    start: usize,
    end: usize,
    digest: String,
}

impl Found {
    spec fn reference(&self) -> Reference {
        Reference { start: self.start as int, end: self.end as int, digest: self.digest@ }
    }
}

proof fn tags()
    ensures
        is_ascii_chars("<data encoding=\"lpcapture-ref\">"@),
        is_ascii_chars("<item>"@),
        is_ascii_chars("</item>"@),
        is_ascii_chars("</data>"@),
        opening().len() == 31,
        item_opening().len() == 6,
        item_closing().len() == 7,
        data_closing().len() == 7,
{
    reveal_strlit("<data encoding=\"lpcapture-ref\">");
    reveal_strlit("<item>");
    reveal_strlit("</item>");
    reveal_strlit("</data>");
}

pub(crate) fn tag(text: &str) -> (r: Vec<u8>)
    requires
        is_ascii_chars(text@),
    ensures
        r@ == plain(text@),
{
    let mut out: Vec<u8> = Vec::new();
    push_plain(&mut out, text);
    out
}

fn find_reference(rest: &[u8]) -> (r: Option<Result<Found, UnpackError>>)
    ensures
        match r {
            None => reference_in(rest@) is None,
            Some(Err(e)) => reference_in(rest@) == Some(Err::<Reference, ErrorView>(e@)),
            Some(Ok(f)) => {
                &&& reference_in(rest@) == Some(Ok::<Reference, ErrorView>(f.reference()))
                &&& f.start <= f.end <= rest@.len()
                &&& f.end > 0
            },
        },
{
    proof {
        tags();
    }
    let n: usize = rest.len();
    let at: usize = match find(rest, &tag("<data encoding=\"lpcapture-ref\">")) {
        Some(at) => at,
        None => {
            return None;
        },
    };
    proof {
        first_stands(rest@, opening(), 0);
    }
    let before = slice_subrange(rest, 0, at);
    assert(before@ == rest@.take(at as int));
    let start: usize = match rfind(before, &tag("<item>")) {
        Some(s) => s,
        None => {
            return Some(Err(UnpackError::NoItem));
        },
    };
    proof {
        last_stands(before@, item_opening(), before@.len() - 6);
    }
    let behind = slice_subrange(rest, at, n);
    assert(behind@ == rest@.skip(at as int));
    let close: usize = match find(behind, &tag("</item>")) {
        Some(c) => c,
        None => {
            return Some(Err(UnpackError::Unterminated));
        },
    };
    proof {
        first_stands(behind@, item_closing(), 0);
    }
    let body = slice_subrange(rest, at + 31, n);
    assert(body@ == rest@.skip(at + 31));
    let m: usize = match find(body, &tag("</data>")) {
        Some(m) => m,
        None => {
            return Some(Err(UnpackError::NoData));
        },
    };
    proof {
        first_stands(body@, data_closing(), 0);
    }
    let data = slice_subrange(body, 0, m);
    assert(data@ == body@.take(m as int));
    match read_digest(data) {
        Ok(digest) => Some(Ok(Found { start, end: at + close + 7, digest })),
        Err(e) => Some(Err(e)),
    }
}

/// Reverse [`pack`], with the pictures that are at hand.
pub fn unpack(packed: &[u8], art: &Vec<Art>) -> (r: Result<Vec<u8>, UnpackError>)
    ensures
        match r {
            Ok(v) => unpacked(packed@, arts_view(art@)) == Ok::<Seq<u8>, ErrorView>(v@),
            Err(e) => unpacked(packed@, arts_view(art@)) == Err::<Seq<u8>, ErrorView>(e@),
        },
{
    let ghost a = arts_view(art@);
    let mut out: Vec<u8> = Vec::new();
    let mut from: usize = 0;
    assert(packed@.skip(0) == packed@);
    assert(unpacked(packed@, a) == prepended(out@, unpacked(packed@.skip(0), a))) by {
        match unpacked(packed@, a) {
            Ok(t) => {
                assert(Seq::<u8>::empty() + t == t);
            },
            Err(_) => {},
        }
    }
    loop
        invariant
            from <= packed@.len(),
            a == arts_view(art@),
            unpacked(packed@, a) == prepended(out@, unpacked(packed@.skip(from as int), a)),
        decreases packed@.len() - from,
    {
        let rest = slice_subrange(packed, from, packed.len());
        assert(rest@ == packed@.skip(from as int));
        let found = match find_reference(rest) {
            None => {
                let ghost before = out@;
                out.extend_from_slice(rest);
                assert(out@ == before + rest@);
                return Ok(out);
            },
            Some(Err(e)) => {
                return Err(e);
            },
            Some(Ok(f)) => f,
        };
        let payload = match find_payload(art, found.digest.as_str()) {
            Some(p) => p,
            None => {
                return Err(UnpackError::Missing(found.digest));
            },
        };
        let actual = art_digest(payload);
        if !same(actual.as_str(), found.digest.as_str()) {
            return Err(UnpackError::Wrong { digest: found.digest, actual });
        }
        let ghost before = out@;
        let ghost r = rest@;
        let ghost enc = encoded(ItemView { kind: SSNC, code: PICT, payload: payload@ });
        let head_part = slice_subrange(rest, 0, found.start);
        assert(head_part@ == r.take(found.start as int));
        out.extend_from_slice(head_part);
        push_item(&mut out, SSNC, PICT, payload);
        let mut next: usize = found.end;
        if next < rest.len() && rest[next] == 10 {
            next = next + 1;
        }
        proof {
            assert(out@ == before + (r.take(found.start as int) + enc));
            assert(after(r, found.end as int) == packed@.skip(from + next));
            prepended_twice(
                before,
                r.take(found.start as int) + enc,
                unpacked(after(r, found.end as int), a),
            );
        }
        from = from + next;
    }
}

/// A capture with more in front of it.
pub open spec fn prepended(front: Seq<u8>, r: Result<Seq<u8>, ErrorView>) -> Result<
    Seq<u8>,
    ErrorView,
> {
    match r {
        Ok(t) => Ok(front + t),
        Err(e) => Err(e),
    }
}

proof fn prepended_twice(a: Seq<u8>, b: Seq<u8>, r: Result<Seq<u8>, ErrorView>)
    ensures
        prepended(a, prepended(b, r)) == prepended(a + b, r),
{
    match r {
        Ok(t) => {
            assert(a + (b + t) == a + b + t);
        },
        Err(_) => {},
    }
}

// --- paths ----------------------------------------------------------------

/// The path of what holds a path.
pub uninterp spec fn parent_path(path: Seq<char>) -> Option<Seq<char>>;

/// A path with its ending replaced.
pub uninterp spec fn path_with_ending(path: Seq<char>, ending: Seq<char>) -> Seq<char>;

/// Calls `std::path::Path::parent`, whose result is named by [`parent_path`].
#[verifier::external_body]
pub(crate) fn parent_of(path: &str) -> (r: Option<String>)
    ensures
        match r {
            Some(p) => parent_path(path@) == Some(p@),
            None => parent_path(path@) is None,
        },
{
    std::path::Path::new(path).parent().map(|p| p.to_string_lossy().into_owned())
}

/// Calls `std::path::Path::with_extension`, whose result is named by
/// [`path_with_ending`]. The ending must hold no separator.
#[verifier::external_body]
fn with_ending(path: &str, ending: &str) -> (r: String)
    requires
        !ending@.contains('/'),
    ensures
        r@ == path_with_ending(path@, ending@),
{
    std::path::Path::new(path).with_extension(ending).to_string_lossy().into_owned()
}

/// Where the pictures of a capture are: captures live side by side in one
/// directory, and the pictures in a sibling of it.
pub open spec fn art_dir(fixture: Seq<char>) -> Seq<char> {
    let base = match parent_path(fixture) {
        Some(p) => match parent_path(p) {
            Some(q) => q,
            None => "."@,
        },
        None => "."@,
    };
    joined(base, "art"@)
}

/// Where the pictures of a capture are.
pub fn default_art_dir(fixture: &str) -> (r: String)
    ensures
        r@ == art_dir(fixture@),
{
    let base = match parent_of(fixture) {
        Some(p) => match parent_of(p.as_str()) {
            Some(q) => q,
            None => ".".to_owned(),
        },
        None => ".".to_owned(),
    };
    join_path(base.as_str(), "art")
}

/// Where the pictures of a capture are, unless it is said.
pub fn art_dir_for(explicit: Option<&str>, fixture: &str) -> (r: String)
    ensures
        r@ == match explicit {
            Some(d) => d@,
            None => art_dir(fixture@),
        },
{
    match explicit {
        Some(d) => d.to_owned(),
        None => default_art_dir(fixture),
    }
}

/// Where the event log of a capture is.
pub fn golden_path(fixture: &str) -> (r: String)
    ensures
        r@ == path_with_ending(fixture@, "events.json"@),
{
    proof {
        reveal_strlit("events.json");
    }
    with_ending(fixture, "events.json")
}

/// Where the recorded pace of a capture is.
pub fn timing_path(fixture: &str) -> (r: String)
    ensures
        r@ == path_with_ending(fixture@, "timing"@),
{
    proof {
        reveal_strlit("timing");
    }
    with_ending(fixture, "timing")
}

/// Where a picture is.
pub fn art_path(dir: &str, digest: &str) -> (r: String)
    ensures
        r@ == joined(dir@, digest@ + ".bin"@),
{
    let name = concat(digest, ".bin");
    join_path(dir, name.as_str())
}

// --- event logs -----------------------------------------------------------

/// One line of an event log.
///
/// Deliberately a flattened string form rather than a structured one: the logs
/// are read by humans, and a difference should show "the album changed".
#[derive(Debug)]
pub struct GoldenEvent {
    pub event: String,
    pub detail: Option<String>,
}

/// The detail of a field of a track.
pub open spec fn field_text(f: CoreView) -> Seq<char> {
    match f {
        CoreView::Title(s) => "title="@ + s,
        CoreView::Artist(s) => "artist="@ + s,
        CoreView::Album(s) => "album="@ + s,
        CoreView::AlbumArtist(s) => "album_artist="@ + s,
        CoreView::Genre(s) => "genre="@ + s,
        CoreView::Composer(s) => "composer="@ + s,
        CoreView::Comment(s) => "comment="@ + s,
        CoreView::Description(s) => "description="@ + s,
        CoreView::SortName(s) => "sort_name="@ + s,
        CoreView::Url(s) => "url="@ + s,
        CoreView::DurationMs(v) => "duration_ms="@ + decimal(v as nat),
        CoreView::TrackNumber(v) => "track_number="@ + decimal(v as nat),
        CoreView::PersistentId(v) => "persistent_id="@ + padded_hex(v as nat, 16),
        CoreView::Other { code, raw } => code + " ("@ + decimal(raw.len()) + " bytes)"@,
    }
}

/// The detail of an event. `number` is how a volume reads, to one decimal.
pub open spec fn detail_text(e: MetaView, number: Seq<char>) -> Option<Seq<char>> {
    match e {
        MetaView::Picture(p) => Some(
            decimal(p.len()) + " bytes sha256:"@ + digest_text(p).take(16),
        ),
        MetaView::Progress { position_ms, duration_ms } => Some(
            decimal(position_ms as nat) + "ms/"@ + decimal(duration_ms as nat) + "ms"@,
        ),
        MetaView::Volume { .. } => Some(number + "dB"@),
        MetaView::ClientName(s)
        | MetaView::UserAgent(s)
        | MetaView::ServerName(s)
        | MetaView::ClientIp(s)
        | MetaView::ServerIp(s)
        | MetaView::ClientConnected(s)
        | MetaView::ClientDisconnected(s) => Some(s),
        MetaView::Unknown { kind, code, len } => Some(
            kind + "/"@ + code + " "@ + decimal(len as nat) + " bytes"@,
        ),
        MetaView::Core(f) => Some(field_text(f)),
        _ => None,
    }
}

fn write_field(f: &CoreField) -> (r: String)
    ensures
        r@ == field_text(f@),
{
    match f {
        CoreField::Title(s) => concat("title=", s.as_str()),
        CoreField::Artist(s) => concat("artist=", s.as_str()),
        CoreField::Album(s) => concat("album=", s.as_str()),
        CoreField::AlbumArtist(s) => concat("album_artist=", s.as_str()),
        CoreField::Genre(s) => concat("genre=", s.as_str()),
        CoreField::Composer(s) => concat("composer=", s.as_str()),
        CoreField::Comment(s) => concat("comment=", s.as_str()),
        CoreField::Description(s) => concat("description=", s.as_str()),
        CoreField::SortName(s) => concat("sort_name=", s.as_str()),
        CoreField::Url(s) => concat("url=", s.as_str()),
        CoreField::DurationMs(v) => concat("duration_ms=", to_decimal(*v as u64).as_str()),
        CoreField::TrackNumber(v) => concat("track_number=", to_decimal(*v as u64).as_str()),
        CoreField::PersistentId(v) => concat("persistent_id=", to_padded_hex(*v, 16).as_str()),
        CoreField::Other { code, raw } => {
            let mut out = concat(code.as_str(), " (");
            out.append(to_decimal(raw.len() as u64).as_str());
            out.append(" bytes)");
            out
        },
    }
}

impl GoldenEvent {
    /// The line for an event. `number` is how a volume reads, to one decimal.
    ///
    /// Artwork is summarised by size and digest: a log full of base64 is
    /// unreadable.
    pub fn from_event(ev: &MetaEvent, number: &str) -> (r: GoldenEvent)
        ensures
            r.event@ == ev@.name(),
            opt_text(r.detail) == detail_text(ev@, number@),
    {
        let detail: Option<String> = match ev {
            MetaEvent::Picture(p) => {
                let mut out = concat(to_decimal(p.len() as u64).as_str(), " bytes sha256:");
                out.append(short_digest(p, 16).as_str());
                Some(out)
            },
            MetaEvent::Progress { position_ms, duration_ms } => {
                let mut out = concat(to_decimal(*position_ms).as_str(), "ms/");
                out.append(to_decimal(*duration_ms).as_str());
                out.append("ms");
                Some(out)
            },
            MetaEvent::Volume { .. } => Some(concat(number, "dB")),
            MetaEvent::ClientName(s)
            | MetaEvent::UserAgent(s)
            | MetaEvent::ServerName(s)
            | MetaEvent::ClientIp(s)
            | MetaEvent::ServerIp(s)
            | MetaEvent::ClientConnected(s)
            | MetaEvent::ClientDisconnected(s) => Some(s.clone()),
            MetaEvent::Unknown { kind, code, len } => {
                let mut out = concat(kind.as_str(), "/");
                out.append(code.as_str());
                out.append(" ");
                out.append(to_decimal(*len as u64).as_str());
                out.append(" bytes");
                Some(out)
            },
            MetaEvent::Core(f) => Some(write_field(f)),
            _ => None,
        };
        GoldenEvent { event: ev.label().to_owned(), detail }
    }

}

/// The line for what came of decoding an item. `number` is how a volume reads,
/// to one decimal.
pub fn golden_from_result(result: &Result<MetaEvent, String>, number: &str) -> (r: GoldenEvent)
    ensures
        match result {
            Ok(ev) => {
                &&& r.event@ == ev@.name()
                &&& opt_text(r.detail) == detail_text(ev@, number@)
            },
            Err(e) => {
                &&& r.event@ == "parse_error"@
                &&& opt_text(r.detail) == Some(e@)
            },
        },
{
    match result {
        Ok(ev) => GoldenEvent::from_event(ev, number),
        Err(e) => GoldenEvent { event: "parse_error".to_owned(), detail: Some(e.clone()) },
    }
}

proof fn digest_is_hex(data: Seq<u8>)
    ensures
        is_ascii_chars(digest_text(data)),
{
    hex_is_plain(crate::digest::sha256(data));
}

proof fn hex_is_plain(b: Seq<u8>)
    ensures
        is_ascii_chars(hex(b)),
        forall|i: int| 0 <= i < hex(b).len() ==> hex_digit(#[trigger] hex(b)[i]),
    decreases b.len(),
{
    if b.len() > 0 {
        hex_is_plain(b.drop_last());
        let h = hex(b.drop_last());
        let n = h.len() as int;
        let t = hex(b);
        assert forall|i: int| 0 <= i < t.len() implies hex_digit(#[trigger] t[i]) && '\0' <= t[i]
            <= '\u{7f}' by {
            if i < n {
                assert(t[i] == h[i]);
            }
        }
    }
}

// --- what was packed is unpacked ------------------------------------------

proof fn numbers_are_calm(kind: u32, code: u32, len: nat, letter: u8)
    ensures
        calm(plain(padded_hex(kind as nat, 8)), letter),
        calm(plain(padded_hex(code as nat, 8)), letter),
        calm(plain(decimal(len)), letter),
{
    padded_hex_is_ascii(kind as nat, 8);
    padded_hex_is_ascii(code as nat, 8);
    decimal_is_ascii(len);
    is_calm(plain(padded_hex(kind as nat, 8)), letter, 0);
    is_calm(plain(padded_hex(code as nat, 8)), letter, 0);
    is_calm(plain(decimal(len)), letter, 0);
}

/// What stands behind the opening of an item in its head.
spec fn head_rest(kind: u32, code: u32, len: nat) -> Seq<u8> {
    plain("<type>"@) + plain(padded_hex(kind as nat, 8)) + plain("</type><code>"@) + plain(
        padded_hex(code as nat, 8),
    ) + plain("</code><length>"@) + plain(decimal(len)) + plain("</length>"@)
}

proof fn head_is_calm(kind: u32, code: u32, len: nat)
    ensures
        head(kind, code, len) == item_opening() + head_rest(kind, code, len),
        calm(head_rest(kind, code, len), 105),
        calm(head_rest(kind, code, len), 100),
        calm(head(kind, code, len), 100),
{
    reveal_strlit("<item>");
    reveal_strlit("<type>");
    reveal_strlit("<item><type>");
    assert(plain("<item><type>"@) == item_opening() + plain("<type>"@));
    assert(head(kind, code, len) == item_opening() + head_rest(kind, code, len));
    head_rest_is_calm(kind, code, len, 105);
    head_rest_is_calm(kind, code, len, 100);
    assert(calm(item_opening(), 100)) by {
        reveal_with_fuel(calm_from, 8);
    }
    calm_join(item_opening(), head_rest(kind, code, len), 100);
}

proof fn head_rest_is_calm(kind: u32, code: u32, len: nat, letter: u8)
    requires
        letter == 105 || letter == 100,
    ensures
        calm(head_rest(kind, code, len), letter),
{
    reveal_strlit("<type>");
    reveal_strlit("</type><code>");
    reveal_strlit("</code><length>");
    reveal_strlit("</length>");
    numbers_are_calm(kind, code, len, letter);
    let t1 = plain("<type>"@);
    let t2 = plain("</type><code>"@);
    let t3 = plain("</code><length>"@);
    let t4 = plain("</length>"@);
    let k = plain(padded_hex(kind as nat, 8));
    let c = plain(padded_hex(code as nat, 8));
    let n = plain(decimal(len));
    assert(calm(t1, letter)) by {
        reveal_with_fuel(calm_from, 8);
    }
    assert(calm(t2, letter)) by {
        reveal_with_fuel(calm_from, 15);
    }
    assert(calm(t3, letter)) by {
        reveal_with_fuel(calm_from, 17);
    }
    assert(calm(t4, letter)) by {
        reveal_with_fuel(calm_from, 11);
    }
    calm_join(t1, k, letter);
    calm_join(t1 + k, t2, letter);
    calm_join(t1 + k + t2, c, letter);
    calm_join(t1 + k + t2 + c, t3, letter);
    calm_join(t1 + k + t2 + c + t3, n, letter);
    calm_join(t1 + k + t2 + c + t3 + n, t4, letter);
}

proof fn no_reference_in_an_item(i: ItemView, rest: Seq<u8>, j: int)
    requires
        0 <= j < encoded(i).len(),
    ensures
        !stands(encoded(i) + rest, opening(), j),
{
    reveal_strlit("<data encoding=\"lpcapture-ref\">");
    reveal_strlit("</item>\n");
    assert(opening()[0] == 60 && opening()[1] == 100 && opening()[16] == 108);
    head_is_calm(i.kind, i.code, i.payload.len());
    let h = head(i.kind, i.code, i.payload.len());
    let t = plain("</item>\n"@);
    assert(calm(t, 100)) by {
        reveal_with_fuel(calm_from, 10);
    }
    if i.payload.len() == 0 {
        calm_join(h, t, 100);
        assert(encoded(i) == h + t);
        calm_excludes(encoded(i), rest, opening(), j);
    } else {
        reveal_strlit("\n<data encoding=\"base64\">\n");
        reveal_strlit("</data>");
        let o = plain("\n<data encoding=\"base64\">\n"@);
        let b = base64(i.payload);
        let d = plain("</data>"@);
        assert(calm(o.take(1), 100)) by {
            reveal_with_fuel(calm_from, 3);
        }
        assert(calm(o.skip(2), 100)) by {
            reveal_with_fuel(calm_from, 26);
        }
        assert(calm(d, 100)) by {
            reveal_with_fuel(calm_from, 9);
        }
        base64_has_no_brackets(i.payload);
        is_calm(b, 100, 0);
        let front = h + o.take(1);
        calm_join(h, o.take(1), 100);
        let back = o.skip(2) + b + d + t;
        calm_join(o.skip(2), b, 100);
        calm_join(o.skip(2) + b, d, 100);
        calm_join(o.skip(2) + b + d, t, 100);
        let s = encoded(i) + rest;
        if j < front.len() {
            assert(s == front + (o.skip(1) + b + d + t + rest));
            calm_excludes(front, o.skip(1) + b + d + t + rest, opening(), j);
        } else if j == front.len() {
            if stands(s, opening(), j) {
                assert(s.subrange(j, j + opening().len())[16] == s[j + 16]);
                assert(s[j + 16] == o[17]);
            }
        } else {
            let upto = front + o.subrange(1, 2);
            assert(s == upto + (back + rest));
            calm_excludes(back, rest, opening(), j - upto.len());
            stands_behind(upto, back + rest, opening(), j - upto.len());
        }
    }
}

/// Whether the first reference in bytes, if there is one, is in an item.
spec fn enclosed(rest: Seq<u8>) -> bool {
    match first(rest, opening()) {
        Some(at) => last(rest.take(at), item_opening()) is Some,
        None => true,
    }
}

proof fn items_pass_through(i: ItemView, rest: Seq<u8>, art: Seq<(Seq<char>, Seq<u8>)>)
    requires
        enclosed(rest),
    ensures
        unpacked(encoded(i) + rest, art) == prepended(encoded(i), unpacked(rest, art)),
        enclosed(encoded(i) + rest),
{
    tags();
    let e = encoded(i);
    let s = e + rest;
    let n = e.len() as int;
    let open = opening();
    let item = item_opening();
    finding_is_exact(rest, open);
    assert forall|j: int| 0 <= j < n implies !stands(s, open, j) by {
        no_reference_in_an_item(i, rest, j);
    }
    match first(rest, open) {
        None => {
            assert forall|j: int| 0 <= j implies !stands(s, open, j) by {
                if j >= n {
                    stands_behind(e, rest, open, j - n);
                }
            }
            first_is_nowhere(s, open, 0);
        },
        Some(at) => {
            assert forall|j: int| 0 <= j < n + at implies !stands(s, open, j) by {
                if j >= n {
                    stands_behind(e, rest, open, j - n);
                }
            }
            stands_behind(e, rest, open, at);
            first_is(s, open, 0, n + at);
            let before = rest.take(at);
            finding_is_exact(before, item);
            let st = last(before, item).unwrap();
            assert(s.take(n + at) == e + before);
            assert forall|j: int| n + st < j <= n + at - 6 implies !stands(e + before, item, j) by {
                stands_behind(e, before, item, j - n);
            }
            stands_behind(e, before, item, st);
            last_is(e + before, item, n + at - 6, n + st);
            assert(s.skip(n + at) == rest.skip(at));
            assert(s.skip(n + at + 31) == rest.skip(at + 31));
            first_stands(rest.skip(at), item_closing(), 0);
            match reference_in(rest) {
                Some(Ok(r)) => {
                    let shifted = Reference { start: n + r.start, end: n + r.end, digest: r.digest };
                    assert(reference_in(s) == Some(Ok::<Reference, ErrorView>(shifted)));
                    assert(s.take(n + r.start) == e + rest.take(r.start));
                    assert(after(s, n + r.end) == after(rest, r.end));
                    match payload_of(art, r.digest) {
                        Some(payload) => {
                            let enc = encoded(ItemView { kind: SSNC, code: PICT, payload });
                            prepended_twice(
                                e,
                                rest.take(r.start) + enc,
                                unpacked(after(rest, r.end), art),
                            );
                            assert(e + (rest.take(r.start) + enc) == s.take(n + r.start) + enc);
                        },
                        None => {},
                    }
                },
                _ => {},
            }
        },
    }
}

proof fn digests_read_back(digest: Seq<char>)
    requires
        looks_like_digest(digest),
    ensures
        digest_in(plain("\n"@) + plain(digest)) == Ok::<Seq<char>, ErrorView>(digest),
{
    reveal_strlit("\n");
    let t = "\n"@ + digest;
    assert(is_ascii_chars(t)) by {
        assert forall|k: int| 0 <= k < t.len() implies '\0' <= #[trigger] t[k] <= '\u{7f}' by {
            if k > 0 {
                assert(hex_digit(digest[k - 1]));
            }
        }
    }
    plain_is_utf8(t);
    assert(plain("\n"@) + plain(digest) == plain(t));
    encode_utf8_valid_utf8(t);
    encode_utf8_decode_utf8(t);
    assert(t.drop_first() == digest);
    assert(hex_digit(digest[0]));
    assert(hex_digit(digest.last()));
    assert(trimmed_start(t) == digest) by {
        reveal_with_fuel(trimmed_start, 2);
    }
    assert(trimmed_end(digest) == digest);
}

/// A reference in parts: what is in front of the data, and what is behind its
/// opening.
spec fn reference_front(i: ItemView) -> Seq<u8> {
    head(i.kind, i.code, i.payload.len()) + plain("\n"@)
}

spec fn reference_body(i: ItemView, rest: Seq<u8>) -> Seq<u8> {
    (plain("\n"@) + plain(digest_text(i.payload))) + (data_closing() + (plain("</item>\n"@) + rest))
}

proof fn reference_parts(i: ItemView, rest: Seq<u8>)
    ensures
        reference(i) + rest == reference_front(i) + (opening() + reference_body(i, rest)),
        reference(i).len() == reference_front(i).len() + 31 + 1 + digest_text(i.payload).len() + 7
            + 8,
{
    tags();
    reveal_strlit("\n");
    reveal_strlit("</item>\n");
    assert(reference(i) + rest == reference_front(i) + (opening() + reference_body(i, rest)));
}

proof fn reference_opens(i: ItemView, behind: Seq<u8>)
    ensures
        first(reference_front(i) + (opening() + behind), opening()) == Some(
            reference_front(i).len() as int,
        ),
        last(reference_front(i), item_opening()) == Some(0int),
{
    tags();
    reveal_strlit("\n");
    reveal_strlit("<data encoding=\"lpcapture-ref\">");
    reveal_strlit("<item>");
    let h = head(i.kind, i.code, i.payload.len());
    let hr = head_rest(i.kind, i.code, i.payload.len());
    let nl = plain("\n"@);
    let open = opening();
    let front = reference_front(i);
    let at: int = front.len() as int;
    let s = front + (open + behind);
    head_is_calm(i.kind, i.code, i.payload.len());
    assert(calm(nl, 100) && calm(nl, 105)) by {
        reveal_with_fuel(calm_from, 3);
    }
    calm_join(h, nl, 100);
    assert((open + behind).subrange(0, 31) == open);
    stands_behind(front, open + behind, open, 0);
    assert forall|j: int| 0 <= j < at implies !stands(s, open, j) by {
        calm_excludes(front, open + behind, open, j);
    }
    first_is(s, open, 0, at);
    let item = item_opening();
    let hrn = hr + nl;
    calm_join(hr, nl, 105);
    assert(front == item + hrn);
    assert(front.subrange(0, 6) == item);
    assert forall|j: int| 0 < j <= at - 6 implies !stands(front, item, j) by {
        if j < 6 {
            if stands(front, item, j) {
                assert(front.subrange(j, j + 6)[0] == front[j]);
                assert(front[j] == item[j]);
                assert(j == 1 || j == 2 || j == 3 || j == 4 || j == 5);
            }
        } else {
            calm_excludes(hrn, Seq::<u8>::empty(), item, j - 6);
            assert(hrn + Seq::<u8>::empty() == hrn);
            stands_behind(item, hrn, item, j - 6);
        }
    }
    last_is(front, item, at - 6, 0);
}

proof fn text_is_calm(digest: Seq<char>)
    requires
        looks_like_digest(digest),
    ensures
        calm(plain("\n"@) + plain(digest), 47),
        (plain("\n"@) + plain(digest)).len() == 65,
{
    reveal_strlit("\n");
    let text = plain("\n"@) + plain(digest);
    assert forall|k: int| 0 <= k < text.len() implies #[trigger] text[k] != 60 by {
        if k > 0 {
            assert(hex_digit(digest[k - 1]));
        }
    }
    is_calm(text, 47, 0);
}

proof fn data_closes(text: Seq<u8>, behind: Seq<u8>)
    requires
        calm(text, 47),
    ensures
        first(text + (data_closing() + behind), data_closing()) == Some(text.len() as int),
{
    tags();
    reveal_strlit("</data>");
    let close = data_closing();
    let body = text + (close + behind);
    let m: int = text.len() as int;
    assert(body.subrange(m, m + 7) == close);
    assert forall|j: int| 0 <= j < m implies !stands(body, close, j) by {
        calm_excludes(text, close + behind, close, j);
    }
    first_is(body, close, 0, m);
}

proof fn item_closes(text: Seq<u8>, rest: Seq<u8>)
    requires
        calm(text, 47),
    ensures
        first(
            opening() + (text + (data_closing() + (plain("</item>\n"@) + rest))),
            item_closing(),
        ) == Some((31 + text.len() + 7) as int),
{
    tags();
    reveal_strlit("<data encoding=\"lpcapture-ref\">");
    reveal_strlit("</item>");
    reveal_strlit("</data>");
    reveal_strlit("</item>\n");
    let close = data_closing();
    let t = plain("</item>\n"@);
    let inner = opening() + text;
    let behind = opening() + (text + (close + (t + rest)));
    assert(behind == inner + (close + (t + rest)));
    assert(calm(opening(), 47)) by {
        reveal_with_fuel(calm_from, 33);
    }
    calm_join(opening(), text, 47);
    let n: int = inner.len() as int;
    let p: int = n + 7;
    assert(behind.subrange(p, p + 7) == item_closing());
    assert forall|j: int| 0 <= j < p implies !stands(behind, item_closing(), j) by {
        if j < n {
            calm_excludes(inner, close + (t + rest), item_closing(), j);
        } else if stands(behind, item_closing(), j) {
            let k = j - n;
            let w = behind.subrange(j, j + 7);
            assert(w[0] == behind[j]);
            assert(w[2] == behind[j + 2]);
            assert(behind[j] == close[k]);
            assert(k == 0 || k == 1 || k == 2 || k == 3 || k == 4 || k == 5 || k == 6);
            if k == 0 {
                assert(behind[j + 2] == close[2]);
            }
        }
    }
    first_is(behind, item_closing(), 0, p);
}

proof fn references_are_read(i: ItemView, rest: Seq<u8>)
    requires
        is_art(i),
        looks_like_digest(digest_text(i.payload)),
    ensures
        reference_in(reference(i) + rest) == Some(
            Ok::<Reference, ErrorView>(
                Reference { start: 0, end: reference(i).len() - 1, digest: digest_text(i.payload) },
            ),
        ),
        after(reference(i) + rest, reference(i).len() - 1) == rest,
        enclosed(reference(i) + rest),
{
    tags();
    let s = reference(i) + rest;
    let front = reference_front(i);
    let at: int = front.len() as int;
    let body = reference_body(i, rest);
    let digest = digest_text(i.payload);
    let text = plain("\n"@) + plain(digest);
    let t = plain("</item>\n"@);
    reference_parts(i, rest);
    reference_opens(i, body);
    text_is_calm(digest);
    data_closes(text, t + rest);
    item_closes(text, rest);
    digests_read_back(digest);
    assert(s.take(at) == front);
    assert(s.skip(at) == opening() + body);
    assert(s.skip(at + 31) == body);
    assert(body.take(65) == text);
    assert(s[reference(i).len() - 1] == 10) by {
        reveal_strlit("</item>\n");
        assert(reference(i).last() == t.last());
    }
    assert(s.skip(reference(i).len() as int) == rest);
}

proof fn pictures_come_back(i: ItemView, rest: Seq<u8>, art: Seq<(Seq<char>, Seq<u8>)>)
    requires
        is_art(i),
        digest_text(i.payload).len() == 64,
        payload_of(art, digest_text(i.payload)) == Some(i.payload),
    ensures
        unpacked(reference(i) + rest, art) == prepended(encoded(i), unpacked(rest, art)),
        enclosed(reference(i) + rest),
{
    hex_is_plain(crate::digest::sha256(i.payload));
    references_are_read(i, rest);
    let s = reference(i) + rest;
    assert(i == ItemView { kind: SSNC, code: PICT, payload: i.payload });
    assert(s.take(0) + encoded(i) == encoded(i));
    reference_parts(i, rest);
}

#[verifier::spinoff_prover]
#[verifier::rlimit(30)]
pub proof fn packed_all_front(s: Seq<ItemView>)
    requires
        s.len() > 0,
    ensures
        packed_all(s) == packed_one(s[0]) + packed_all(s.drop_first()),
        encoded_all(s) == encoded(s[0]) + encoded_all(s.drop_first()),
    decreases s.len(),
{
    let f = s.drop_first();
    if s.len() == 1 {
        assert(s.drop_last() == Seq::<ItemView>::empty());
        assert(f == Seq::<ItemView>::empty());
    } else {
        let h = f.drop_last();
        packed_all_front(s.drop_last());
        assert(s.drop_last().drop_first() == h);
        assert(f.last() == s.last());
        regroup(packed_one(s[0]), packed_all(h), packed_one(s.last()));
        regroup(encoded(s[0]), encoded_all(h), encoded(s.last()));
    }
}

/// Whether each picture among some items can be found again by its digest.
pub open spec fn all_at_hand(items: Seq<ItemView>, art: Seq<(Seq<char>, Seq<u8>)>) -> bool {
    forall|k: int|
        0 <= k < items.len() && is_art(#[trigger] items[k]) ==> {
            &&& digest_text(items[k].payload).len() == 64
            &&& payload_of(art, digest_text(items[k].payload)) == Some(items[k].payload)
        }
}

proof fn regroup(a: Seq<u8>, b: Seq<u8>, c: Seq<u8>)
    ensures
        (a + b) + c == a + (b + c),
{
    assert((a + b) + c == a + (b + c));
}

proof fn one_more_item(
    i: ItemView,
    rest: Seq<u8>,
    result: Seq<u8>,
    art: Seq<(Seq<char>, Seq<u8>)>,
)
    requires
        enclosed(rest),
        unpacked(rest, art) == Ok::<Seq<u8>, ErrorView>(result),
        is_art(i) ==> digest_text(i.payload).len() == 64 && payload_of(
            art,
            digest_text(i.payload),
        ) == Some(i.payload),
    ensures
        unpacked(packed_one(i) + rest, art) == Ok::<Seq<u8>, ErrorView>(encoded(i) + result),
        enclosed(packed_one(i) + rest),
{
    if is_art(i) {
        pictures_come_back(i, rest, art);
    } else {
        items_pass_through(i, rest, art);
    }
}

proof fn unpacking_reverses(
    items: Seq<ItemView>,
    tail: Seq<u8>,
    art: Seq<(Seq<char>, Seq<u8>)>,
)
    requires
        all_at_hand(items, art),
        first(tail, opening()) is None,
    ensures
        unpacked(packed_all(items) + tail, art) == Ok::<Seq<u8>, ErrorView>(
            encoded_all(items) + tail,
        ),
        enclosed(packed_all(items) + tail),
    decreases items.len(),
{
    if items.len() == 0 {
        assert(packed_all(items) + tail == tail);
        assert(encoded_all(items) + tail == tail);
    } else {
        let i = items[0];
        let f = items.drop_first();
        assert(all_at_hand(f, art)) by {
            assert forall|k: int| 0 <= k < f.len() && is_art(#[trigger] f[k]) implies digest_text(
                f[k].payload,
            ).len() == 64 && payload_of(art, digest_text(f[k].payload)) == Some(f[k].payload) by {
                assert(f[k] == items[k + 1]);
            }
        }
        unpacking_reverses(f, tail, art);
        one_more_item(i, packed_all(f) + tail, encoded_all(f) + tail, art);
        packed_all_front(items);
        regroup(packed_one(i), packed_all(f), tail);
        regroup(encoded(i), encoded_all(f), tail);
    }
}

proof fn found_again(items: Seq<ItemView>, k: int)
    requires
        0 <= k < items.len(),
        is_art(items[k]),
        forall|a: int, b: int|
            0 <= a < items.len() && 0 <= b < items.len() && is_art(#[trigger] items[a]) && is_art(
                #[trigger] items[b],
            ) && digest_text(items[a].payload) == digest_text(items[b].payload) ==> items[a].payload
                == items[b].payload,
    ensures
        payload_of(arts(items), digest_text(items[k].payload)) == Some(items[k].payload),
    decreases items.len(),
{
    let digest = digest_text(items[k].payload);
    let d = items.drop_last();
    if k < d.len() {
        assert forall|a: int, b: int|
            0 <= a < d.len() && 0 <= b < d.len() && is_art(#[trigger] d[a]) && is_art(
                #[trigger] d[b],
            ) && digest_text(d[a].payload) == digest_text(d[b].payload) implies d[a].payload
            == d[b].payload by {
            assert(d[a] == items[a]);
            assert(d[b] == items[b]);
        }
        assert(d[k] == items[k]);
        found_again(d, k);
        if is_art(items.last()) {
            payload_of_longer(arts(d), (digest_text(items.last().payload), items.last().payload), digest);
        }
    } else {
        payload_of_pictures(items, d, digest);
        payload_of_longer(arts(d), (digest, items[k].payload), digest);
    }
}

proof fn payload_of_longer(
    art: Seq<(Seq<char>, Seq<u8>)>,
    x: (Seq<char>, Seq<u8>),
    digest: Seq<char>,
)
    ensures
        payload_of(art.push(x), digest) == (match payload_of(art, digest) {
            Some(p) => Some(p),
            None => if x.0 == digest {
                Some(x.1)
            } else {
                None
            },
        }),
    decreases art.len(),
{
    let l = art.push(x);
    if art.len() == 0 {
        assert(l.drop_first() == Seq::<(Seq<char>, Seq<u8>)>::empty());
    } else {
        assert(l.drop_first() == art.drop_first().push(x));
        payload_of_longer(art.drop_first(), x, digest);
    }
}

/// What is found among the first pictures is the payload of one of them.
proof fn payload_of_pictures(items: Seq<ItemView>, d: Seq<ItemView>, digest: Seq<char>)
    requires
        d.len() <= items.len(),
        d == items.take(d.len() as int),
    ensures
        payload_of(arts(d), digest) matches Some(p) ==> exists|a: int|
            0 <= a < d.len() && is_art(#[trigger] items[a]) && digest_text(items[a].payload)
                == digest && items[a].payload == p,
    decreases d.len(),
{
    if d.len() > 0 {
        let e = d.drop_last();
        assert(e == items.take(e.len() as int));
        payload_of_pictures(items, e, digest);
        if is_art(d.last()) {
            payload_of_longer(arts(e), (digest_text(d.last().payload), d.last().payload), digest);
            assert(is_art(items[d.len() - 1]));
        }
    }
}

/// Whether each picture among some items can be told from the others by its
/// digest, of 64 characters.
pub open spec fn distinct_digests(items: Seq<ItemView>) -> bool {
    &&& forall|a: int, b: int|
        0 <= a < items.len() && 0 <= b < items.len() && is_art(#[trigger] items[a]) && is_art(
            #[trigger] items[b],
        ) && digest_text(items[a].payload) == digest_text(items[b].payload) ==> items[a].payload
            == items[b].payload
    &&& forall|a: int|
        0 <= a < items.len() && is_art(#[trigger] items[a]) ==> digest_text(
            items[a].payload,
        ).len() == 64
}

/// Unpacking reverses packing exactly: with the pictures that were taken out,
/// every item comes back, and so does what follows the last one.
///
/// This asks that no two pictures share a digest, and that what follows the
/// last item does not itself hold a reference.
pub proof fn packing_loses_nothing(items: Seq<ItemView>, tail: Seq<u8>)
    requires
        distinct_digests(items),
        first(tail, opening()) is None,
    ensures
        unpacked(packed_all(items) + tail, arts(items)) == Ok::<Seq<u8>, ErrorView>(
            encoded_all(items) + tail,
        ),
{
    assert forall|k: int| 0 <= k < items.len() && is_art(#[trigger] items[k]) implies digest_text(
        items[k].payload,
    ).len() == 64 && payload_of(arts(items), digest_text(items[k].payload)) == Some(
        items[k].payload,
    ) by {
        found_again(items, k);
    }
    unpacking_reverses(items, tail, arts(items));
}

/// Packing a capture and unpacking it gives the capture back, reframed.
///
/// This asks that its pictures have distinct digests, and that it does not end
/// in the middle of a reference.
pub proof fn unpacking_gives_the_capture_back(input: Seq<u8>)
    requires
        damage(all_in(input).0) is None,
        distinct_digests(items_of(input)),
        first(tail_of(input), opening()) is None,
    ensures
        unpacked(packed(input), arts(items_of(input))) == Ok::<Seq<u8>, ErrorView>(
            canonical(input),
        ),
{
    packing_loses_nothing(items_of(input), tail_of(input));
}

/// The digests that a packed capture refers to, in order.
pub open spec fn called_for(rest: Seq<u8>) -> Seq<Seq<char>>
    decreases rest.len(),
{
    match reference_in(rest) {
        Some(Ok(r)) => if r.end <= 0 || r.end > rest.len() {
            seq![r.digest]
        } else {
            seq![r.digest] + called_for(after(rest, r.end))
        },
        _ => Seq::empty(),
    }
}

/// Unpacking makes nothing up. Bytes without a reference pass through as they
/// are. Where a packed capture unpacks, every picture that it refers to is at
/// hand and has the digest it is filed under; so one that is missing, or is
/// another picture, is an error and never other bytes.
pub proof fn unpacking_makes_nothing_up(rest: Seq<u8>, art: Seq<(Seq<char>, Seq<u8>)>)
    ensures
        first(rest, opening()) is None ==> unpacked(rest, art) == Ok::<Seq<u8>, ErrorView>(rest),
        unpacked(rest, art) is Ok ==> forall|d: Seq<char>| #[trigger]
            called_for(rest).contains(d) ==> (payload_of(art, d) matches Some(p) && digest_text(p)
                == d),
    decreases rest.len(),
{
    if unpacked(rest, art) is Ok && reference_in(rest) is Some {
        let r = reference_in(rest)->0->Ok_0;
        let behind = after(rest, r.end);
        let whole = called_for(rest);
        if 0 < r.end <= rest.len() {
            unpacking_makes_nothing_up(behind, art);
        }
        assert forall|d: Seq<char>| #[trigger] whole.contains(d) implies (payload_of(
            art,
            d,
        ) matches Some(p) && digest_text(p) == d) by {
            let k = choose|k: int| 0 <= k < whole.len() && whole[k] == d;
            if k > 0 {
                assert(called_for(behind)[k - 1] == d);
                assert(called_for(behind).contains(d));
            } else {
                assert(d == r.digest);
            }
        }
    }
}

} // verus!
