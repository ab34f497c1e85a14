//! Text as sequences of characters: trimming, searching, numbers, and the few
//! pieces of the standard library that the rest of the crate builds on.

use vstd::prelude::*;

verus! {

broadcast use vstd::seq::group_seq_axioms;

// --- the standard library -------------------------------------------------

/// `String::push` appends exactly one character.
pub assume_specification[ String::push ](s: &mut String, c: char)
    ensures
        final(s)@ == old(s)@.push(c),
;

/// Whether a text holds ASCII characters only.
pub open spec fn all_ascii(s: Seq<char>) -> bool {
    forall|i: int| 0 <= i < s.len() ==> #[trigger] s[i] <= '\u{7f}'
}

/// What `str::to_lowercase` makes of a text that is not all ASCII: Unicode
/// lower-casing, which maps some characters to more than one.
pub uninterp spec fn unicode_lowercase(s: Seq<char>) -> Seq<char>;

/// A text in lower case.
pub open spec fn lowercase(s: Seq<char>) -> Seq<char> {
    if all_ascii(s) {
        ascii_lower(s)
    } else {
        unicode_lowercase(s)
    }
}

/// Calls `str::to_lowercase`. Of a text that is all ASCII it makes the letters
/// small; of any other the result is a function of the text alone, and is
/// named by [`unicode_lowercase`].
#[verifier::external_body]
pub(crate) fn to_lowercase(s: &str) -> (r: String)
    ensures
        all_ascii(s@) ==> r@ == ascii_lower(s@),
        !all_ascii(s@) ==> r@ == unicode_lowercase(s@),
{
    s.to_lowercase()
}

/// What `{:?}` prints for a text: the text in double quotes, with the
/// characters escaped that `char::escape_debug` escapes.
pub uninterp spec fn debug_quoted(s: Seq<char>) -> Seq<char>;

/// Calls the `Debug` formatting of `str`, whose result is named by
/// [`debug_quoted`].
#[verifier::external_body]
pub(crate) fn quote(s: &str) -> (r: String)
    ensures
        r@ == debug_quoted(s@),
{
    format!("{s:?}")
}

// --- characters and strings -----------------------------------------------

/// The characters of a text.
pub fn to_chars(s: &str) -> (r: Vec<char>)
    ensures
        r@ == s@,
{
    let mut out: Vec<char> = Vec::new();
    for c in it: s.chars()
        invariant
            it.seq() == s@,
            out@ == s@.take(it.index()),
    {
        out.push(c);
        assert(s@.take(it.index() + 1) == s@.take(it.index()).push(s@[it.index()]));
    }
    out
}

/// The text made of these characters.
pub fn from_chars(v: &[char]) -> (r: String)
    ensures
        r@ == v@,
{
    let mut out = String::new();
    push_chars(&mut out, v);
    out
}

/// Append characters to a text.
pub fn push_chars(out: &mut String, v: &[char])
    ensures
        final(out)@ == old(out)@ + v@,
{
    let mut i: usize = 0;
    while i < v.len()
        invariant
            i <= v.len(),
            out@ == old(out)@ + v@.take(i as int),
        decreases v.len() - i,
    {
        out.push(v[i]);
        i = i + 1;
        assert(v@.take(i as int) == v@.take(i - 1).push(v@[i - 1]));
    }
    assert(v@.take(v.len() as int) == v@);
}

/// Whether two texts hold the same characters.
pub fn same(a: &str, b: &str) -> (r: bool)
    ensures
        r == (a@ == b@),
{
    let x: String = a.to_owned();
    let y: String = b.to_owned();
    x == y
}

/// The text behind an optional string.
pub open spec fn opt_text(o: Option<String>) -> Option<Seq<char>> {
    match o {
        Some(s) => Some(s@),
        None => None,
    }
}

/// Whether two optional strings hold the same text, or neither holds one.
pub fn same_opt(a: &Option<String>, b: &Option<String>) -> (r: bool)
    ensures
        r == (opt_text(*a) == opt_text(*b)),
{
    match (a, b) {
        (Some(x), Some(y)) => *x == *y,
        (None, None) => true,
        _ => false,
    }
}

/// Two or three texts, one after the other.
pub fn concat(a: &str, b: &str) -> (r: String)
    ensures
        r@ == a@ + b@,
{
    let mut out: String = a.to_owned();
    out.append(b);
    out
}

/// The texts behind a list of strings.
pub open spec fn texts(v: Seq<String>) -> Seq<Seq<char>> {
    v.map_values(|s: String| s@)
}

/// Whether a list of strings holds a text.
pub fn list_contains(v: &Vec<String>, s: &str) -> (r: bool)
    ensures
        r == texts(v@).contains(s@),
{
    let mut i: usize = 0;
    while i < v.len()
        invariant
            i <= v.len(),
            forall|j: int| 0 <= j < i ==> (#[trigger] v@[j])@ != s@,
        decreases v.len() - i,
    {
        if same(v[i].as_str(), s) {
            assert(texts(v@)[i as int] == s@);
            return true;
        }
        i = i + 1;
    }
    assert(forall|j: int| 0 <= j < v.len() ==> texts(v@)[j] == (v@[j])@);
    false
}

// --- whitespace -----------------------------------------------------------

/// The characters with Unicode's `White_Space` property.
pub open spec fn is_white(c: char) -> bool {
    ||| '\u{9}' <= c <= '\u{d}'
    ||| c == ' '
    ||| c == '\u{85}'
    ||| c == '\u{a0}'
    ||| c == '\u{1680}'
    ||| '\u{2000}' <= c <= '\u{200a}'
    ||| c == '\u{2028}'
    ||| c == '\u{2029}'
    ||| c == '\u{202f}'
    ||| c == '\u{205f}'
    ||| c == '\u{3000}'
}

/// Whether a character is white space.
pub fn white(c: char) -> (r: bool)
    ensures
        r == is_white(c),
{
    ('\u{9}' <= c && c <= '\u{d}') || c == ' ' || c == '\u{85}' || c == '\u{a0}'
        || c == '\u{1680}' || ('\u{2000}' <= c && c <= '\u{200a}') || c == '\u{2028}'
        || c == '\u{2029}' || c == '\u{202f}' || c == '\u{205f}' || c == '\u{3000}'
}

/// A text without its leading white space.
pub open spec fn trimmed_start(s: Seq<char>) -> Seq<char>
    decreases s.len(),
{
    if s.len() > 0 && is_white(s[0]) {
        trimmed_start(s.drop_first())
    } else {
        s
    }
}

/// A text without its trailing white space.
pub open spec fn trimmed_end(s: Seq<char>) -> Seq<char>
    decreases s.len(),
{
    if s.len() > 0 && is_white(s.last()) {
        trimmed_end(s.drop_last())
    } else {
        s
    }
}

/// A text without the white space around it.
pub open spec fn trimmed(s: Seq<char>) -> Seq<char> {
    trimmed_end(trimmed_start(s))
}

/// Strip white space from both ends.
pub fn trim_chars(s: &[char]) -> (r: Vec<char>)
    ensures
        r@ == trimmed(s@),
{
    let n: usize = s.len();
    let mut a: usize = 0;
    assert(s@.skip(0) == s@);
    while a < n && white(s[a])
        invariant
            a <= n,
            n == s.len(),
            trimmed_start(s@.skip(a as int)) == trimmed_start(s@),
        decreases n - a,
    {
        assert(s@.skip(a as int).drop_first() == s@.skip(a + 1));
        a = a + 1;
    }
    assert(trimmed_start(s@) == s@.skip(a as int));
    let mut b: usize = n;
    assert(s@.subrange(a as int, n as int) == s@.skip(a as int));
    while a < b && white(s[b - 1])
        invariant
            a <= b <= n,
            n == s.len(),
            trimmed_end(s@.subrange(a as int, b as int)) == trimmed(s@),
        decreases b,
    {
        assert(s@.subrange(a as int, b as int).drop_last() == s@.subrange(a as int, b - 1));
        b = b - 1;
    }
    assert(trimmed_end(s@.subrange(a as int, b as int)) == s@.subrange(a as int, b as int));
    slice_chars(s, a, b)
}

/// The characters from `a` up to `b`.
pub fn slice_chars(s: &[char], a: usize, b: usize) -> (r: Vec<char>)
    requires
        a <= b <= s.len(),
    ensures
        r@ == s@.subrange(a as int, b as int),
{
    let mut out: Vec<char> = Vec::new();
    let mut i: usize = a;
    while i < b
        invariant
            a <= i <= b <= s.len(),
            out@ == s@.subrange(a as int, i as int),
        decreases b - i,
    {
        out.push(s[i]);
        i = i + 1;
        assert(s@.subrange(a as int, i as int) == s@.subrange(a as int, i - 1).push(s@[i - 1]));
    }
    out
}

/// A text without the white space around it.
pub fn trim(s: &str) -> (r: String)
    ensures
        r@ == trimmed(s@),
{
    let c = to_chars(s);
    let t = trim_chars(&c);
    from_chars(&t)
}

// --- ASCII ----------------------------------------------------------------

/// `A` to `Z` as `a` to `z`, everything else as it is.
pub open spec fn ascii_lower_char(c: char) -> char {
    if 'A' <= c <= 'Z' {
        ((c as int + 32) as u8) as char
    } else {
        c
    }
}

/// A text with its ASCII letters in lower case.
pub open spec fn ascii_lower(s: Seq<char>) -> Seq<char> {
    s.map_values(|c: char| ascii_lower_char(c))
}

/// Lower-case the ASCII letters of a text.
pub fn ascii_lowercase(s: &[char]) -> (r: Vec<char>)
    ensures
        r@ == ascii_lower(s@),
{
    let mut out: Vec<char> = Vec::new();
    let mut i: usize = 0;
    while i < s.len()
        invariant
            i <= s.len(),
            out@ == ascii_lower(s@.take(i as int)),
        decreases s.len() - i,
    {
        let c = s[i];
        if 'A' <= c && c <= 'Z' {
            let b: u8 = c as u8;
            out.push((b + 32) as char);
        } else {
            out.push(c);
        }
        i = i + 1;
        assert(s@.take(i as int) == s@.take(i - 1).push(s@[i - 1]));
        assert(ascii_lower(s@.take(i as int)) == out@);
    }
    assert(s@.take(s.len() as int) == s@);
    out
}

/// Whether a character is `0` to `9`.
pub open spec fn is_digit(c: char) -> bool {
    '0' <= c <= '9'
}

// --- numbers --------------------------------------------------------------

/// The character of a decimal digit.
pub open spec fn digit(d: nat) -> char {
    ((48 + d) as u8) as char
}

/// A number written in decimal.
pub open spec fn decimal(n: nat) -> Seq<char>
    decreases n,
{
    if n < 10 {
        seq![digit(n)]
    } else {
        decimal(n / 10).push(digit(n % 10))
    }
}

fn digit_char(d: u8) -> (c: char)
    requires
        d < 10,
    ensures
        c == digit(d as nat),
{
    (48 + d) as char
}

/// Write a number in decimal.
pub fn to_decimal(n: u64) -> (r: String)
    ensures
        r@ == decimal(n as nat),
    decreases n,
{
    if n < 10 {
        let mut out = String::new();
        out.push(digit_char(n as u8));
        assert(out@ == seq![digit(n as nat)]);
        out
    } else {
        let mut out = to_decimal(n / 10);
        out.push(digit_char((n % 10) as u8));
        out
    }
}

/// The number that a run of decimal digits stands for.
pub open spec fn decimal_value(s: Seq<char>) -> nat
    decreases s.len(),
{
    if s.len() == 0 {
        0
    } else {
        decimal_value(s.drop_last()) * 10 + (s.last() as nat - 48) as nat
    }
}

/// Whether every character is a decimal digit.
pub open spec fn all_digits(s: Seq<char>) -> bool {
    forall|i: int| 0 <= i < s.len() ==> is_digit(#[trigger] s[i])
}

/// Reading a number back gives the number that was written, in digits only.
pub proof fn decimal_round_trip(n: nat)
    ensures
        decimal_value(decimal(n)) == n,
        all_digits(decimal(n)),
        decimal(n).len() > 0,
    decreases n,
{
    if n < 10 {
        let s = seq![digit(n)];
        assert(s.drop_last() == Seq::<char>::empty());
        assert(decimal_value(s.drop_last()) == 0);
    } else {
        decimal_round_trip(n / 10);
        let p = decimal(n / 10);
        assert(p.push(digit(n % 10)).drop_last() == p);
    }
}

/// More digits never stand for a smaller number.
proof fn decimal_value_grows(s: Seq<char>, k: int)
    requires
        0 <= k <= s.len(),
        all_digits(s),
    ensures
        decimal_value(s.take(k)) <= decimal_value(s),
    decreases s.len() - k,
{
    if k < s.len() {
        decimal_value_grows(s, k + 1);
        assert(s.take(k + 1).drop_last() == s.take(k));
    } else {
        assert(s.take(k) == s);
    }
}

/// Read a run of decimal digits. `None` when there is none, when something
/// else is among them, or when the number does not fit.
pub fn parse_digits(s: &[char]) -> (r: Option<u64>)
    ensures
        r == (if s@.len() > 0 && all_digits(s@) && decimal_value(s@) <= u64::MAX {
            Some(decimal_value(s@) as u64)
        } else {
            None::<u64>
        }),
{
    if s.len() == 0 {
        return None;
    }
    let mut acc: u64 = 0;
    let mut i: usize = 0;
    let mut fits: bool = true;
    while i < s.len()
        invariant
            i <= s.len(),
            all_digits(s@.take(i as int)),
            fits ==> acc == decimal_value(s@.take(i as int)),
            !fits ==> decimal_value(s@.take(i as int)) > u64::MAX,
        decreases s.len() - i,
    {
        let c = s[i];
        assert(s@.take(i + 1).drop_last() == s@.take(i as int));
        if c < '0' || '9' < c {
            assert(!is_digit(s@[i as int]));
            return None;
        }
        if fits {
            let d: u64 = (c as u8 - 48) as u64;
            if acc > (u64::MAX - d) / 10 {
                fits = false;
            } else {
                acc = acc * 10 + d;
            }
        }
        i = i + 1;
        assert forall|j: int| 0 <= j < i implies is_digit(#[trigger] s@.take(i as int)[j]) by {
            if j < i - 1 {
                assert(is_digit(s@.take(i - 1)[j]));
            }
        }
    }
    assert(s@.take(s.len() as int) == s@);
    if fits {
        Some(acc)
    } else {
        None
    }
}

// --- hexadecimal ----------------------------------------------------------

/// The lower-case hexadecimal digit of a value below sixteen.
pub open spec fn nibble(d: int) -> char {
    if d < 10 {
        ((48 + d) as u8) as char
    } else {
        ((87 + d) as u8) as char
    }
}

/// Bytes in lower-case hexadecimal, two digits each.
pub open spec fn hex(b: Seq<u8>) -> Seq<char>
    decreases b.len(),
{
    if b.len() == 0 {
        Seq::empty()
    } else {
        hex(b.drop_last()).push(nibble(b.last() as int / 16)).push(nibble(b.last() as int % 16))
    }
}

fn nibble_char(d: u8) -> (c: char)
    requires
        d < 16,
    ensures
        c == nibble(d as int),
{
    if d < 10 {
        (48 + d) as char
    } else {
        (87 + d) as char
    }
}

/// Write bytes in lower-case hexadecimal.
pub fn to_hex(b: &[u8]) -> (r: String)
    ensures
        r@ == hex(b@),
{
    let mut out = String::new();
    let mut i: usize = 0;
    assert(b@.take(0) == Seq::<u8>::empty());
    while i < b.len()
        invariant
            i <= b.len(),
            out@ == hex(b@.take(i as int)),
        decreases b.len() - i,
    {
        out.push(nibble_char(b[i] / 16));
        out.push(nibble_char(b[i] % 16));
        i = i + 1;
        assert(b@.take(i as int).drop_last() == b@.take(i - 1));
    }
    assert(b@.take(b.len() as int) == b@);
    out
}

/// Two digits for every byte.
pub proof fn hex_length(b: Seq<u8>)
    ensures
        hex(b).len() == 2 * b.len(),
    decreases b.len(),
{
    if b.len() > 0 {
        hex_length(b.drop_last());
    }
}

/// A number in hexadecimal, padded with zeroes to `width` digits.
pub open spec fn padded_hex(n: nat, width: nat) -> Seq<char>
    decreases width,
{
    if width == 0 {
        Seq::empty()
    } else {
        padded_hex(n / 16, (width - 1) as nat).push(nibble((n % 16) as int))
    }
}

/// Write the low `width` hexadecimal digits of a number.
pub fn to_padded_hex(n: u64, width: u8) -> (r: String)
    ensures
        r@ == padded_hex(n as nat, width as nat),
    decreases width,
{
    if width == 0 {
        String::new()
    } else {
        let mut out = to_padded_hex(n / 16, width - 1);
        out.push(nibble_char((n % 16) as u8));
        out
    }
}

/// The first `n` characters of a text.
pub fn prefix(s: &str, n: usize) -> (r: String)
    requires
        n <= s@.len(),
    ensures
        r@ == s@.take(n as int),
{
    let c = to_chars(s);
    let t = slice_chars(&c, 0, n);
    from_chars(&t)
}

// --- searching ------------------------------------------------------------

/// Whether `needle` stands in `s` at position `at`.
pub open spec fn occurs_at(s: Seq<char>, needle: Seq<char>, at: int) -> bool {
    &&& 0 <= at
    &&& at + needle.len() <= s.len()
    &&& s.subrange(at, at + needle.len()) == needle
}

/// Whether a text begins with another.
pub open spec fn begins_with(s: Seq<char>, p: Seq<char>) -> bool {
    occurs_at(s, p, 0)
}

/// Whether `needle` stands in `s` at position `at`.
pub fn stands_at(s: &[char], needle: &[char], at: usize) -> (r: bool)
    ensures
        r == occurs_at(s@, needle@, at as int),
{
    if at > s.len() || needle.len() > s.len() - at {
        return false;
    }
    let mut j: usize = 0;
    while j < needle.len()
        invariant
            j <= needle.len(),
            at + needle.len() <= s.len(),
            forall|k: int| 0 <= k < j ==> s@[at + k] == needle@[k],
        decreases needle.len() - j,
    {
        if s[at + j] != needle[j] {
            assert(s@.subrange(at as int, at + needle.len())[j as int] != needle@[j as int]);
            return false;
        }
        j = j + 1;
    }
    assert(s@.subrange(at as int, at + needle.len()) == needle@);
    true
}

/// Whether a text contains another.
pub open spec fn holds_text(s: Seq<char>, needle: Seq<char>) -> bool {
    exists|at: int| occurs_at(s, needle, at)
}

/// The first place where `needle` stands, at or after `from`.
pub fn find_from(s: &[char], needle: &[char], from: usize) -> (r: Option<usize>)
    ensures
        match r {
            Some(at) => from <= at && occurs_at(s@, needle@, at as int) && forall|k: int|
                from <= k < at ==> !occurs_at(s@, needle@, k),
            None => forall|k: int| from <= k ==> !occurs_at(s@, needle@, k),
        },
{
    let mut at: usize = from;
    while at <= s.len()
        invariant
            from <= at,
            forall|k: int| from <= k < at ==> !occurs_at(s@, needle@, k),
        decreases s.len() + 1 - at,
    {
        if stands_at(s, needle, at) {
            return Some(at);
        }
        if at == s.len() {
            return None;
        }
        at = at + 1;
    }
    None
}

/// Whether a text contains another.
pub fn contains_text(s: &[char], needle: &[char]) -> (r: bool)
    ensures
        r == holds_text(s@, needle@),
{
    match find_from(s, needle, 0) {
        Some(at) => true,
        None => {
            assert(forall|k: int| occurs_at(s@, needle@, k) ==> 0 <= k);
            false
        },
    }
}

/// The first place where a character stands, at or after `from`.
pub fn find_char(s: &[char], c: char, from: usize) -> (r: Option<usize>)
    ensures
        match r {
            Some(at) => from <= at < s.len() && s@[at as int] == c && forall|k: int|
                from <= k < at ==> s@[k] != c,
            None => forall|k: int| from <= k < s.len() ==> s@[k] != c,
        },
{
    let mut at: usize = from;
    while at < s.len()
        invariant
            from <= at,
            forall|k: int| from <= k < at ==> s@[k] != c,
        decreases s.len() - at,
    {
        if s[at] == c {
            return Some(at);
        }
        at = at + 1;
    }
    None
}

/// The last place where `needle` stands.
pub open spec fn last_at(s: Seq<char>, needle: Seq<char>, at: int) -> bool {
    occurs_at(s, needle, at) && forall|k: int| at < k ==> !occurs_at(s, needle, k)
}

/// The last place where `needle` stands.
pub fn find_last(s: &[char], needle: &[char]) -> (r: Option<usize>)
    ensures
        match r {
            Some(at) => last_at(s@, needle@, at as int),
            None => !holds_text(s@, needle@),
        },
{
    let mut end: usize = s.len();
    assert(forall|k: int| s.len() < k ==> !occurs_at(s@, needle@, k));
    loop
        invariant
            end <= s.len(),
            forall|k: int| end < k ==> !occurs_at(s@, needle@, k),
        decreases end,
    {
        if stands_at(s, needle, end) {
            return Some(end);
        }
        if end == 0 {
            assert(forall|k: int| occurs_at(s@, needle@, k) ==> 0 <= k);
            return None;
        }
        end = end - 1;
    }
}

// --- splitting ------------------------------------------------------------

/// How many characters stand before the first separator.
pub open spec fn first_piece_len(s: Seq<char>, sep: char) -> nat
    decreases s.len(),
{
    if s.len() == 0 || s[0] == sep {
        0
    } else {
        1 + first_piece_len(s.drop_first(), sep)
    }
}

/// A text cut at every separator. There is always at least one piece.
pub open spec fn pieces(s: Seq<char>, sep: char) -> Seq<Seq<char>>
    decreases s.len(),
{
    let at = first_piece_len(s, sep) as int;
    if at < s.len() {
        seq![s.take(at)] + pieces(s.skip(at + 1), sep)
    } else {
        seq![s]
    }
}

/// The first piece ends where the first separator stands.
pub proof fn first_piece_len_is(s: Seq<char>, sep: char, at: int)
    requires
        0 <= at <= s.len(),
        forall|k: int| 0 <= k < at ==> s[k] != sep,
        at < s.len() ==> s[at] == sep,
    ensures
        first_piece_len(s, sep) == at,
    decreases s.len(),
{
    if at > 0 {
        first_piece_len_is(s.drop_first(), sep, at - 1);
    }
}

/// Cut a text at every separator.
pub fn split(c: &[char], sep: char) -> (r: Vec<String>)
    ensures
        texts(r@) == pieces(c@, sep),
        r@.len() > 0,
{
    let mut out: Vec<String> = Vec::new();
    let mut from: usize = 0;
    assert(c@.skip(0) == c@);
    assert(texts(out@) + pieces(c@, sep) == pieces(c@, sep));
    loop
        invariant_except_break
            from <= c.len(),
            texts(out@) + pieces(c@.skip(from as int), sep) == pieces(c@, sep),
        ensures
            texts(out@) == pieces(c@, sep),
            out@.len() > 0,
        decreases c.len() - from,
    {
        let ghost rest = c@.skip(from as int);
        let ghost before_push = out@;
        match find_char(c, sep, from) {
            Some(at) => {
                let part = from_chars(&slice_chars(c, from, at));
                proof {
                    first_piece_len_is(rest, sep, at - from);
                    assert(rest.take(at - from) == part@);
                    assert(rest.skip(at - from + 1) == c@.skip(at + 1));
                }
                out.push(part);
                assert(texts(out@) == texts(before_push) + seq![part@]);
                assert(texts(out@) + pieces(c@.skip(at + 1), sep) == texts(before_push) + (
                seq![part@] + pieces(c@.skip(at + 1), sep)));
                from = at + 1;
            },
            None => {
                let part = from_chars(&slice_chars(c, from, c.len()));
                proof {
                    first_piece_len_is(rest, sep, rest.len() as int);
                    assert(rest == part@);
                }
                out.push(part);
                assert(texts(out@) == texts(before_push) + seq![part@]);
                break;
            },
        }
    }
    out
}

// --- order ----------------------------------------------------------------

/// The order of texts: by the first character in which they differ, a text
/// before every longer one that begins with it.
pub open spec fn before(a: Seq<char>, b: Seq<char>) -> bool
    decreases a.len(),
{
    if b.len() == 0 {
        false
    } else if a.len() == 0 {
        true
    } else if a[0] != b[0] {
        a[0] < b[0]
    } else {
        before(a.drop_first(), b.drop_first())
    }
}

/// Of two texts, one is before the other unless they are equal.
pub proof fn order_is_total(a: Seq<char>, b: Seq<char>)
    ensures
        before(a, b) || before(b, a) || a == b,
        !(before(a, b) && before(b, a)),
        a == b ==> !before(a, b),
    decreases a.len(),
{
    if a.len() == 0 && b.len() == 0 {
        assert(a == b);
    } else if a.len() > 0 && b.len() > 0 {
        order_is_total(a.drop_first(), b.drop_first());
        if a[0] == b[0] && a.drop_first() == b.drop_first() {
            assert(a == seq![a[0]] + a.drop_first());
            assert(b == seq![b[0]] + b.drop_first());
        }
    }
}

/// The order carries over.
pub proof fn order_is_transitive(a: Seq<char>, b: Seq<char>, c: Seq<char>)
    requires
        before(a, b),
        before(b, c),
    ensures
        before(a, c),
    decreases a.len(),
{
    if a.len() > 0 && a[0] == b[0] && b[0] == c[0] {
        order_is_transitive(a.drop_first(), b.drop_first(), c.drop_first());
    }
}

/// Whether texts stand in order, each once.
pub open spec fn ascending(s: Seq<Seq<char>>) -> bool {
    forall|i: int, j: int| 0 <= i < j < s.len() ==> before(#[trigger] s[i], #[trigger] s[j])
}

/// There is but one way to list some texts in order.
pub proof fn ascending_lists_are_their_sets(a: Seq<Seq<char>>, b: Seq<Seq<char>>)
    requires
        ascending(a),
        ascending(b),
        a.to_set() == b.to_set(),
    ensures
        a == b,
    decreases a.len(),
{
    assert forall|t: Seq<char>| a.contains(t) <==> b.contains(t) by {
        assert(a.to_set().contains(t) == a.contains(t));
        assert(b.to_set().contains(t) == b.contains(t));
    }
    if a.len() == 0 {
        if b.len() > 0 {
            assert(b.contains(b[0]));
        }
    } else {
        assert(a.contains(a.last()));
        assert(b.contains(a.last()));
        assert(b.contains(b.last()));
        assert(a.contains(b.last()));
        let i = choose|i: int| 0 <= i < a.len() && a[i] == b.last();
        let j = choose|j: int| 0 <= j < b.len() && b[j] == a.last();
        order_is_total(a.last(), b.last());
        let x = a.drop_last();
        let y = b.drop_last();
        assert forall|t: Seq<char>| x.contains(t) <==> y.contains(t) by {
            order_is_total(t, t);
            if x.contains(t) {
                let k = choose|k: int| 0 <= k < x.len() && x[k] == t;
                assert(a[k] == t);
                assert(a.contains(t));
                let n = choose|n: int| 0 <= n < b.len() && b[n] == t;
                assert(y[n] == t);
            }
            if y.contains(t) {
                let k = choose|k: int| 0 <= k < y.len() && y[k] == t;
                assert(b[k] == t);
                assert(b.contains(t));
                let n = choose|n: int| 0 <= n < a.len() && a[n] == t;
                assert(x[n] == t);
            }
        }
        assert(x.to_set() =~= y.to_set());
        ascending_lists_are_their_sets(x, y);
        assert(a == x.push(a.last()));
        assert(b == y.push(b.last()));
    }
}

/// Whether one text is before another.
pub fn is_before(a: &str, b: &str) -> (r: bool)
    ensures
        r == before(a@, b@),
{
    let x = to_chars(a);
    let y = to_chars(b);
    let mut i: usize = 0;
    assert(x@.skip(0) == x@);
    assert(y@.skip(0) == y@);
    while i < x.len() && i < y.len()
        invariant
            i <= x.len(),
            i <= y.len(),
            x@ == a@,
            y@ == b@,
            before(x@, y@) == before(x@.skip(i as int), y@.skip(i as int)),
        decreases x.len() - i,
    {
        if x[i] != y[i] {
            return x[i] < y[i];
        }
        assert(x@.skip(i as int).drop_first() == x@.skip(i + 1));
        assert(y@.skip(i as int).drop_first() == y@.skip(i + 1));
        i = i + 1;
    }
    i < y.len()
}

/// Put a text in its place in an ascending list, unless it is there already.
pub fn insert_sorted(v: &mut Vec<String>, s: String)
    requires
        ascending(texts(old(v)@)),
    ensures
        ascending(texts(final(v)@)),
        forall|t: Seq<char>|
            texts(final(v)@).contains(t) <==> (texts(old(v)@).contains(t) || t == s@),
{
    let ghost before_v = texts(v@);
    let ghost key = s@;
    let mut i: usize = 0;
    while i < v.len() && is_before(v[i].as_str(), s.as_str())
        invariant
            i <= v.len(),
            key == s@,
            before_v == texts(v@),
            forall|j: int| 0 <= j < i ==> before(#[trigger] before_v[j], key),
        decreases v.len() - i,
    {
        assert(before_v[i as int] == v@[i as int]@);
        i = i + 1;
    }
    if i < v.len() {
        assert(before_v[i as int] == v@[i as int]@);
        if same(v[i].as_str(), s.as_str()) {
            assert(before_v.contains(key));
            return;
        }
        proof {
            order_is_total(before_v[i as int], key);
        }
    }
    v.insert(i, s);
    proof {
        let after = texts(v@);
        assert(after == before_v.insert(i as int, key));
        assert forall|a: int, b: int| 0 <= a < b < after.len() implies before(
            #[trigger] after[a],
            #[trigger] after[b],
        ) by {
            let a0 = if a < i { a } else { a - 1 };
            let b0 = if b < i { b } else { b - 1 };
            if a < i && b == i {
                assert(before(before_v[a], key));
            } else if a == i {
                // Everything from here on is behind the new text.
                if b0 > i {
                    order_is_transitive(key, before_v[i as int], before_v[b0]);
                }
            } else {
                assert(before(before_v[a0], before_v[b0]));
            }
        }
        assert forall|t: Seq<char>| after.contains(t) <==> (before_v.contains(t) || t == key) by {
            if after.contains(t) {
                let n = choose|n: int| 0 <= n < after.len() && after[n] == t;
                if n != i {
                    assert(before_v[if n < i { n } else { n - 1 }] == t);
                }
            }
            if before_v.contains(t) {
                let n = choose|n: int| 0 <= n < before_v.len() && before_v[n] == t;
                assert(after[if n < i { n } else { n + 1 }] == t);
            }
            assert(after[i as int] == key);
        }
    }
}

} // verus!
