//! Normalisation and fuzzy matching for the text gate.
//!
//! This is the test that selects a candidate at all; the perceptual gate only
//! authorises the swap. Getting it wrong in the permissive direction puts the
//! wrong record on the wall, which is the single most visible failure this
//! product has.

use vstd::arithmetic::power2::pow2;
use vstd::prelude::*;

use crate::double::{
    at_most, count, double_scales, doubled, exact, is_double, large_doubles, nearest, one_is_a_power,
    product, ratio, rounded_is_double, rounding_keeps_order, same_value, share, small_mantissas,
    to_double, ONE,
};
use crate::single::half_even;
use crate::strings::{
    ascii_lower_char, contains_text, decimal, digit, find_last, first_piece_len, first_piece_len_is, from_chars, holds_text, is_digit,
    is_white, last_at, lowercase, occurs_at, pieces, same, slice_chars, split, texts, to_chars, to_decimal,
    to_lowercase, trimmed_end, white,
};


verus! {

broadcast use vstd::seq::group_seq_axioms;

// --- the standard library -------------------------------------------------

/// Whether a character outside ASCII is a letter or a digit, in the sense of
/// Unicode.
pub uninterp spec fn unicode_alphanumeric(c: char) -> bool;

/// Whether a character is a letter or a digit.
pub open spec fn alphanumeric(c: char) -> bool {
    if c <= '\u{7f}' {
        'a' <= c <= 'z' || 'A' <= c <= 'Z' || '0' <= c <= '9'
    } else {
        unicode_alphanumeric(c)
    }
}

/// `char::is_alphanumeric` holds, of the ASCII characters, for the letters and
/// the digits. Beyond ASCII it is a function of the character alone, named by
/// [`unicode_alphanumeric`].
pub assume_specification[ char::is_alphanumeric ](c: char) -> (r: bool)
    ensures
        c <= '\u{7f}' ==> r == ('a' <= c <= 'z' || 'A' <= c <= 'Z' || '0' <= c <= '9'),
        c > '\u{7f}' ==> r == unicode_alphanumeric(c),
;

/// The lower-case mapping of one character, which may be several.
pub uninterp spec fn unicode_char_lower(c: char) -> Seq<char>;

/// The characters before the first accented letter, and the two signs among
/// the accented letters of Latin-1. Of these only the ASCII capitals have a
/// small letter of their own.
pub open spec fn is_plain(c: char) -> bool {
    c < '\u{c0}' || c == '\u{d7}' || c == '\u{f7}'
}

/// A character in lower case.
pub open spec fn char_lower(c: char) -> Seq<char> {
    if is_plain(c) {
        seq![ascii_lower_char(c)]
    } else {
        unicode_char_lower(c)
    }
}

/// Calls `char::to_lowercase` and gathers what it yields. An ASCII capital
/// maps to its small letter, and any other character that [`is_plain`] has no
/// lower-case mapping and comes back as it is. Otherwise the result is a
/// function of the character alone, named by [`unicode_char_lower`].
#[verifier::external_body]
fn lower_char(c: char) -> (r: Vec<char>)
    ensures
        is_plain(c) ==> r@ == seq![ascii_lower_char(c)],
        !is_plain(c) ==> r@ == unicode_char_lower(c),
{
    c.to_lowercase().collect()
}

// --- folding --------------------------------------------------------------

/// One character as its unaccented ASCII equivalent. Coverage is Latin-1 and
/// Latin Extended-A; anything outside it stays as it is, which is correct: two
/// Japanese titles still match each other.
pub open spec fn folded(c: char) -> Seq<char> {
    match c {
        'À'..='Å' | 'à'..='å' | 'Ā' | 'ā' | 'Ă' | 'ă' | 'Ą' | 'ą' => "a"@,
        'Æ' | 'æ' => "ae"@,
        'Ç' | 'ç' | 'Ć' | 'ć' | 'Ĉ' | 'ĉ' | 'Ċ' | 'ċ' | 'Č' | 'č' => "c"@,
        'Ď' | 'ď' | 'Đ' | 'đ' | 'Ð' | 'ð' => "d"@,
        'È'..='Ë' | 'è'..='ë' | 'Ē' | 'ē' | 'Ĕ' | 'ĕ' | 'Ė' | 'ė' | 'Ę' | 'ę' | 'Ě' | 'ě' => "e"@,
        'Ĝ' | 'ĝ' | 'Ğ' | 'ğ' | 'Ġ' | 'ġ' | 'Ģ' | 'ģ' => "g"@,
        'Ĥ' | 'ĥ' | 'Ħ' | 'ħ' => "h"@,
        'Ì'..='Ï' | 'ì'..='ï' | 'Ĩ' | 'ĩ' | 'Ī' | 'ī' | 'Ĭ' | 'ĭ' | 'Į' | 'į' | 'İ' | 'ı' => "i"@,
        'Ĳ' | 'ĳ' => "ij"@,
        'Ĵ' | 'ĵ' => "j"@,
        'Ķ' | 'ķ' | 'ĸ' => "k"@,
        'Ĺ' | 'ĺ' | 'Ļ' | 'ļ' | 'Ľ' | 'ľ' | 'Ŀ' | 'ŀ' | 'Ł' | 'ł' => "l"@,
        'Ñ' | 'ñ' | 'Ń' | 'ń' | 'Ņ' | 'ņ' | 'Ň' | 'ň' | 'ŉ' | 'Ŋ' | 'ŋ' => "n"@,
        'Ò'..='Ö' | 'ò'..='ö' | 'Ø' | 'ø' | 'Ō' | 'ō' | 'Ŏ' | 'ŏ' | 'Ő' | 'ő' => "o"@,
        'Œ' | 'œ' => "oe"@,
        'Ŕ' | 'ŕ' | 'Ŗ' | 'ŗ' | 'Ř' | 'ř' => "r"@,
        'Ś' | 'ś' | 'Ŝ' | 'ŝ' | 'Ş' | 'ş' | 'Š' | 'š' | 'ſ' => "s"@,
        'ß' => "ss"@,
        'Ţ' | 'ţ' | 'Ť' | 'ť' | 'Ŧ' | 'ŧ' => "t"@,
        'Ù'..='Ü' | 'ù'..='ü' | 'Ũ' | 'ũ' | 'Ū' | 'ū' | 'Ŭ' | 'ŭ' | 'Ů' | 'ů' | 'Ű' | 'ű' | 'Ų' | 'ų' => "u"@,
        'Ŵ' | 'ŵ' => "w"@,
        'Ý' | 'ý' | 'ÿ' | 'Ŷ' | 'ŷ' | 'Ÿ' => "y"@,
        'Ź' | 'ź' | 'Ż' | 'ż' | 'Ž' | 'ž' => "z"@,
        'Þ' | 'þ' => "th"@,
        '&' => " and "@,
        // Curly quotes and dashes, which catalogues and senders disagree on.
        '\u{2018}' | '\u{2019}' | '\u{201C}' | '\u{201D}' => "'"@,
        '\u{2013}' | '\u{2014}' => "-"@,
        _ => seq![c],
    }
}

/// Fold one character to its unaccented ASCII equivalent.
///
/// A table rather than a Unicode decomposition: that would not decompose ø, đ,
/// ł or ß at all, so a table would be needed regardless.
pub fn fold_char(c: char) -> (r: String)
    ensures
        r@ == folded(c),
{
    let replacement: &str = match c {
        'À'..='Å' | 'à'..='å' | 'Ā' | 'ā' | 'Ă' | 'ă' | 'Ą' | 'ą' => "a",
        'Æ' | 'æ' => "ae",
        'Ç' | 'ç' | 'Ć' | 'ć' | 'Ĉ' | 'ĉ' | 'Ċ' | 'ċ' | 'Č' | 'č' => "c",
        'Ď' | 'ď' | 'Đ' | 'đ' | 'Ð' | 'ð' => "d",
        'È'..='Ë' | 'è'..='ë' | 'Ē' | 'ē' | 'Ĕ' | 'ĕ' | 'Ė' | 'ė' | 'Ę' | 'ę' | 'Ě' | 'ě' => "e",
        'Ĝ' | 'ĝ' | 'Ğ' | 'ğ' | 'Ġ' | 'ġ' | 'Ģ' | 'ģ' => "g",
        'Ĥ' | 'ĥ' | 'Ħ' | 'ħ' => "h",
        'Ì'..='Ï' | 'ì'..='ï' | 'Ĩ' | 'ĩ' | 'Ī' | 'ī' | 'Ĭ' | 'ĭ' | 'Į' | 'į' | 'İ' | 'ı' => "i",
        'Ĳ' | 'ĳ' => "ij",
        'Ĵ' | 'ĵ' => "j",
        'Ķ' | 'ķ' | 'ĸ' => "k",
        'Ĺ' | 'ĺ' | 'Ļ' | 'ļ' | 'Ľ' | 'ľ' | 'Ŀ' | 'ŀ' | 'Ł' | 'ł' => "l",
        'Ñ' | 'ñ' | 'Ń' | 'ń' | 'Ņ' | 'ņ' | 'Ň' | 'ň' | 'ŉ' | 'Ŋ' | 'ŋ' => "n",
        'Ò'..='Ö' | 'ò'..='ö' | 'Ø' | 'ø' | 'Ō' | 'ō' | 'Ŏ' | 'ŏ' | 'Ő' | 'ő' => "o",
        'Œ' | 'œ' => "oe",
        'Ŕ' | 'ŕ' | 'Ŗ' | 'ŗ' | 'Ř' | 'ř' => "r",
        'Ś' | 'ś' | 'Ŝ' | 'ŝ' | 'Ş' | 'ş' | 'Š' | 'š' | 'ſ' => "s",
        'ß' => "ss",
        'Ţ' | 'ţ' | 'Ť' | 'ť' | 'Ŧ' | 'ŧ' => "t",
        'Ù'..='Ü' | 'ù'..='ü' | 'Ũ' | 'ũ' | 'Ū' | 'ū' | 'Ŭ' | 'ŭ' | 'Ů' | 'ů' | 'Ű' | 'ű' | 'Ų' | 'ų' => "u",
        'Ŵ' | 'ŵ' => "w",
        'Ý' | 'ý' | 'ÿ' | 'Ŷ' | 'ŷ' | 'Ÿ' => "y",
        'Ź' | 'ź' | 'Ż' | 'ż' | 'Ž' | 'ž' => "z",
        'Þ' | 'þ' => "th",
        '&' => " and ",
        // Curly quotes and dashes, which catalogues and senders disagree on.
        '\u{2018}' | '\u{2019}' | '\u{201C}' | '\u{201D}' => "'",
        '\u{2013}' | '\u{2014}' => "-",
        _ => {
            let mut s = String::new();
            s.push(c);
            assert(s@ == seq![c]);
            return s;
        },
    };
    replacement.to_owned()
}

/// A text with every character folded.
pub open spec fn fold_text(s: Seq<char>) -> Seq<char>
    decreases s.len(),
{
    if s.len() == 0 {
        Seq::empty()
    } else {
        fold_text(s.drop_last()) + folded(s.last())
    }
}

fn fold_all(s: &[char]) -> (r: Vec<char>)
    ensures
        r@ == fold_text(s@),
{
    let mut out = String::new();
    let mut i: usize = 0;
    assert(s@.take(0) == Seq::<char>::empty());
    while i < s.len()
        invariant
            i <= s.len(),
            out@ == fold_text(s@.take(i as int)),
        decreases s.len() - i,
    {
        out.append(fold_char(s[i]).as_str());
        i = i + 1;
        assert(s@.take(i as int).drop_last() == s@.take(i - 1));
    }
    assert(s@.take(s.len() as int) == s@);
    to_chars(out.as_str())
}

// --- qualifiers -----------------------------------------------------------

/// Whether a qualifier names an edition rather than a part of the title.
///
/// Stripping every parenthetical would be simpler and is wrong: "Greatest
/// Hits (Volume 2)" and "Greatest Hits" are different records. Only qualifiers
/// drawn from this vocabulary are removed, which costs us the occasional
/// unrecognised edition suffix: a missed upgrade, not a wrong one.
pub open spec fn names_edition(s: Seq<char>) -> bool {
    let l = lowercase(s);
    ||| holds_text(l, "deluxe"@)
    ||| holds_text(l, "remaster"@)
    ||| holds_text(l, "remastered"@)
    ||| holds_text(l, "edition"@)
    ||| holds_text(l, "explicit"@)
    ||| holds_text(l, "clean"@)
    ||| holds_text(l, "bonus"@)
    ||| holds_text(l, "anniversary"@)
    ||| holds_text(l, "expanded"@)
    ||| holds_text(l, "reissue"@)
    ||| holds_text(l, "special"@)
    ||| holds_text(l, "collectors"@)
    ||| holds_text(l, "collector"@)
    ||| holds_text(l, "limited"@)
    ||| holds_text(l, "original recording"@)
    ||| holds_text(l, "digitally remastered"@)
    ||| holds_text(l, "single version"@)
    ||| holds_text(l, "album version"@)
    ||| holds_text(l, "mono version"@)
    ||| holds_text(l, "stereo version"@)
    ||| holds_text(l, "the complete"@)
}

fn has_word(s: &[char], word: &str) -> (r: bool)
    ensures
        r == holds_text(s@, word@),
{
    contains_text(s, &to_chars(word))
}

/// Whether a qualifier names an edition.
pub fn is_edition(s: &str) -> (r: bool)
    ensures
        r == names_edition(s@),
{
    let l = to_chars(to_lowercase(s).as_str());
    has_word(&l, "deluxe")
        || has_word(&l, "remaster")
        || has_word(&l, "remastered")
        || has_word(&l, "edition")
        || has_word(&l, "explicit")
        || has_word(&l, "clean")
        || has_word(&l, "bonus")
        || has_word(&l, "anniversary")
        || has_word(&l, "expanded")
        || has_word(&l, "reissue")
        || has_word(&l, "special")
        || has_word(&l, "collectors")
        || has_word(&l, "collector")
        || has_word(&l, "limited")
        || has_word(&l, "original recording")
        || has_word(&l, "digitally remastered")
        || has_word(&l, "single version")
        || has_word(&l, "album version")
        || has_word(&l, "mono version")
        || has_word(&l, "stereo version")
        || has_word(&l, "the complete")
}

/// How far bracketed groups have been gone through.
pub struct Brackets {
    pub out: Seq<char>,
    pub depth: nat,
    pub group: Seq<char>,
}

pub open spec fn opens(c: char) -> bool {
    c == '(' || c == '[' || c == '{'
}

pub open spec fn closes(c: char) -> bool {
    c == ')' || c == ']' || c == '}'
}

impl Brackets {
    /// The next character. An outermost group that names an edition is left
    /// out; any other is kept, without its brackets and after a space.
    pub open spec fn step(self, c: char) -> Brackets {
        if opens(c) && self.depth == 0 {
            Brackets { depth: 1, group: Seq::empty(), out: self.out }
        } else if opens(c) {
            Brackets { depth: self.depth + 1, group: self.group.push(c), out: self.out }
        } else if closes(c) && self.depth == 1 {
            Brackets {
                depth: 0,
                out: if names_edition(self.group) {
                    self.out
                } else {
                    self.out.push(' ') + self.group
                },
                group: self.group,
            }
        } else if closes(c) && self.depth > 1 {
            Brackets {
                depth: (self.depth - 1) as nat,
                group: self.group.push(c),
                out: self.out,
            }
        } else if self.depth > 0 {
            Brackets { group: self.group.push(c), ..self }
        } else {
            Brackets { out: self.out.push(c), ..self }
        }
    }
}

/// The groups of a text gone through.
pub open spec fn bracketed(s: Seq<char>) -> Brackets
    decreases s.len(),
{
    if s.len() == 0 {
        Brackets { out: Seq::empty(), depth: 0, group: Seq::empty() }
    } else {
        bracketed(s.drop_last()).step(s.last())
    }
}

/// A text without the bracketed groups that name an edition. An unterminated
/// bracket keeps what follows it: the text was truncated somewhere.
pub open spec fn without_groups(s: Seq<char>) -> Seq<char> {
    let b = bracketed(s);
    if b.depth > 0 {
        b.out + b.group
    } else {
        b.out
    }
}

/// Where the last dash-suffix begins.
pub open spec fn last_dash(s: Seq<char>) -> int {
    choose|at: int| last_at(s, " - "@, at)
}

/// A text without the bracketed groups and the trailing dash-suffix that name
/// an edition. Only the last suffix is considered: a dash inside the title
/// itself ("Songs - Ohia") survives.
pub open spec fn stripped(s: Seq<char>) -> Seq<char> {
    let out = without_groups(s);
    if holds_text(out, " - "@) && names_edition(out.skip(last_dash(out) + 3)) {
        out.take(last_dash(out))
    } else {
        out
    }
}

proof fn last_is_unique(s: Seq<char>, needle: Seq<char>, a: int, b: int)
    requires
        last_at(s, needle, a),
        last_at(s, needle, b),
    ensures
        a == b,
{
    if a < b {
        assert(!occurs_at(s, needle, b));
    } else if b < a {
        assert(!occurs_at(s, needle, a));
    }
}

/// Remove bracketed groups and trailing dash-suffixes that name an edition.
pub fn strip_qualifiers(s: &str) -> (r: String)
    ensures
        r@ == stripped(s@),
{
    let c = to_chars(s);
    let mut out: Vec<char> = Vec::new();
    let mut depth: usize = 0;
    let mut group: Vec<char> = Vec::new();
    let mut i: usize = 0;
    assert(c@.take(0) == Seq::<char>::empty());
    while i < c.len()
        invariant
            i <= c.len(),
            c@ == s@,
            depth <= i,
            bracketed(c@.take(i as int)) == (Brackets {
                out: out@,
                depth: depth as nat,
                group: group@,
            }),
        decreases c.len() - i,
    {
        let x = c[i];
        assert(c@.take(i + 1).drop_last() == c@.take(i as int));
        assert(c@.take(i + 1).last() == x);
        if x == '(' || x == '[' || x == '{' {
            if depth == 0 {
                group = Vec::new();
                assert(group@ == Seq::<char>::empty());
            } else {
                group.push(x);
            }
            depth = depth + 1;
        } else if (x == ')' || x == ']' || x == '}') && depth > 0 {
            if depth == 1 {
                if !is_edition(from_chars(&group).as_str()) {
                    let ghost before = out@;
                    out.push(' ');
                    out.extend_from_slice(&group);
                    assert(out@ == before.push(' ') + group@);
                }
            } else {
                group.push(x);
            }
            depth = depth - 1;
        } else if depth > 0 {
            group.push(x);
        } else {
            out.push(x);
        }
        i = i + 1;
    }
    assert(c@.take(c.len() as int) == s@);
    if depth > 0 {
        out.extend_from_slice(&group);
    }
    assert(out@ == without_groups(s@));
    let dash = to_chars(" - ");
    proof {
        reveal_strlit(" - ");
        assert(dash@.len() == 3);
    }
    match find_last(&out, &dash) {
        Some(at) => {
            proof {
                assert(holds_text(out@, " - "@));
                assert(last_at(out@, " - "@, last_dash(out@)));
                last_is_unique(out@, " - "@, at as int, last_dash(out@));
            }
            let end: usize = out.len();
            let tail = slice_chars(&out, at + 3, end);
            assert(tail@ == out@.skip(at + 3));
            if is_edition(from_chars(&tail).as_str()) {
                let head = slice_chars(&out, 0, at);
                assert(head@ == out@.take(at as int));
                return from_chars(&head);
            }
        },
        None => {},
    }
    from_chars(&out)
}

// --- normalisation --------------------------------------------------------

/// A text gone through: what it has become, and whether a space was just
/// written.
pub open spec fn collapsed(s: Seq<char>) -> (Seq<char>, bool)
    decreases s.len(),
{
    if s.len() == 0 {
        (Seq::empty(), false)
    } else {
        let (out, space) = collapsed(s.drop_last());
        let c = s.last();
        if alphanumeric(c) {
            (out + char_lower(c), false)
        } else if out.len() > 0 && !space {
            // Every run of punctuation or whitespace becomes one space, so
            // "AC/DC", "AC-DC" and "AC DC" agree.
            (out.push(' '), true)
        } else {
            (out, space)
        }
    }
}

/// What a name is compared by.
pub open spec fn normalised(s: Seq<char>) -> Seq<char> {
    trimmed_end(collapsed(stripped(fold_text(s))).0)
}

/// Lowercase, de-accent, drop edition qualifiers, collapse punctuation.
///
/// The output is only ever compared against another output of this function,
/// so it does not need to be pretty: it needs to be stable and to make the
/// same two records normalise to the same string.
pub fn normalise(s: &str) -> (r: String)
    ensures
        r@ == normalised(s@),
{
    let folded_chars = fold_all(&to_chars(s));
    let text = strip_qualifiers(from_chars(&folded_chars).as_str());
    let c = to_chars(text.as_str());
    let mut out: Vec<char> = Vec::new();
    let mut space: bool = false;
    let mut i: usize = 0;
    assert(c@.take(0) == Seq::<char>::empty());
    while i < c.len()
        invariant
            i <= c.len(),
            collapsed(c@.take(i as int)) == (out@, space),
        decreases c.len() - i,
    {
        let x = c[i];
        assert(c@.take(i + 1).drop_last() == c@.take(i as int));
        assert(c@.take(i + 1).last() == x);
        if x.is_alphanumeric() {
            let lower = lower_char(x);
            out.extend_from_slice(&lower);
            space = false;
        } else if out.len() > 0 && !space {
            out.push(' ');
            space = true;
        }
        i = i + 1;
    }
    assert(c@.take(c.len() as int) == c@);
    let mut n: usize = out.len();
    assert(out@.take(n as int) == out@);
    while n > 0 && white(out[n - 1])
        invariant
            n <= out.len(),
            trimmed_end(out@.take(n as int)) == trimmed_end(out@),
        decreases n,
    {
        assert(out@.take(n as int).drop_last() == out@.take(n - 1));
        n = n - 1;
    }
    assert(trimmed_end(out@.take(n as int)) == out@.take(n as int));
    let head = slice_chars(&out, 0, n);
    assert(head@ == out@.take(n as int));
    from_chars(&head)
}

// --- similarity -----------------------------------------------------------

/// Artist similarity a candidate must reach: the double 0.90.
pub const ARTIST_THRESHOLD: u128 = 0x00e6_6666_6666_6668_0000_0000_0000_0000;

/// Album similarity a candidate must reach: the double 0.85.
pub const ALBUM_THRESHOLD: u128 = 0x00d9_9999_9999_9998_0000_0000_0000_0000;

/// Above this on both fields the album is unambiguous, and the perceptual
/// gate is bypassed unless strictness is `strict`: the double 0.97.
pub const NEAR_EXACT_THRESHOLD: u128 = 0x00f8_51eb_851e_b850_0000_0000_0000_0000;

/// Below this a common prefix is coincidence: the double 0.7.
pub const PREFIX_THRESHOLD: u128 = 0x00b3_3333_3333_3330_0000_0000_0000_0000;

/// What each character of a common prefix is worth: the double 0.1.
pub const PREFIX_WEIGHT: u128 = 0x0019_9999_9999_999a_0000_0000_0000_0000;

/// How far apart two characters may stand and still match.
pub open spec fn window(la: nat, lb: nat) -> nat {
    let half = (if la > lb {
        la
    } else {
        lb
    }) / 2;
    if half > 0 {
        (half - 1) as nat
    } else {
        0
    }
}

/// The first place in `lo..hi` where `c` stands and is not taken yet; `hi` if
/// there is none.
pub open spec fn first_free(b: Seq<char>, taken: Seq<bool>, c: char, lo: nat, hi: nat) -> nat
    decreases hi - lo,
{
    if lo >= hi || !taken[lo as int] && b[lo as int] == c {
        lo
    } else {
        first_free(b, taken, c, lo + 1, hi)
    }
}

/// Which characters of two texts match, after the first `i` of `a` have each
/// taken the first free equal character of `b` within the window.
pub open spec fn matching(a: Seq<char>, b: Seq<char>, i: nat) -> (Seq<bool>, Seq<bool>)
    decreases i,
{
    if i == 0 {
        (Seq::new(a.len(), |k: int| false), Seq::new(b.len(), |k: int| false))
    } else {
        let (ma, mb) = matching(a, b, (i - 1) as nat);
        let w = window(a.len(), b.len());
        let lo = window_lo((i - 1) as nat, w);
        let hi = window_hi((i - 1) as nat, w, b.len());
        let j = first_free(b, mb, a[i - 1], lo, hi);
        if lo <= j < hi {
            (ma.update(i - 1, true), mb.update(j as int, true))
        } else {
            (ma, mb)
        }
    }
}

pub open spec fn window_lo(i: nat, w: nat) -> nat {
    if i > w {
        (i - w) as nat
    } else {
        0
    }
}

pub open spec fn window_hi(i: nat, w: nat, len: nat) -> nat {
    if i + w + 1 < len {
        i + w + 1
    } else {
        len
    }
}

/// The characters that are marked.
pub open spec fn marked(s: Seq<char>, marks: Seq<bool>) -> Seq<char>
    decreases s.len(),
{
    if s.len() == 0 {
        Seq::empty()
    } else if marks[s.len() - 1] {
        marked(s.drop_last(), marks).push(s.last())
    } else {
        marked(s.drop_last(), marks)
    }
}

/// In how many places two sequences of characters differ.
pub open spec fn mismatches(x: Seq<char>, y: Seq<char>) -> nat
    decreases x.len(),
{
    if x.len() == 0 || y.len() == 0 {
        0
    } else {
        mismatches(x.drop_last(), y.drop_last()) + if x.last() != y.last() {
            1nat
        } else {
            0
        }
    }
}

/// The matching characters of `a` and of `b`, each in its own order.
pub open spec fn matched(a: Seq<char>, b: Seq<char>) -> (Seq<char>, Seq<char>) {
    let (ma, mb) = matching(a, b, a.len());
    (marked(a, ma), marked(b, mb))
}

/// The mean of three shares, in double arithmetic: `m` of `la`, `m` of `lb`,
/// and `m` less half of `t`, of `m`. The counts are taken to doubles first.
pub open spec fn mean_share(m: nat, t: nat, la: nat, lb: nat) -> nat {
    let one = ONE as nat;
    let m = nearest(m, 1);
    let of_a = nearest(m, nearest(la, 1));
    let of_b = nearest(m, nearest(lb, 1));
    let both = nearest(of_a + of_b, one);
    let ordered = nearest((m - nearest(nearest(t, 1), 2 * one)) as nat, one);
    nearest(nearest(both + nearest(ordered, m), one), 3 * one)
}

/// Jaro similarity, as a double: the mean of the matching share of `a`, of the
/// matching share of `b`, and of the matches that need no transposing.
pub open spec fn jaro_score(a: Seq<char>, b: Seq<char>) -> nat {
    let (x, y) = matched(a, b);
    if a.len() == 0 && b.len() == 0 {
        ONE as nat
    } else if x.len() == 0 {
        0
    } else {
        mean_share(x.len(), mismatches(x, y), a.len(), b.len())
    }
}

/// How many characters two texts begin with in common, up to four.
pub open spec fn common_prefix(a: Seq<char>, b: Seq<char>, i: nat) -> nat
    decreases 4 - i,
{
    if i >= 4 || i >= a.len() || i >= b.len() || a[i as int] != b[i as int] {
        i
    } else {
        common_prefix(a, b, i + 1)
    }
}

/// A similarity taken on by a common prefix of `p` characters: a tenth of the
/// way to one for each of them, in double arithmetic.
pub open spec fn boosted(j: nat, p: nat) -> nat {
    let one = ONE as nat;
    let weight = nearest(p * PREFIX_WEIGHT as nat, one);
    let rest = nearest((one - j) as nat, one);
    nearest(j + nearest(weight * rest, one * one), one)
}

/// Jaro-Winkler similarity, as a double. Above 0.7, a common prefix takes the
/// similarity up to four tenths of the way to one.
pub open spec fn winkler_score(a: Seq<char>, b: Seq<char>) -> nat {
    let j = jaro_score(a, b);
    if j <= PREFIX_THRESHOLD {
        j
    } else {
        boosted(j, common_prefix(a, b, 0))
    }
}

/// How many of these characters are marked.
pub open spec fn count_marks(marks: Seq<bool>) -> nat
    decreases marks.len(),
{
    if marks.len() == 0 {
        0
    } else {
        count_marks(marks.drop_last()) + if marks.last() {
            1nat
        } else {
            0
        }
    }
}

proof fn marked_len(s: Seq<char>, marks: Seq<bool>)
    requires
        s.len() <= marks.len(),
    ensures
        marked(s, marks).len() == count_marks(marks.take(s.len() as int)),
        marked(s, marks).len() <= s.len(),
    decreases s.len(),
{
    if s.len() > 0 {
        marked_len(s.drop_last(), marks);
        assert(marks.take(s.len() as int).drop_last() == marks.take(s.len() - 1));
    }
}

proof fn count_update(marks: Seq<bool>, i: int)
    requires
        0 <= i < marks.len(),
        !marks[i],
    ensures
        count_marks(marks.update(i, true)) == count_marks(marks) + 1,
    decreases marks.len(),
{
    let u = marks.update(i, true);
    if i == marks.len() - 1 {
        assert(u.drop_last() == marks.drop_last());
    } else {
        assert(u.drop_last() == marks.drop_last().update(i, true));
        count_update(marks.drop_last(), i);
    }
}

proof fn count_none(n: nat)
    ensures
        count_marks(Seq::new(n, |k: int| false)) == 0,
    decreases n,
{
    let s = Seq::new(n, |k: int| false);
    if n > 0 {
        count_none((n - 1) as nat);
        assert(s.drop_last() == Seq::new((n - 1) as nat, |k: int| false));
    }
}

proof fn first_free_is(b: Seq<char>, taken: Seq<bool>, c: char, lo: nat, hi: nat, j: nat)
    requires
        lo <= j <= hi,
        forall|k: int| lo <= k < j ==> taken[k] || b[k] != c,
        j < hi ==> !taken[j as int] && b[j as int] == c,
    ensures
        first_free(b, taken, c, lo, hi) == j,
    decreases hi - lo,
{
    if lo < j {
        first_free_is(b, taken, c, lo + 1, hi, j);
    }
}

/// What the matching keeps: each text has its own marks, as many on both
/// sides, and none beyond what was gone through.
proof fn matching_is_even(a: Seq<char>, b: Seq<char>, i: nat)
    requires
        i <= a.len(),
    ensures
        matching(a, b, i).0.len() == a.len(),
        matching(a, b, i).1.len() == b.len(),
        count_marks(matching(a, b, i).0) == count_marks(matching(a, b, i).1),
        forall|k: int| i <= k < a.len() ==> !matching(a, b, i).0[k],
    decreases i,
{
    if i == 0 {
        count_none(a.len());
        count_none(b.len());
    } else {
        let p = (i - 1) as nat;
        matching_is_even(a, b, p);
        let (ma, mb) = matching(a, b, p);
        let w = window(a.len(), b.len());
        let lo = window_lo(p, w);
        let hi = window_hi(p, w, b.len());
        let j = first_free(b, mb, a[i - 1], lo, hi);
        if lo <= j < hi {
            free_place_is_free(b, mb, a[i - 1], lo, hi);
            count_update(ma, i - 1);
            count_update(mb, j as int);
        }
    }
}

proof fn free_place_is_free(b: Seq<char>, taken: Seq<bool>, c: char, lo: nat, hi: nat)
    requires
        first_free(b, taken, c, lo, hi) < hi,
    ensures
        !taken[first_free(b, taken, c, lo, hi) as int],
        b[first_free(b, taken, c, lo, hi) as int] == c,
        first_free(b, taken, c, lo, hi) >= lo,
    decreases hi - lo,
{
    if lo < hi && (taken[lo as int] || b[lo as int] != c) {
        free_place_is_free(b, taken, c, lo + 1, hi);
    }
}

/// As many characters of `a` match as of `b`, and no more than there are.
proof fn matched_is_even(a: Seq<char>, b: Seq<char>)
    ensures
        matched(a, b).0.len() == matched(a, b).1.len(),
        matched(a, b).0.len() <= a.len(),
        matched(a, b).1.len() <= b.len(),
{
    let (ma, mb) = matching(a, b, a.len());
    matching_is_even(a, b, a.len());
    marked_len(a, ma);
    marked_len(b, mb);
    assert(ma.take(a.len() as int) == ma);
    assert(mb.take(b.len() as int) == mb);
}

proof fn mismatches_bound(x: Seq<char>, y: Seq<char>)
    ensures
        mismatches(x, y) <= x.len(),
    decreases x.len(),
{
    if x.len() > 0 && y.len() > 0 {
        mismatches_bound(x.drop_last(), y.drop_last());
    }
}

/// A count that was taken to a double is no smaller than one, no larger than
/// the limit of the machine, and keeps its place among other counts.
proof fn counts_stay(n: nat, c: nat, more: nat, d: nat)
    requires
        1 <= n <= more <= u64::MAX,
        c * ONE as nat == nearest(n, 1),
        d * ONE as nat == nearest(more, 1),
    ensures
        1 <= c <= d <= 0x1_0000_0000_0000_0000,
        is_double(c * ONE as nat),
{
    let one = ONE as nat;
    one_is_a_power();
    small_mantissas(1, 120);
    exact(1, 1, one);
    rounding_keeps_order(1, n, 1);
    rounding_keeps_order(n, more, 1);
    let top: nat = 0x1_0000_0000_0000_0000;
    small_mantissas(1, 184);
    assert(pow2(184) == top * one) by {
        vstd::arithmetic::power2::lemma_pow2_adds(64, 120);
    }
    assert(more * one <= top * one * 1) by (nonlinear_arith)
        requires
            more <= top,
    ;
    at_most(more, 1, top * one);
    rounded_is_double(n, 1);
    assert(1 <= c <= d <= top) by (nonlinear_arith)
        requires
            one <= c * one,
            c * one <= d * one,
            d * one <= top * one,
            one > 0,
    ;
}

/// Half of a count is exact.
proof fn halves_are_exact(t: nat, c: nat)
    requires
        c * ONE as nat == nearest(t, 1),
    ensures
        2 * nearest(nearest(t, 1), 2 * ONE as nat) == c * ONE as nat,
{
    let one = ONE as nat;
    let n = c * one;
    one_is_a_power();
    assert(n * 2 == c * (2 * one)) by (nonlinear_arith)
        requires
            n == c * one,
    ;
    same_value(n, 2 * one, c, 2);
    if c == 0 {
        small_mantissas(0, 0);
        exact(0, 2, 0);
    } else {
        assert((c * one) / 2 >= 0x10_0000_0000_0000) by (nonlinear_arith)
            requires
                c >= 1,
                one == 0x0100_0000_0000_0000_0000_0000_0000_0000int,
        ;
        doubled(c, 2);
        same_value(2 * c, 2, n, one);
        rounded_is_double(t, 1);
        exact(n, one, n);
    }
}

/// The matches that need no transposing, as a share: half a count of them to
/// the count of matches.
proof fn ordered_share(m: nat, t: nat, c: nat, h: nat, w: nat)
    requires
        1 <= m <= u64::MAX,
        t <= m,
        c * ONE as nat == nearest(m, 1),
        h * ONE as nat == nearest(t, 1),
        h <= 2 * c,
        w * ONE as nat == nearest((2 * c - h) as nat, 1),
    ensures
        h <= c,
        w <= 2 * c,
        nearest(
            nearest((nearest(m, 1) - nearest(nearest(t, 1), 2 * ONE as nat)) as nat, ONE as nat),
            nearest(m, 1),
        ) == nearest(w, 2 * c),
{
    let one = ONE as nat;
    counts_stay(m, c, m, c);
    rounding_keeps_order(t, m, 1);
    assert(h <= c) by (nonlinear_arith)
        requires
            h * one <= c * one,
            one > 0,
    ;
    halves_are_exact(t, h);
    let k = (2 * c - h) as nat;
    let half = nearest(nearest(t, 1), 2 * one);
    let diff = (c * one - half) as nat;
    assert(diff * 2 == k * one) by (nonlinear_arith)
        requires
            2 * half == h * one,
            diff == c * one - half,
            k == 2 * c - h,
    ;
    same_value(diff, one, k, 2);
    assert((k * one) / 2 >= 0x10_0000_0000_0000) by (nonlinear_arith)
        requires
            k >= 1,
            one == 0x0100_0000_0000_0000_0000_0000_0000_0000int,
    ;
    doubled(k, 2);
    same_value(2 * k, 2, k, 1);
    let u = nearest(k, 2);
    assert(2 * u == w * one);
    assert(u * (2 * c) == w * (c * one)) by (nonlinear_arith)
        requires
            2 * u == w * one,
    ;
    assert(c * one > 0) by (nonlinear_arith)
        requires
            c >= 1,
            one > 0,
    ;
    same_value(u, c * one, w, 2 * c);
    one_is_a_power();
    double_scales(c * one, 1);
    assert(pow2(1) == 2) by {
        vstd::arithmetic::power2::lemma2_to64();
    }
    let top = 2 * (c * one);
    assert(k * one <= top * 1) by (nonlinear_arith)
        requires
            k <= 2 * c,
            top == 2 * (c * one),
    ;
    at_most(k, 1, top);
    assert(w <= 2 * c) by (nonlinear_arith)
        requires
            w * one <= 2 * (c * one),
            one > 0,
    ;
}

/// The mean of three shares, in double arithmetic.
fn mean(m: u64, t: u64, la: u64, lb: u64) -> (r: u128)
    requires
        1 <= m <= la,
        m <= lb,
        t <= m,
    ensures
        r == mean_share(m as nat, t as nat, la as nat, lb as nat),
        r <= ONE,
        is_double(r as nat),
{
    let c: u128 = count(m as u128);
    let h: u128 = count(t as u128);
    let ca: u128 = count(la as u128);
    let cb: u128 = count(lb as u128);
    let ghost one = ONE as nat;
    proof {
        counts_stay(m as nat, c as nat, la as nat, ca as nat);
        counts_stay(m as nat, c as nat, lb as nat, cb as nat);
        rounding_keeps_order(t as nat, m as nat, 1);
        assert(h <= c) by (nonlinear_arith)
            requires
                h * one <= c * one,
                one > 0,
        ;
        let (ci, ai, bi) = (c as nat, ca as nat, cb as nat);
        assert(ci * (ai * one) == (ci * one) * ai && ai * one > 0) by (nonlinear_arith)
            requires
                ai >= 1,
                one > 0,
        ;
        assert(ci * (bi * one) == (ci * one) * bi && bi * one > 0) by (nonlinear_arith)
            requires
                bi >= 1,
                one > 0,
        ;
        same_value(ci, ai, ci * one, ai * one);
        same_value(ci, bi, ci * one, bi * one);
        one_is_a_power();
        small_mantissas(2, 120);
        small_mantissas(3, 120);
        small_mantissas(1, 120);
    }
    let of_a: u128 = ratio(c, ca);
    let of_b: u128 = ratio(c, cb);
    let both: u128 = to_double(of_a + of_b);
    let w: u128 = count(2 * c - h);
    proof {
        ordered_share(m as nat, t as nat, c as nat, h as nat, w as nat);
        assert((of_a + of_b) * one <= 2 * one * one) by (nonlinear_arith)
            requires
                of_a + of_b <= 2 * one,
        ;
        at_most((of_a + of_b) as nat, one, 2 * one);
    }
    let ordered: u128 = ratio(w, 2 * c);
    let sum: u128 = to_double(both + ordered);
    proof {
        assert((both + ordered) * one <= 3 * one * one) by (nonlinear_arith)
            requires
                both + ordered <= 3 * one,
        ;
        at_most((both + ordered) as nat, one, 3 * one);
        assert(sum * one <= one * (3 * one)) by (nonlinear_arith)
            requires
                sum <= 3 * one,
        ;
        at_most(sum as nat, 3 * one, one);
        rounded_is_double(sum as nat, 3 * one);
    }
    share(sum, 3)
}

fn mark_matches(a: &Vec<char>, b: &Vec<char>) -> (r: (Vec<bool>, Vec<bool>))
    ensures
        (r.0@, r.1@) == matching(a@, b@, a@.len()),
{
    let longer: usize = if a.len() > b.len() {
        a.len()
    } else {
        b.len()
    };
    let half: usize = longer / 2;
    let w: usize = if half > 0 {
        half - 1
    } else {
        0
    };
    let mut ma: Vec<bool> = Vec::new();
    ma.resize(a.len(), false);
    let mut mb: Vec<bool> = Vec::new();
    mb.resize(b.len(), false);
    assert(ma@ == Seq::new(a@.len(), |k: int| false));
    assert(mb@ == Seq::new(b@.len(), |k: int| false));
    let mut i: usize = 0;
    while i < a.len()
        invariant
            i <= a.len(),
            w == window(a@.len(), b@.len()),
            (ma@, mb@) == matching(a@, b@, i as nat),
            ma@.len() == a@.len(),
            mb@.len() == b@.len(),
        decreases a.len() - i,
    {
        let lo: usize = if i > w {
            i - w
        } else {
            0
        };
        let hi: usize = if i < b.len() && w < b.len() - i - 1 {
            i + w + 1
        } else {
            b.len()
        };
        let ghost g_lo = window_lo(i as nat, w as nat);
        let ghost g_hi = window_hi(i as nat, w as nat, b@.len());
        let mut j: usize = lo;
        while j < hi && (mb[j] || b[j] != a[i])
            invariant
                lo <= j,
                j <= hi || lo > hi,
                hi <= b.len(),
                mb@.len() == b@.len(),
                i < a.len(),
                forall|k: int| lo <= k < j ==> mb@[k] || b@[k] != a@[i as int],
            decreases hi - j,
        {
            j = j + 1;
        }
        proof {
            if lo <= hi {
                first_free_is(b@, mb@, a@[i as int], g_lo, g_hi, j as nat);
            }
        }
        if j < hi {
            ma.set(i, true);
            mb.set(j, true);
        }
        i = i + 1;
    }
    (ma, mb)
}

fn marked_chars(s: &Vec<char>, marks: &Vec<bool>) -> (r: Vec<char>)
    requires
        s.len() <= marks.len(),
    ensures
        r@ == marked(s@, marks@),
{
    let mut out: Vec<char> = Vec::new();
    let mut i: usize = 0;
    while i < s.len()
        invariant
            i <= s.len() <= marks.len(),
            out@ == marked(s@.take(i as int), marks@),
        decreases s.len() - i,
    {
        assert(s@.take(i + 1).drop_last() == s@.take(i as int));
        if marks[i] {
            out.push(s[i]);
        }
        i = i + 1;
    }
    assert(s@.take(s.len() as int) == s@);
    out
}

fn count_mismatches(x: &Vec<char>, y: &Vec<char>) -> (r: usize)
    requires
        x.len() == y.len(),
    ensures
        r == mismatches(x@, y@),
        r <= x.len(),
{
    let mut n: usize = 0;
    let mut i: usize = 0;
    while i < x.len()
        invariant
            i <= x.len(),
            x.len() == y.len(),
            n <= i,
            n == mismatches(x@.take(i as int), y@.take(i as int)),
        decreases x.len() - i,
    {
        assert(x@.take(i + 1).drop_last() == x@.take(i as int));
        assert(y@.take(i + 1).drop_last() == y@.take(i as int));
        if x[i] != y[i] {
            n = n + 1;
        }
        i = i + 1;
    }
    assert(x@.take(x.len() as int) == x@);
    assert(y@.take(y.len() as int) == y@);
    n
}

/// Jaro similarity of two texts, as a double.
pub fn jaro(a: &str, b: &str) -> (r: u128)
    ensures
        r == jaro_score(a@, b@),
        r <= ONE,
        is_double(r as nat),
{
    let ac = to_chars(a);
    let bc = to_chars(b);
    proof {
        one_is_a_power();
        small_mantissas(1, 120);
        small_mantissas(0, 0);
    }
    if ac.len() == 0 && bc.len() == 0 {
        return ONE;
    }
    let (ma, mb) = mark_matches(&ac, &bc);
    proof {
        matched_is_even(a@, b@);
        matching_is_even(a@, b@, a@.len());
    }
    let x = marked_chars(&ac, &ma);
    let y = marked_chars(&bc, &mb);
    if x.len() == 0 {
        return 0;
    }
    let t = count_mismatches(&x, &y);
    mean(x.len() as u64, t as u64, ac.len() as u64, bc.len() as u64)
}

/// Take a similarity on by a common prefix.
fn boost(j: u128, p: u64) -> (r: u128)
    requires
        PREFIX_THRESHOLD < j <= ONE,
        is_double(j as nat),
        p <= 4,
    ensures
        r == boosted(j as nat, p as nat),
        r <= ONE,
{
    let ghost one = ONE as nat;
    let ghost tenth = PREFIX_WEIGHT as nat;
    let ghost n = p as nat * tenth;
    let weight: u128 = to_double(p as u128 * PREFIX_WEIGHT);
    let rest: u128 = to_double(ONE - j);
    proof {
        one_is_a_power();
        vstd::arithmetic::power2::lemma2_to64();
        vstd::arithmetic::power2::lemma2_to64_rest();
        vstd::arithmetic::power2::lemma_pow2_adds(64, 52);
        vstd::arithmetic::power2::lemma_pow2_adds(60, 59);
        // The weight is a multiple of the steps between doubles of its size.
        if p == 0 {
            small_mantissas(0, 0);
            exact(0, one, 0);
        } else {
            small_mantissas(0x19_9999_9999_999a, 64);
            exact(tenth, one, tenth);
            assert(tenth <= n) by (nonlinear_arith)
                requires
                    n == p as nat * tenth,
                    p >= 1,
            ;
            rounding_keeps_order(tenth, n, one);
            rounded_is_double(n, one);
            large_doubles(weight as nat, 64);
        }
        small_mantissas(1, 119);
        assert(n <= pow2(119)) by (nonlinear_arith)
            requires
                n == p as nat * tenth,
                p <= 4,
                4 * tenth <= pow2(119),
        ;
        assert(n * one <= pow2(119) * one) by (nonlinear_arith)
            requires
                n <= pow2(119),
        ;
        at_most(n, one, pow2(119));
        // So is the way that is left, which is exact.
        large_doubles(j as nat, 67);
        let left = (one - j) as nat;
        let m = left / 0x8_0000_0000_0000_0000;
        assert(left == pow2(67) * m);
        small_mantissas(m, 67);
        exact(left, one, left);
        assert(rest == left);
        // The boost stays within it.
        let b = rest as nat;
        assert((weight as nat * b) * one <= b * (one * one)) by (nonlinear_arith)
            requires
                weight <= one,
        ;
        assert(one * one > 0) by (nonlinear_arith)
            requires
                one > 0,
        ;
        at_most(weight as nat * b, one * one, b);
    }
    let more: u128 = product(weight, rest);
    proof {
        small_mantissas(1, 120);
        assert((j + more) * one <= one * one) by (nonlinear_arith)
            requires
                j + more <= one,
        ;
        at_most((j + more) as nat, one, one);
    }
    to_double(j + more)
}

/// Jaro-Winkler similarity of two already-normalised texts, as a double.
///
/// Winkler's prefix bonus is what makes this the right metric for catalogue
/// text: the informative part of an artist or album name is at the front, and
/// the noise is at the back.
pub fn jaro_winkler(a: &str, b: &str) -> (r: u128)
    ensures
        r == winkler_score(a@, b@),
        r <= ONE,
{
    let j = jaro(a, b);
    // Winkler's own condition. Below it the strings are different enough that
    // a shared prefix is coincidence, and boosting would only blur the test.
    if j <= PREFIX_THRESHOLD {
        return j;
    }
    let ac = to_chars(a);
    let bc = to_chars(b);
    let mut p: usize = 0;
    while p < 4 && p < ac.len() && p < bc.len() && ac[p] == bc[p]
        invariant
            p <= 4,
            ac@ == a@,
            bc@ == b@,
            common_prefix(a@, b@, p as nat) == common_prefix(a@, b@, 0),
        decreases 4 - p,
    {
        p = p + 1;
    }
    boost(j, p as u64)
}

// --- scores ---------------------------------------------------------------

/// Whether a word is a number, in digits or as a roman numeral.
pub open spec fn is_numeral(t: Seq<char>) -> bool {
    t.len() > 0 && (all_of_digits(t) || all_of_roman(t))
}

pub open spec fn all_of_digits(t: Seq<char>) -> bool {
    forall|i: int| 0 <= i < t.len() ==> is_digit(#[trigger] t[i])
}

pub open spec fn is_roman(c: char) -> bool {
    c == 'i' || c == 'v' || c == 'x' || c == 'l' || c == 'c' || c == 'd' || c == 'm'
}

pub open spec fn all_of_roman(t: Seq<char>) -> bool {
    forall|i: int| 0 <= i < t.len() ==> is_roman(#[trigger] t[i])
}

/// Numeric and roman-numeral words, in order.
pub open spec fn numerals(words: Seq<Seq<char>>) -> Seq<Seq<char>>
    decreases words.len(),
{
    if words.len() == 0 {
        Seq::empty()
    } else if is_numeral(words.last()) {
        numerals(words.drop_last()).push(words.last())
    } else {
        numerals(words.drop_last())
    }
}

fn numeral(t: &str) -> (r: bool)
    ensures
        r == is_numeral(t@),
{
    let c = to_chars(t);
    if c.len() == 0 {
        return false;
    }
    let mut digits: bool = true;
    let mut roman: bool = true;
    let mut i: usize = 0;
    while i < c.len()
        invariant
            i <= c.len(),
            digits == all_of_digits(c@.take(i as int)),
            roman == all_of_roman(c@.take(i as int)),
        decreases c.len() - i,
    {
        let x = c[i];
        let ghost was = c@.take(i as int);
        let ghost now = c@.take(i + 1);
        assert(now == was.push(x));
        assert(all_of_digits(now) == (all_of_digits(was) && is_digit(x))) by {
            if all_of_digits(now) {
                assert forall|k: int| 0 <= k < was.len() implies is_digit(#[trigger] was[k]) by {
                    assert(is_digit(now[k]));
                }
                assert(is_digit(now[i as int]));
            }
        }
        assert(all_of_roman(now) == (all_of_roman(was) && is_roman(x))) by {
            if all_of_roman(now) {
                assert forall|k: int| 0 <= k < was.len() implies is_roman(#[trigger] was[k]) by {
                    assert(is_roman(now[k]));
                }
                assert(is_roman(now[i as int]));
            }
        }
        digits = digits && '0' <= x && x <= '9';
        roman = roman && (x == 'i' || x == 'v' || x == 'x' || x == 'l' || x == 'c' || x == 'd'
            || x == 'm');
        i = i + 1;
    }
    assert(c@.take(c.len() as int) == c@);
    digits || roman
}

/// Numeric and roman-numeral words, in order.
pub fn numbers(s: &str) -> (r: Vec<String>)
    ensures
        texts(r@) == numerals(pieces(s@, ' ')),
{
    let words = split(&to_chars(s), ' ');
    let ghost all = texts(words@);
    let mut out: Vec<String> = Vec::new();
    let mut i: usize = 0;
    assert(texts(out@) == numerals(all.take(0)));
    while i < words.len()
        invariant
            i <= words.len(),
            all == texts(words@),
            texts(out@) == numerals(all.take(i as int)),
        decreases words.len() - i,
    {
        assert(all.take(i + 1).drop_last() == all.take(i as int));
        assert(all.take(i + 1).last() == words@[i as int]@);
        if numeral(words[i].as_str()) {
            let ghost before = out@;
            out.push(words[i].clone());
            assert(texts(out@) == texts(before).push(words@[i as int]@));
        }
        i = i + 1;
    }
    assert(all.take(all.len() as int) == all);
    out
}

fn same_list(a: &Vec<String>, b: &Vec<String>) -> (r: bool)
    ensures
        r == (texts(a@) == texts(b@)),
{
    if a.len() != b.len() {
        assert(texts(a@).len() != texts(b@).len());
        return false;
    }
    let mut i: usize = 0;
    while i < a.len()
        invariant
            i <= a.len(),
            a.len() == b.len(),
            forall|k: int| 0 <= k < i ==> (#[trigger] a@[k])@ == b@[k]@,
        decreases a.len() - i,
    {
        if !same(a[i].as_str(), b[i].as_str()) {
            assert(texts(a@)[i as int] != texts(b@)[i as int]);
            return false;
        }
        i = i + 1;
    }
    assert(texts(a@) == texts(b@));
    true
}

/// Jaro-Winkler with a veto on disagreeing numbers, as a double.
pub open spec fn score_of(a: Seq<char>, b: Seq<char>) -> nat {
    if numerals(pieces(a, ' ')) != numerals(pieces(b, ' ')) {
        0
    } else {
        winkler_score(a, b)
    }
}

/// Jaro-Winkler with a veto on disagreeing numbers, as a double.
///
/// Jaro-Winkler's blind spot is a short token appended to a long string:
/// "trainspotting" against "trainspotting 2" scores 0.97. Those are different
/// records. A volume number is never a typo, so a disagreement about numbers
/// is decisive rather than a small penalty.
///
/// The cost is a missed upgrade when a catalogue writes "Vol. 2" and the
/// sender writes "Volume Two": the failure lands on the safe side.
pub fn similarity(a: &str, b: &str) -> (r: u128)
    ensures
        r == score_of(a@, b@),
        r <= ONE,
{
    if !same_list(&numbers(a), &numbers(b)) {
        return 0;
    }
    jaro_winkler(a, b)
}

/// How well a candidate's artist and album match what is playing: doubles, in
/// parts of [`ONE`].
#[derive(Debug, Clone, Copy, PartialEq, Eq, Structural)]
pub struct Scores {
    pub artist: u128,
    pub album: u128,
}

/// A number of hundredths, with two decimals.
pub open spec fn cents_text(cents: nat) -> Seq<char> {
    decimal(cents / 100) + "."@ + seq![digit(cents / 10 % 10), digit(cents % 10)]
}

/// Write a number of hundredths with two decimals.
pub fn write_cents(cents: u64) -> (r: String)
    ensures
        r@ == cents_text(cents as nat),
{
    let mut out = to_decimal(cents / 100);
    out.append(".");
    let tens = to_decimal(cents / 10 % 10);
    let ones = to_decimal(cents % 10);
    let ghost head = out@;
    out.append(tens.as_str());
    out.append(ones.as_str());
    assert(out@ == head + seq![digit((cents as nat) / 10 % 10), digit((cents as nat) % 10)]);
    out
}

/// A number of parts of one with two decimals, to the nearest hundredth,
/// halves to the even one.
pub open spec fn two_decimals(parts: nat) -> Seq<char> {
    cents_text(half_even(parts * 100, ONE as nat))
}

/// Write a number of parts of one with two decimals.
pub fn hundredths(parts: u128) -> (r: String)
    requires
        parts <= ONE,
    ensures
        r@ == two_decimals(parts as nat),
{
    let low: u128 = parts * 100 / ONE;
    let rest: u128 = parts * 100 % ONE;
    let cents: u128 = if 2 * rest > ONE || (2 * rest == ONE && low % 2 == 1) {
        low + 1
    } else {
        low
    };
    write_cents(cents as u64)
}

impl Scores {
    /// Whether both similarities are at most one.
    pub open spec fn valid(self) -> bool {
        self.artist <= ONE && self.album <= ONE
    }

    /// The similarities of what is playing and a candidate.
    pub open spec fn compared(
        want_artist: Seq<char>,
        want_album: Seq<char>,
        got_artist: Seq<char>,
        got_album: Seq<char>,
    ) -> Scores {
        Scores {
            artist: score_of(normalised(want_artist), normalised(got_artist)) as u128,
            album: score_of(normalised(want_album), normalised(got_album)) as u128,
        }
    }

    /// How well a candidate matches what is playing.
    pub fn compare(
        want_artist: &str,
        want_album: &str,
        got_artist: &str,
        got_album: &str,
    ) -> (r: Scores)
        ensures
            r == Scores::compared(want_artist@, want_album@, got_artist@, got_album@),
            r.artist == score_of(normalised(want_artist@), normalised(got_artist@)),
            r.album == score_of(normalised(want_album@), normalised(got_album@)),
            r.valid(),
    {
        let a = normalise(want_artist);
        let b = normalise(want_album);
        let c = normalise(got_artist);
        let d = normalise(got_album);
        Scores {
            artist: similarity(a.as_str(), c.as_str()),
            album: similarity(b.as_str(), d.as_str()),
        }
    }

    /// Both similarities together, as a double.
    pub open spec fn sum(self) -> nat {
        nearest((self.artist + self.album) as nat, ONE as nat)
    }

    /// Both similarities together.
    pub fn total(&self) -> (r: u128)
        requires
            self.valid(),
        ensures
            r == self.sum(),
    {
        to_double(self.artist + self.album)
    }

    pub open spec fn pass(self) -> bool {
        self.artist >= ARTIST_THRESHOLD && self.album >= ALBUM_THRESHOLD
    }

    /// Whether the text gate lets the candidate through.
    pub fn passes(&self) -> (r: bool)
        ensures
            r == self.pass(),
    {
        self.artist >= ARTIST_THRESHOLD && self.album >= ALBUM_THRESHOLD
    }

    pub open spec fn unambiguous(self) -> bool {
        self.artist >= NEAR_EXACT_THRESHOLD && self.album >= NEAR_EXACT_THRESHOLD
    }

    /// Unambiguous enough to trust without a picture.
    pub fn near_exact(&self) -> (r: bool)
        ensures
            r == self.unambiguous(),
    {
        self.artist >= NEAR_EXACT_THRESHOLD && self.album >= NEAR_EXACT_THRESHOLD
    }

    /// How the scores read.
    pub open spec fn text(self) -> Seq<char> {
        "artist "@ + two_decimals(self.artist as nat) + " album "@ + two_decimals(
            self.album as nat,
        )
    }

    /// How the scores read.
    pub fn to_string(&self) -> (r: String)
        requires
            self.valid(),
        ensures
            r@ == self.text(),
    {
        let mut out: String = "artist ".to_owned();
        out.append(hundredths(self.artist).as_str());
        out.append(" album ");
        out.append(hundredths(self.album).as_str());
        out
    }
}

// --- laws -----------------------------------------------------------------

/// What the folding table holds.
proof fn table_texts()
    ensures
        "a"@ == seq!['a'],
        "ae"@ == seq!['a', 'e'],
        "c"@ == seq!['c'],
        "d"@ == seq!['d'],
        "e"@ == seq!['e'],
        "g"@ == seq!['g'],
        "h"@ == seq!['h'],
        "i"@ == seq!['i'],
        "ij"@ == seq!['i', 'j'],
        "j"@ == seq!['j'],
        "k"@ == seq!['k'],
        "l"@ == seq!['l'],
        "n"@ == seq!['n'],
        "o"@ == seq!['o'],
        "oe"@ == seq!['o', 'e'],
        "r"@ == seq!['r'],
        "s"@ == seq!['s'],
        "ss"@ == seq!['s', 's'],
        "t"@ == seq!['t'],
        "th"@ == seq!['t', 'h'],
        "u"@ == seq!['u'],
        "w"@ == seq!['w'],
        "y"@ == seq!['y'],
        "z"@ == seq!['z'],
        " and "@ == seq![' ', 'a', 'n', 'd', ' '],
{
    reveal_strlit("a");
    reveal_strlit("ae");
    reveal_strlit("c");
    reveal_strlit("d");
    reveal_strlit("e");
    reveal_strlit("g");
    reveal_strlit("h");
    reveal_strlit("i");
    reveal_strlit("ij");
    reveal_strlit("j");
    reveal_strlit("k");
    reveal_strlit("l");
    reveal_strlit("n");
    reveal_strlit("o");
    reveal_strlit("oe");
    reveal_strlit("r");
    reveal_strlit("s");
    reveal_strlit("ss");
    reveal_strlit("t");
    reveal_strlit("th");
    reveal_strlit("u");
    reveal_strlit("w");
    reveal_strlit("y");
    reveal_strlit("z");
    reveal_strlit(" and ");
}

/// Every letter of Latin-1 and of Latin Extended-A folds to one or two small
/// ASCII letters.
pub proof fn latin_letters_fold(c: char)
    requires
        '\u{c0}' <= c < '\u{180}',
        c != '\u{d7}' && c != '\u{f7}',
    ensures
        1 <= folded(c).len() <= 2,
        forall|i: int| 0 <= i < folded(c).len() ==> 'a' <= #[trigger] folded(c)[i] <= 'z',
{
    table_texts();
}

/// Every character that is neither such a letter, nor `&`, nor a curly quote
/// or a long dash folds to itself.
pub proof fn other_characters_stay(c: char)
    requires
        is_plain(c) || c >= '\u{180}',
        c != '&',
        c != '\u{2018}' && c != '\u{2019}' && c != '\u{201C}' && c != '\u{201D}',
        c != '\u{2013}' && c != '\u{2014}',
    ensures
        folded(c) == seq![c],
{
}

/// What folding leaves of the Latin scripts.
spec fn all_plain(s: Seq<char>) -> bool {
    forall|i: int| 0 <= i < s.len() ==> is_plain(#[trigger] s[i])
}

proof fn folding_is_plain(s: Seq<char>)
    requires
        forall|i: int| 0 <= i < s.len() ==> #[trigger] s[i] < '\u{180}',
    ensures
        all_plain(fold_text(s)),
    decreases s.len(),
{
    if s.len() > 0 {
        let c = s.last();
        folding_is_plain(s.drop_last());
        table_texts();
        if is_plain(c) {
            if c != '&' {
                other_characters_stay(c);
            }
        } else {
            latin_letters_fold(c);
        }
    }
}

proof fn groups_are_plain(s: Seq<char>)
    requires
        all_plain(s),
    ensures
        all_plain(bracketed(s).out),
        all_plain(bracketed(s).group),
    decreases s.len(),
{
    if s.len() > 0 {
        groups_are_plain(s.drop_last());
        assert(is_plain(s[s.len() - 1]));
    }
}

proof fn stripping_is_plain(s: Seq<char>)
    requires
        all_plain(s),
    ensures
        all_plain(stripped(s)),
{
    groups_are_plain(s);
    let out = without_groups(s);
    assert(all_plain(out));
    if holds_text(out, " - "@) {
        reveal_strlit(" - ");
        assert(exists|at: int| last_at(out, " - "@, at)) by {
            last_exists(out, " - "@);
        }
        assert(last_at(out, " - "@, last_dash(out)));
    }
}

/// A text that occurs at all has a last occurrence.
proof fn last_exists(s: Seq<char>, needle: Seq<char>)
    requires
        holds_text(s, needle),
    ensures
        exists|at: int| last_at(s, needle, at),
{
    let at = choose|at: int| occurs_at(s, needle, at);
    last_exists_from(s, needle, at);
}

proof fn last_exists_from(s: Seq<char>, needle: Seq<char>, at: int)
    requires
        occurs_at(s, needle, at),
    ensures
        exists|b: int| last_at(s, needle, b),
    decreases s.len() - at,
{
    if exists|b: int| b > at && occurs_at(s, needle, b) {
        let b = choose|b: int| b > at && occurs_at(s, needle, b);
        last_exists_from(s, needle, b);
    } else {
        assert(last_at(s, needle, at));
    }
}

/// A character that a normal form holds besides the space.
spec fn is_kept(c: char) -> bool {
    is_plain(c) && alphanumeric(c) && char_lower(c) == seq![c]
}

/// Words of such characters, one space between them and none in front.
spec fn is_tidy(s: Seq<char>) -> bool {
    &&& forall|i: int| 0 <= i < s.len() ==> #[trigger] s[i] == ' ' || is_kept(s[i])
    &&& s.len() > 0 ==> s[0] != ' '
    &&& forall|i: int| 0 < i < s.len() && #[trigger] s[i] == ' ' ==> s[i - 1] != ' '
}

proof fn collapsing_tidies(s: Seq<char>)
    requires
        all_plain(s),
    ensures
        is_tidy(collapsed(s).0),
        collapsed(s).1 == (collapsed(s).0.len() > 0 && collapsed(s).0.last() == ' '),
    decreases s.len(),
{
    if s.len() > 0 {
        collapsing_tidies(s.drop_last());
        let (out, space) = collapsed(s.drop_last());
        let c = s.last();
        assert(is_plain(s[s.len() - 1]));
        if alphanumeric(c) {
            let l = ascii_lower_char(c);
            assert(char_lower(c) == seq![l]);
            assert(is_kept(l));
            assert(out + char_lower(c) == out.push(l));
        }
    }
}

proof fn tidy_stays(s: Seq<char>)
    requires
        is_tidy(s),
    ensures
        collapsed(s) == (s, s.len() > 0 && s.last() == ' '),
    decreases s.len(),
{
    if s.len() > 0 {
        let head = s.drop_last();
        let c = s.last();
        assert forall|i: int| 0 < i < head.len() && #[trigger] head[i] == ' ' implies head[i - 1]
            != ' ' by {
            assert(s[i] == ' ');
        }
        assert forall|i: int| 0 <= i < head.len() implies #[trigger] head[i] == ' ' || is_kept(
            head[i],
        ) by {
            assert(s[i] == ' ' || is_kept(s[i]));
        }
        tidy_stays(head);
        assert(s == head.push(c));
        assert(s[s.len() - 1] == ' ' || is_kept(s[s.len() - 1]));
        if c == ' ' {
            assert(head.len() > 0);
            assert(s[s.len() - 2] == head.last());
        } else {
            assert(head + seq![c] == s);
        }
    }
}

proof fn tidy_folds_to_itself(s: Seq<char>)
    requires
        is_tidy(s),
    ensures
        fold_text(s) == s,
        bracketed(s).out == s,
        bracketed(s).depth == 0,
    decreases s.len(),
{
    if s.len() > 0 {
        let head = s.drop_last();
        let c = s.last();
        assert(s[s.len() - 1] == ' ' || is_kept(s[s.len() - 1]));
        assert forall|i: int| 0 < i < head.len() && #[trigger] head[i] == ' ' implies head[i - 1]
            != ' ' by {
            assert(s[i] == ' ');
        }
        assert forall|i: int| 0 <= i < head.len() implies #[trigger] head[i] == ' ' || is_kept(
            head[i],
        ) by {
            assert(s[i] == ' ' || is_kept(s[i]));
        }
        tidy_folds_to_itself(head);
        other_characters_stay(c);
        assert(head + seq![c] == s);
        assert(head.push(c) == s);
    } else {
        assert(fold_text(s) == s);
        assert(bracketed(s).out == s);
    }
}

proof fn trimming_cuts(s: Seq<char>)
    ensures
        trimmed_end(s).len() <= s.len(),
        trimmed_end(s) == s.take(trimmed_end(s).len() as int),
        trimmed_end(trimmed_end(s)) == trimmed_end(s),
    decreases s.len(),
{
    if s.len() > 0 && is_white(s.last()) {
        trimming_cuts(s.drop_last());
        let n = trimmed_end(s).len() as int;
        assert(s.drop_last().take(n) == s.take(n));
    } else {
        assert(s.take(s.len() as int) == s);
    }
}

/// A normal form is its own normal form, for every text of Latin letters: of
/// Latin-1 and of Latin Extended-A. (Beyond them a capital can have a small
/// letter that folds.)
pub proof fn normalising_is_stable(s: Seq<char>)
    requires
        forall|i: int| 0 <= i < s.len() ==> #[trigger] s[i] < '\u{180}',
    ensures
        normalised(normalised(s)) == normalised(s),
{
    let t = stripped(fold_text(s));
    folding_is_plain(s);
    stripping_is_plain(fold_text(s));
    collapsing_tidies(t);
    let out = collapsed(t).0;
    let n = normalised(s);
    trimming_cuts(out);
    assert(n == out.take(n.len() as int));
    assert(is_tidy(n)) by {
        assert forall|i: int| 0 < i < n.len() && #[trigger] n[i] == ' ' implies n[i - 1] != ' ' by {
            assert(out[i] == ' ');
        }
        assert forall|i: int| 0 <= i < n.len() implies #[trigger] n[i] == ' ' || is_kept(n[i]) by {
            assert(out[i] == ' ' || is_kept(out[i]));
        }
    }
    tidy_folds_to_itself(n);
    assert(without_groups(n) == n);
    assert(!holds_text(n, " - "@)) by {
        reveal_strlit(" - ");
        if holds_text(n, " - "@) {
            let at = choose|at: int| occurs_at(n, " - "@, at);
            assert(n.subrange(at, at + 3)[1] == ' ' || is_kept(n[at + 1]));
            assert(" - "@[1] == '-');
        }
    }
    assert(stripped(n) == n);
    tidy_stays(n);
}

/// A disagreement about numbers is decisive: such a candidate never passes.
pub proof fn numbers_are_decisive(a: Seq<char>, b: Seq<char>, s: Scores)
    requires
        numerals(pieces(a, ' ')) != numerals(pieces(b, ' ')),
        s.artist == score_of(a, b) || s.album == score_of(a, b),
    ensures
        !s.pass(),
        !s.unambiguous(),
{
}

/// What may skip the perceptual gate has passed the text gate.
pub proof fn unambiguous_scores_pass(s: Scores)
    requires
        s.unambiguous(),
    ensures
        s.pass(),
{
}

/// Every character of a text matches itself in place.
proof fn matching_itself(a: Seq<char>, i: nat)
    requires
        i <= a.len(),
    ensures
        forall|k: int|
            0 <= k < a.len() ==> matching(a, a, i).0[k] == (k < i) && matching(a, a, i).1[k] == (k
                < i),
        matching(a, a, i).0.len() == a.len(),
        matching(a, a, i).1.len() == a.len(),
    decreases i,
{
    if i > 0 {
        let p = (i - 1) as nat;
        matching_itself(a, p);
        let (ma, mb) = matching(a, a, p);
        let w = window(a.len(), a.len());
        let lo = window_lo(p, w);
        let hi = window_hi(p, w, a.len());
        assert forall|k: int| lo <= k < p implies mb[k] || a[k] != a[i - 1] by {
            assert(mb[k] == (k < p));
        }
        assert(mb[p as int] == (p < p));
        first_free_is(a, mb, a[i - 1], lo, hi, p);
    }
}

proof fn all_marked(s: Seq<char>, marks: Seq<bool>)
    requires
        s.len() <= marks.len(),
        forall|k: int| 0 <= k < s.len() ==> marks[k],
    ensures
        marked(s, marks) == s,
    decreases s.len(),
{
    if s.len() > 0 {
        all_marked(s.drop_last(), marks);
    }
}

proof fn no_mismatches(s: Seq<char>)
    ensures
        mismatches(s, s) == 0,
    decreases s.len(),
{
    if s.len() > 0 {
        no_mismatches(s.drop_last());
    }
}

/// Equal texts are as similar as can be: two names that normalise alike pass
/// both gates on text.
pub proof fn equal_texts_score_one(a: Seq<char>)
    ensures
        score_of(a, a) == ONE,
{
    let one = ONE as nat;
    one_is_a_power();
    small_mantissas(1, 120);
    small_mantissas(2, 120);
    small_mantissas(3, 120);
    small_mantissas(0, 0);
    if a.len() > 0 {
        matching_itself(a, a.len());
        let (ma, mb) = matching(a, a, a.len());
        all_marked(a, ma);
        all_marked(a, mb);
        no_mismatches(a);
        let m = nearest(a.len(), 1);
        exact(1, 1, one);
        rounding_keeps_order(1, a.len(), 1);
        exact(m, m, one);
        assert(2 * one * one == (2 * one) * one);
        exact(2 * one, one, 2 * one);
        exact(0, 1, 0);
        exact(0, 2 * one, 0);
        rounded_is_double(a.len(), 1);
        exact(m, one, m);
        exact(3 * one, one, 3 * one);
        assert((3 * one) * one == one * (3 * one)) by (nonlinear_arith);
        exact(3 * one, 3 * one, one);
        assert(jaro_score(a, a) == one);
    }
    let p = common_prefix(a, a, 0);
    let weight = nearest(p * PREFIX_WEIGHT as nat, one);
    exact(0, one, 0);
    assert(weight * 0 == 0);
    assert(one * one > 0) by (nonlinear_arith)
        requires
            one > 0,
    ;
    exact(0, one * one, 0);
    exact(one, one, one);
}

/// Two spellings that normalise alike are taken for the same record without a
/// look at the picture.
pub proof fn same_normal_form_is_unambiguous(
    want_artist: Seq<char>,
    want_album: Seq<char>,
    got_artist: Seq<char>,
    got_album: Seq<char>,
)
    requires
        normalised(want_artist) == normalised(got_artist),
        normalised(want_album) == normalised(got_album),
    ensures
        Scores::compared(want_artist, want_album, got_artist, got_album).unambiguous(),
        Scores::compared(want_artist, want_album, got_artist, got_album).pass(),
{
    equal_texts_score_one(normalised(want_artist));
    equal_texts_score_one(normalised(want_album));
}

// --- laws of the qualifiers ----------------------------------------------

/// Whether a text holds no bracket of any kind.
pub open spec fn bare(s: Seq<char>) -> bool {
    forall|i: int|
        0 <= i < s.len() ==> #[trigger] s[i] != '(' && s[i] != '[' && s[i] != '{' && s[i] != ')'
            && s[i] != ']' && s[i] != '}'
}

/// Whether one of some words stands somewhere in a text.
pub open spec fn one_stands_in(words: Seq<Seq<char>>, t: Seq<char>) -> bool {
    exists|i: int, at: int|
        0 <= i < words.len() && 0 <= at && at + words[i].len() <= t.len() && #[trigger] t.subrange(
            at,
            at + words[i].len(),
        ) == words[i]
}

/// A qualifier names an edition if and only if one of these words stands in it,
/// whatever the case of its letters.
pub proof fn editions_have_a_vocabulary(s: Seq<char>)
    ensures
        ({
            let words = seq![
                "deluxe"@,
                "remaster"@,
                "remastered"@,
                "edition"@,
                "explicit"@,
                "clean"@,
                "bonus"@,
                "anniversary"@,
                "expanded"@,
                "reissue"@,
                "special"@,
                "collectors"@,
                "collector"@,
                "limited"@,
                "original recording"@,
                "digitally remastered"@,
                "single version"@,
                "album version"@,
                "mono version"@,
                "stereo version"@,
                "the complete"@,
            ];
            names_edition(s) <==> one_stands_in(words, lowercase(s))
        }),
{
    let words = seq![
        "deluxe"@,
        "remaster"@,
        "remastered"@,
        "edition"@,
        "explicit"@,
        "clean"@,
        "bonus"@,
        "anniversary"@,
        "expanded"@,
        "reissue"@,
        "special"@,
        "collectors"@,
        "collector"@,
        "limited"@,
        "original recording"@,
        "digitally remastered"@,
        "single version"@,
        "album version"@,
        "mono version"@,
        "stereo version"@,
        "the complete"@,
    ];
    let t = lowercase(s);
    if names_edition(s) {
        let i = choose|i: int| 0 <= i < words.len() && holds_text(t, #[trigger] words[i]);
        assert(words[0] == "deluxe"@);
        assert(words[1] == "remaster"@);
        assert(words[2] == "remastered"@);
        assert(words[3] == "edition"@);
        assert(words[4] == "explicit"@);
        assert(words[5] == "clean"@);
        assert(words[6] == "bonus"@);
        assert(words[7] == "anniversary"@);
        assert(words[8] == "expanded"@);
        assert(words[9] == "reissue"@);
        assert(words[10] == "special"@);
        assert(words[11] == "collectors"@);
        assert(words[12] == "collector"@);
        assert(words[13] == "limited"@);
        assert(words[14] == "original recording"@);
        assert(words[15] == "digitally remastered"@);
        assert(words[16] == "single version"@);
        assert(words[17] == "album version"@);
        assert(words[18] == "mono version"@);
        assert(words[19] == "stereo version"@);
        assert(words[20] == "the complete"@);
        assert(0 <= i < words.len() && holds_text(t, words[i]));
        let at = choose|at: int| occurs_at(t, words[i], at);
        assert(t.subrange(at, at + words[i].len()) == words[i]);
    }
    if one_stands_in(words, t) {
        let (i, at) = choose|i: int, at: int|
            0 <= i < words.len() && 0 <= at && at + words[i].len() <= t.len()
                && #[trigger] t.subrange(at, at + words[i].len()) == words[i];
        assert(occurs_at(t, words[i], at));
        assert(holds_text(t, words[i]));
    }
}

proof fn bare_passes(a: Seq<char>)
    requires
        bare(a),
    ensures
        bracketed(a) == (Brackets { out: a, depth: 0, group: Seq::empty() }),
    decreases a.len(),
{
    if a.len() > 0 {
        let b = a.drop_last();
        assert forall|i: int| 0 <= i < b.len() implies #[trigger] b[i] != '(' && b[i] != '['
            && b[i] != '{' && b[i] != ')' && b[i] != ']' && b[i] != '}' by {
            assert(b[i] == a[i]);
        }
        bare_passes(b);
        assert(a[a.len() - 1] == a.last());
        assert(b.push(a.last()) == a);
        assert(bracketed(a) == bracketed(b).step(a.last()));
    } else {
        assert(a == Seq::<char>::empty());
    }
}

proof fn group_is_taken_up(p: Seq<char>, g: Seq<char>)
    requires
        bare(g),
        bracketed(p).depth == 1,
        bracketed(p).group == Seq::<char>::empty(),
    ensures
        bracketed(p + g) == (Brackets { out: bracketed(p).out, depth: 1, group: g }),
    decreases g.len(),
{
    if g.len() == 0 {
        assert(p + g == p);
        assert(g == Seq::<char>::empty());
    } else {
        let h = g.drop_last();
        assert forall|i: int| 0 <= i < h.len() implies #[trigger] h[i] != '(' && h[i] != '['
            && h[i] != '{' && h[i] != ')' && h[i] != ']' && h[i] != '}' by {
            assert(h[i] == g[i]);
        }
        group_is_taken_up(p, h);
        assert((p + g).drop_last() == p + h);
        assert((p + g).last() == g[g.len() - 1]);
        assert(h.push(g.last()) == g);
        assert(bracketed(p + g) == bracketed(p + h).step(g.last()));
    }
}

proof fn groups_go_on(p: Seq<char>, q: Seq<char>, b: Seq<char>)
    requires
        bracketed(p).out == bracketed(q).out,
        bracketed(p).depth == 0,
        bracketed(q).depth == 0,
    ensures
        bracketed(p + b).out == bracketed(q + b).out,
        bracketed(p + b).depth == bracketed(q + b).depth,
        bracketed(p + b).depth > 0 ==> bracketed(p + b).group == bracketed(q + b).group,
    decreases b.len(),
{
    if b.len() == 0 {
        assert(p + b == p);
        assert(q + b == q);
    } else {
        groups_go_on(p, q, b.drop_last());
        assert((p + b).drop_last() == p + b.drop_last());
        assert((q + b).drop_last() == q + b.drop_last());
        assert((p + b).last() == b.last());
        assert((q + b).last() == b.last());
    }
}

/// A group in brackets is left out if and only if it names an edition; any other
/// is a part of the title, and stands there as if it had no brackets.
pub proof fn only_editions_are_stripped(
    a: Seq<char>,
    open: char,
    g: Seq<char>,
    close: char,
    b: Seq<char>,
)
    requires
        bare(a),
        bare(g),
        open == '(' || open == '[' || open == '{',
        close == ')' || close == ']' || close == '}',
    ensures
        ({
            let words = seq![
                "deluxe"@,
                "remaster"@,
                "remastered"@,
                "edition"@,
                "explicit"@,
                "clean"@,
                "bonus"@,
                "anniversary"@,
                "expanded"@,
                "reissue"@,
                "special"@,
                "collectors"@,
                "collector"@,
                "limited"@,
                "original recording"@,
                "digitally remastered"@,
                "single version"@,
                "album version"@,
                "mono version"@,
                "stereo version"@,
                "the complete"@,
            ];
            stripped(a.push(open) + g.push(close) + b) == if one_stands_in(words, lowercase(g)) {
                stripped(a + b)
            } else {
                stripped(a.push(' ') + g + b)
            }
        }),
{
    editions_have_a_vocabulary(g);
    bare_passes(a);
    let p = a.push(open);
    assert(p.drop_last() == a);
    group_is_taken_up(p, g);
    let whole = p + g.push(close);
    assert(whole.drop_last() == p + g);
    assert(whole.last() == close);
    let kept = a.push(' ') + g;
    assert forall|i: int| 0 <= i < kept.len() implies #[trigger] kept[i] != '(' && kept[i] != '['
        && kept[i] != '{' && kept[i] != ')' && kept[i] != ']' && kept[i] != '}' by {
        if i < a.len() {
            assert(kept[i] == a[i]);
        } else if i > a.len() {
            assert(kept[i] == g[i - a.len() - 1]);
        }
    }
    bare_passes(kept);
    if names_edition(g) {
        groups_go_on(whole, a, b);
    } else {
        groups_go_on(whole, kept, b);
    }
}

proof fn folding_is_piecewise(a: Seq<char>, b: Seq<char>)
    ensures
        fold_text(a + b) == fold_text(a) + fold_text(b),
    decreases b.len(),
{
    if b.len() == 0 {
        assert(a + b == a);
        assert(fold_text(a) + fold_text(b) == fold_text(a));
    } else {
        folding_is_piecewise(a, b.drop_last());
        assert((a + b).drop_last() == a + b.drop_last());
        assert(fold_text(a) + fold_text(b.drop_last()) + folded(b.last()) == fold_text(a)
            + fold_text(b));
    }
}

proof fn folding_one(c: char)
    ensures
        fold_text(seq![c]) == folded(c),
{
    assert(seq![c].drop_last() == Seq::<char>::empty());
    assert(fold_text(Seq::<char>::empty()) == Seq::<char>::empty());
    assert(fold_text(seq![c]) == Seq::<char>::empty() + folded(c));
}

proof fn folding_is_bare(s: Seq<char>)
    requires
        bare(s),
    ensures
        bare(fold_text(s)),
    decreases s.len(),
{
    if s.len() > 0 {
        let h = s.drop_last();
        assert forall|i: int| 0 <= i < h.len() implies #[trigger] h[i] != '(' && h[i] != '['
            && h[i] != '{' && h[i] != ')' && h[i] != ']' && h[i] != '}' by {
            assert(h[i] == s[i]);
        }
        folding_is_bare(h);
        assert(s[s.len() - 1] == s.last());
        table_texts();
        reveal_strlit("'");
        reveal_strlit("-");
        assert(bare(folded(s.last())));
    }
}

/// What a name is compared by lacks its edition and nothing else: a group in
/// brackets that names an edition is as good as not there, and any other as
/// good as written without brackets. So "Nevermind (Deluxe)" is compared as
/// "Nevermind", and "Nevermind (Live)" as "Nevermind Live".
pub proof fn titles_keep_what_is_no_edition(
    a: Seq<char>,
    open: char,
    g: Seq<char>,
    close: char,
    b: Seq<char>,
)
    requires
        bare(a),
        bare(g),
        open == '(' || open == '[' || open == '{',
        close == ')' || close == ']' || close == '}',
    ensures
        ({
            let words = seq![
                "deluxe"@,
                "remaster"@,
                "remastered"@,
                "edition"@,
                "explicit"@,
                "clean"@,
                "bonus"@,
                "anniversary"@,
                "expanded"@,
                "reissue"@,
                "special"@,
                "collectors"@,
                "collector"@,
                "limited"@,
                "original recording"@,
                "digitally remastered"@,
                "single version"@,
                "album version"@,
                "mono version"@,
                "stereo version"@,
                "the complete"@,
            ];
            normalised(a.push(open) + g.push(close) + b) == if one_stands_in(
                words,
                lowercase(fold_text(g)),
            ) {
                normalised(a + b)
            } else {
                normalised(a.push(' ') + g + b)
            }
        }),
{
    let fa = fold_text(a);
    let fg = fold_text(g);
    let fb = fold_text(b);
    folding_is_bare(a);
    folding_is_bare(g);
    only_editions_are_stripped(fa, open, fg, close, fb);
    folding_one(open);
    folding_one(close);
    folding_one(' ');
    other_characters_stay(open);
    other_characters_stay(close);
    other_characters_stay(' ');
    assert(a.push(open) == a + seq![open]);
    assert(g.push(close) == g + seq![close]);
    assert(a.push(' ') == a + seq![' ']);
    folding_is_piecewise(a, seq![open]);
    folding_is_piecewise(g, seq![close]);
    folding_is_piecewise(a, seq![' ']);
    folding_is_piecewise(a.push(open), g.push(close));
    folding_is_piecewise(a.push(open) + g.push(close), b);
    folding_is_piecewise(a.push(' '), g);
    folding_is_piecewise(a.push(' ') + g, b);
    folding_is_piecewise(a, b);
    assert(fa.push(open) == fa + seq![open]);
    assert(fg.push(close) == fg + seq![close]);
    assert(fa.push(' ') == fa + seq![' ']);
}

/// A suffix behind the last dash is left out if and only if it names an
/// edition; otherwise the text stays whole.
pub proof fn only_edition_suffixes_are_stripped(a: Seq<char>, q: Seq<char>)
    requires
        bare(a),
        bare(q),
        forall|k: int| k > 0 ==> !occurs_at(" - "@ + q, " - "@, k),
    ensures
        ({
            let words = seq![
                "deluxe"@,
                "remaster"@,
                "remastered"@,
                "edition"@,
                "explicit"@,
                "clean"@,
                "bonus"@,
                "anniversary"@,
                "expanded"@,
                "reissue"@,
                "special"@,
                "collectors"@,
                "collector"@,
                "limited"@,
                "original recording"@,
                "digitally remastered"@,
                "single version"@,
                "album version"@,
                "mono version"@,
                "stereo version"@,
                "the complete"@,
            ];
            stripped(a + " - "@ + q) == if one_stands_in(words, lowercase(q)) {
                a
            } else {
                a + " - "@ + q
            }
        }),
{
    reveal_strlit(" - ");
    editions_have_a_vocabulary(q);
    let dash = " - "@;
    let s = a + dash + q;
    assert forall|i: int| 0 <= i < s.len() implies #[trigger] s[i] != '(' && s[i] != '[' && s[i]
        != '{' && s[i] != ')' && s[i] != ']' && s[i] != '}' by {
        if i < a.len() {
            assert(s[i] == a[i]);
        } else if i >= a.len() + 3 {
            assert(s[i] == q[i - a.len() - 3]);
        }
    }
    bare_passes(s);
    let n = a.len() as int;
    assert(s.subrange(n, n + 3) == dash);
    assert(occurs_at(s, dash, n));
    assert forall|k: int| n < k implies !occurs_at(s, dash, k) by {
        if occurs_at(s, dash, k) {
            assert((dash + q).subrange(k - n, k - n + 3) == s.subrange(k, k + 3));
            assert(occurs_at(dash + q, dash, k - n));
        }
    }
    assert(last_at(s, dash, n));
    assert(last_at(s, dash, last_dash(s)));
    last_is_unique(s, dash, n, last_dash(s));
    assert(s.skip(n + 3) == q);
    assert(s.take(n) == a);
}

proof fn one_piece_more(a: Seq<char>, w: Seq<char>)
    requires
        forall|i: int| 0 <= i < w.len() ==> #[trigger] w[i] != ' ',
    ensures
        pieces(a.push(' ') + w, ' ') == pieces(a, ' ').push(w),
    decreases a.len(),
{
    let s = a.push(' ') + w;
    if exists|k: int| 0 <= k < a.len() && a[k] == ' ' {
        let at = first_piece_len(a, ' ') as int;
        piece_ends(a);
        assert(s[at] == ' ');
        assert forall|k: int| 0 <= k < at implies s[k] != ' ' by {
            assert(s[k] == a[k]);
        }
        first_piece_len_is(s, ' ', at);
        one_piece_more(a.skip(at + 1), w);
        assert(s.skip(at + 1) == a.skip(at + 1).push(' ') + w);
        assert(s.take(at) == a.take(at));
    } else {
        let n = a.len() as int;
        first_piece_len_is(a, ' ', n);
        assert forall|k: int| 0 <= k < n implies s[k] != ' ' by {
            assert(s[k] == a[k]);
        }
        first_piece_len_is(s, ' ', n);
        assert(s.take(n) == a);
        assert(s.skip(n + 1) == w);
        first_piece_len_is(w, ' ', w.len() as int);
        assert(pieces(w, ' ') == seq![w]);
        assert(pieces(a, ' ') == seq![a]);
    }
}

proof fn piece_ends(a: Seq<char>)
    ensures
        0 <= first_piece_len(a, ' ') <= a.len(),
        first_piece_len(a, ' ') < a.len() ==> a[first_piece_len(a, ' ') as int] == ' ',
        forall|k: int| 0 <= k < first_piece_len(a, ' ') ==> a[k] != ' ',
        (exists|k: int| 0 <= k < a.len() && a[k] == ' ') ==> first_piece_len(a, ' ') < a.len(),
    decreases a.len(),
{
    if a.len() > 0 && a[0] != ' ' {
        let r = a.drop_first();
        piece_ends(r);
        assert forall|k: int| 0 <= k < first_piece_len(a, ' ') implies a[k] != ' ' by {
            if k > 0 {
                assert(r[k - 1] == a[k]);
            }
        }
        if exists|k: int| 0 <= k < a.len() && a[k] == ' ' {
            let k = choose|k: int| 0 <= k < a.len() && a[k] == ' ';
            assert(r[k - 1] == ' ');
        }
    }
}

/// A number too many is decisive, in digits or as a roman numeral: a title is
/// nothing like its second volume, however long the rest is that they share.
pub proof fn a_volume_number_is_decisive(a: Seq<char>, w: Seq<char>)
    requires
        w.len() > 0,
        (forall|i: int| 0 <= i < w.len() ==> '0' <= #[trigger] w[i] <= '9') || (forall|i: int|
            0 <= i < w.len() ==> #[trigger] w[i] == 'i' || w[i] == 'v' || w[i] == 'x' || w[i] == 'l'
                || w[i] == 'c' || w[i] == 'd' || w[i] == 'm'),
    ensures
        score_of(a, a.push(' ') + w) == 0,
        score_of(a.push(' ') + w, a) == 0,
{
    one_piece_more(a, w);
    let p = pieces(a, ' ');
    let q = p.push(w);
    assert(q.drop_last() == p);
    assert(is_numeral(w));
    assert(numerals(q).len() == numerals(p).len() + 1);
}

/// A word is no number, and decides nothing, if some character of it is no digit
/// and some character no roman numeral.
pub proof fn other_words_are_no_numbers(w: Seq<char>, i: int, j: int)
    requires
        0 <= i < w.len(),
        !('0' <= w[i] <= '9'),
        0 <= j < w.len(),
        w[j] != 'i' && w[j] != 'v' && w[j] != 'x' && w[j] != 'l' && w[j] != 'c' && w[j] != 'd'
            && w[j] != 'm',
    ensures
        numerals(seq![w]) == Seq::<Seq<char>>::empty(),
{
    assert(seq![w].drop_last() == Seq::<Seq<char>>::empty());
    assert(numerals(Seq::<Seq<char>>::empty()) == Seq::<Seq<char>>::empty());
    assert(!is_digit(w[i]));
    assert(!is_roman(w[j]));
}

/// The text gate: the artist has to be at least nine tenths alike, and the album
/// seventeen twentieths; to do without a picture, both have to be ninety-seven
/// hundredths. Either alone decides nothing. A thousandth is room enough for
/// how these fractions are rounded to doubles.
pub proof fn both_names_have_to_match(s: Scores)
    ensures
        s.pass() ==> 1000 * s.artist >= 899 * ONE && 1000 * s.album >= 849 * ONE,
        1000 * s.artist >= 901 * ONE && 1000 * s.album >= 851 * ONE ==> s.pass(),
        s.unambiguous() ==> 1000 * s.artist >= 969 * ONE && 1000 * s.album >= 969 * ONE,
        1000 * s.artist >= 971 * ONE && 1000 * s.album >= 971 * ONE ==> s.unambiguous(),
{
}

/// The case of a letter does not matter, with an accent or without: capital and
/// small letters of Latin-1 and of Latin Extended-A fold alike.
pub proof fn capitals_fold_like_small_letters(c: char, d: char)
    requires
        ({
            let (x, y) = (c as u32, d as u32);
            ||| 0xc0 <= x <= 0xde && x != 0xd7 && y == x + 0x20
            ||| 0x100 <= x <= 0x136 && x % 2 == 0 && y == x + 1
            ||| 0x139 <= x <= 0x147 && x % 2 == 1 && y == x + 1
            ||| 0x14a <= x <= 0x176 && x % 2 == 0 && y == x + 1
            ||| 0x179 <= x <= 0x17d && x % 2 == 1 && y == x + 1
            ||| x == 0x178 && y == 0xff
        }),
    ensures
        folded(c) == folded(d),
{
}

/// Whether two characters count alike in a name: both are punctuation or white
/// space, or both are letters or digits with one lower case.
pub open spec fn counts_alike(c: char, d: char) -> bool {
    alphanumeric(c) == alphanumeric(d) && (alphanumeric(c) ==> char_lower(c) == char_lower(d))
}

/// Neither the case of letters nor the kind of what stands between them matters:
/// "AC/DC", "ac-dc" and "AC DC" are compared alike.
pub proof fn punctuation_counts_alike(s: Seq<char>, t: Seq<char>)
    requires
        s.len() == t.len(),
        forall|i: int| 0 <= i < s.len() ==> counts_alike(#[trigger] s[i], t[i]),
    ensures
        collapsed(s) == collapsed(t),
    decreases s.len(),
{
    if s.len() > 0 {
        let (a, b) = (s.drop_last(), t.drop_last());
        assert forall|i: int| 0 <= i < a.len() implies counts_alike(#[trigger] a[i], b[i]) by {
            assert(a[i] == s[i]);
        }
        punctuation_counts_alike(a, b);
        assert(counts_alike(s[s.len() - 1], t[t.len() - 1]));
    }
}

/// The artist is judged by the artists alone, and the album by the albums.
pub proof fn names_are_judged_apart(
    artist: Seq<char>,
    album: Seq<char>,
    got: Seq<char>,
    other_want: Seq<char>,
    other_got: Seq<char>,
)
    ensures
        Scores::compared(artist, other_want, got, other_got).artist == Scores::compared(
            artist,
            album,
            got,
            album,
        ).artist,
        Scores::compared(other_want, album, other_got, got).album == Scores::compared(
            artist,
            album,
            artist,
            got,
        ).album,
        Scores::compared(artist, other_want, artist, other_got).artist == ONE,
        Scores::compared(other_want, album, other_got, album).album == ONE,
{
    equal_texts_score_one(normalised(artist));
    equal_texts_score_one(normalised(album));
}

/// A bracket that is never closed takes nothing away: the text was cut off
/// somewhere, and what follows the bracket stays.
pub proof fn open_brackets_keep_the_rest(a: Seq<char>, open: char, g: Seq<char>)
    requires
        bare(a),
        bare(g),
        open == '(' || open == '[' || open == '{',
    ensures
        without_groups(a.push(open) + g) == a + g,
{
    bare_passes(a);
    let p = a.push(open);
    assert(p.drop_last() == a);
    group_is_taken_up(p, g);
}

/// No letter and no digit gets lost: a name in small ASCII letters and digits is
/// compared by all of them, in order.
pub proof fn plain_names_stay(s: Seq<char>)
    requires
        forall|i: int|
            0 <= i < s.len() ==> 'a' <= #[trigger] s[i] <= 'z' || '0' <= s[i] <= '9',
    ensures
        normalised(s) == s,
{
    plain_names_fold(s);
    bare_passes(s);
    reveal_strlit(" - ");
    if holds_text(s, " - "@) {
        let at = choose|at: int| occurs_at(s, " - "@, at);
        assert(s.subrange(at, at + 3)[0] == " - "@[0]);
        assert(s[at] == ' ');
    }
    assert(stripped(s) == s);
    plain_names_collapse(s);
    if s.len() > 0 {
        assert('a' <= s[s.len() - 1] <= 'z' || '0' <= s[s.len() - 1] <= '9');
    }
}

proof fn plain_names_fold(s: Seq<char>)
    requires
        forall|i: int|
            0 <= i < s.len() ==> 'a' <= #[trigger] s[i] <= 'z' || '0' <= s[i] <= '9',
    ensures
        fold_text(s) == s,
        bare(s),
    decreases s.len(),
{
    if s.len() > 0 {
        let a = s.drop_last();
        assert forall|i: int| 0 <= i < a.len() implies 'a' <= #[trigger] a[i] <= 'z' || '0' <= a[i]
            <= '9' by {
            assert(a[i] == s[i]);
        }
        plain_names_fold(a);
        let c = s[s.len() - 1];
        other_characters_stay(c);
        assert(a + seq![c] == s);
    }
}

proof fn plain_names_collapse(s: Seq<char>)
    requires
        forall|i: int|
            0 <= i < s.len() ==> 'a' <= #[trigger] s[i] <= 'z' || '0' <= s[i] <= '9',
    ensures
        collapsed(s) == (s, false),
    decreases s.len(),
{
    if s.len() > 0 {
        let a = s.drop_last();
        assert forall|i: int| 0 <= i < a.len() implies 'a' <= #[trigger] a[i] <= 'z' || '0' <= a[i]
            <= '9' by {
            assert(a[i] == s[i]);
        }
        plain_names_collapse(a);
        let c = s[s.len() - 1];
        assert(alphanumeric(c));
        assert(char_lower(c) == seq![c]);
        assert(a + seq![c] == s);
    } else {
        assert(s == Seq::<char>::empty());
    }
}

proof fn nothing_free(b: Seq<char>, taken: Seq<bool>, c: char, lo: nat, hi: nat)
    requires
        hi <= b.len(),
        forall|j: int| 0 <= j < b.len() ==> #[trigger] b[j] != c,
    ensures
        lo <= hi ==> first_free(b, taken, c, lo, hi) == hi,
        lo > hi ==> first_free(b, taken, c, lo, hi) == lo,
    decreases hi - lo,
{
    if lo < hi {
        assert(b[lo as int] != c);
        nothing_free(b, taken, c, lo + 1, hi);
    }
}

proof fn nothing_matches(a: Seq<char>, b: Seq<char>, i: nat)
    requires
        i <= a.len(),
        forall|x: int, y: int|
            0 <= x < a.len() && 0 <= y < b.len() ==> #[trigger] a[x] != #[trigger] b[y],
    ensures
        matching(a, b, i).0 == Seq::new(a.len(), |k: int| false),
    decreases i,
{
    if i > 0 {
        let p = (i - 1) as nat;
        nothing_matches(a, b, p);
        let w = window(a.len(), b.len());
        assert forall|j: int| 0 <= j < b.len() implies #[trigger] b[j] != a[i - 1] by {
            assert(a[i - 1] != b[j]);
        }
        nothing_free(
            b,
            matching(a, b, p).1,
            a[i - 1],
            window_lo(p, w),
            window_hi(p, w, b.len()),
        );
    }
}

proof fn none_marked(s: Seq<char>, marks: Seq<bool>)
    requires
        s.len() <= marks.len(),
        forall|k: int| 0 <= k < s.len() ==> !marks[k],
    ensures
        marked(s, marks).len() == 0,
    decreases s.len(),
{
    if s.len() > 0 {
        none_marked(s.drop_last(), marks);
    }
}

/// Names that have no character in common are not alike at all, unless both are
/// empty.
pub proof fn strangers_score_nothing(a: Seq<char>, b: Seq<char>)
    requires
        a.len() + b.len() > 0,
        forall|x: int, y: int|
            0 <= x < a.len() && 0 <= y < b.len() ==> #[trigger] a[x] != #[trigger] b[y],
    ensures
        jaro_score(a, b) == 0,
        winkler_score(a, b) == 0,
        score_of(a, b) == 0,
{
    nothing_matches(a, b, a.len());
    none_marked(a, matching(a, b, a.len()).0);
}

} // verus!
