//! Searching bytes for bytes.

use vstd::prelude::*;

verus! {

broadcast use vstd::seq::group_seq_axioms;

/// Whether bytes stand in others at a place.
pub open spec fn stands(s: Seq<u8>, needle: Seq<u8>, i: int) -> bool {
    0 <= i && i + needle.len() <= s.len() && s.subrange(i, i + needle.len()) == needle
}

/// The first place at or after one where bytes stand.
pub open spec fn first_from(s: Seq<u8>, needle: Seq<u8>, from: int) -> Option<int>
    decreases s.len() + 1 - from,
{
    if from < 0 || from + needle.len() > s.len() {
        None
    } else if stands(s, needle, from) {
        Some(from)
    } else {
        first_from(s, needle, from + 1)
    }
}

/// The first place where bytes stand. Nothing is never found.
pub open spec fn first(s: Seq<u8>, needle: Seq<u8>) -> Option<int> {
    if needle.len() == 0 {
        None
    } else {
        first_from(s, needle, 0)
    }
}

/// The last place at or before one where bytes stand.
pub open spec fn last_from(s: Seq<u8>, needle: Seq<u8>, from: int) -> Option<int>
    decreases from + 1,
{
    if from < 0 {
        None
    } else if stands(s, needle, from) {
        Some(from)
    } else {
        last_from(s, needle, from - 1)
    }
}

/// The last place where bytes stand. Nothing is never found.
pub open spec fn last(s: Seq<u8>, needle: Seq<u8>) -> Option<int> {
    if needle.len() == 0 {
        None
    } else {
        last_from(s, needle, s.len() - needle.len())
    }
}

pub fn stands_here(s: &[u8], needle: &[u8], i: usize) -> (r: bool)
    requires
        i + needle@.len() <= s@.len(),
    ensures
        r == stands(s@, needle@, i as int),
{
    let n: usize = s.len();
    let mut k: usize = 0;
    while k < needle.len()
        invariant
            k <= needle@.len(),
            n == s@.len(),
            i + needle@.len() <= n,
            forall|j: int| 0 <= j < k ==> s@[i + j] == needle@[j],
        decreases needle.len() - k,
    {
        if s[i + k] != needle[k] {
            assert(s@.subrange(i as int, i + needle@.len())[k as int] != needle@[k as int]);
            return false;
        }
        k = k + 1;
    }
    assert(s@.subrange(i as int, i + needle@.len()) == needle@);
    true
}

/// The first place where bytes stand.
pub fn find(haystack: &[u8], needle: &[u8]) -> (r: Option<usize>)
    ensures
        match r {
            Some(i) => first(haystack@, needle@) == Some(i as int),
            None => first(haystack@, needle@) is None,
        },
{
    if needle.len() == 0 || haystack.len() < needle.len() {
        return None;
    }
    let end: usize = haystack.len() - needle.len();
    let mut i: usize = 0;
    while i <= end
        invariant
            end == haystack@.len() - needle@.len(),
            i <= end + 1,
            haystack@.len() <= usize::MAX,
            first_from(haystack@, needle@, 0) == first_from(haystack@, needle@, i as int),
            needle@.len() > 0,
        decreases end + 1 - i,
    {
        if stands_here(haystack, needle, i) {
            return Some(i);
        }
        i = i + 1;
    }
    None
}

/// The last place where bytes stand.
pub fn rfind(haystack: &[u8], needle: &[u8]) -> (r: Option<usize>)
    ensures
        match r {
            Some(i) => last(haystack@, needle@) == Some(i as int),
            None => last(haystack@, needle@) is None,
        },
{
    if needle.len() == 0 || haystack.len() < needle.len() {
        return None;
    }
    let mut i: usize = haystack.len() - needle.len();
    loop
        invariant
            i + needle@.len() <= haystack@.len(),
            last(haystack@, needle@) == last_from(haystack@, needle@, i as int),
        decreases i,
    {
        if stands_here(haystack, needle, i) {
            return Some(i);
        }
        if i == 0 {
            assert(last_from(haystack@, needle@, -1) is None);
            return None;
        }
        i = i - 1;
    }
}

pub proof fn first_stands(s: Seq<u8>, needle: Seq<u8>, from: int)
    requires
        0 <= from,
    ensures
        first_from(s, needle, from) matches Some(i) ==> stands(s, needle, i) && from <= i,
    decreases s.len() + 1 - from,
{
    if from + needle.len() <= s.len() && !stands(s, needle, from) {
        first_stands(s, needle, from + 1);
    }
}

pub proof fn last_stands(s: Seq<u8>, needle: Seq<u8>, from: int)
    ensures
        last_from(s, needle, from) matches Some(i) ==> stands(s, needle, i) && i <= from,
    decreases from + 1,
{
    if from >= 0 && !stands(s, needle, from) {
        last_stands(s, needle, from - 1);
    }
}

pub proof fn first_is(s: Seq<u8>, needle: Seq<u8>, from: int, i: int)
    requires
        0 <= from <= i,
        stands(s, needle, i),
        forall|j: int| from <= j < i ==> !stands(s, needle, j),
    ensures
        first_from(s, needle, from) == Some(i),
    decreases i - from,
{
    if from < i {
        assert(!stands(s, needle, from));
        first_is(s, needle, from + 1, i);
    }
}

pub proof fn first_is_nowhere(s: Seq<u8>, needle: Seq<u8>, from: int)
    requires
        0 <= from,
        forall|j: int| from <= j ==> !stands(s, needle, j),
    ensures
        first_from(s, needle, from) is None,
    decreases s.len() + 1 - from,
{
    if from + needle.len() <= s.len() {
        assert(!stands(s, needle, from));
        first_is_nowhere(s, needle, from + 1);
    }
}

pub proof fn nowhere_before_first(s: Seq<u8>, needle: Seq<u8>, from: int)
    requires
        0 <= from,
    ensures
        match first_from(s, needle, from) {
            Some(i) => forall|j: int| from <= j < i ==> !stands(s, needle, j),
            None => forall|j: int| from <= j ==> !stands(s, needle, j),
        },
    decreases s.len() + 1 - from,
{
    if from + needle.len() <= s.len() && !stands(s, needle, from) {
        nowhere_before_first(s, needle, from + 1);
    }
}

pub proof fn last_is(s: Seq<u8>, needle: Seq<u8>, from: int, i: int)
    requires
        0 <= i <= from,
        stands(s, needle, i),
        forall|j: int| i < j <= from ==> !stands(s, needle, j),
    ensures
        last_from(s, needle, from) == Some(i),
    decreases from - i,
{
    if from > i {
        assert(!stands(s, needle, from));
        last_is(s, needle, from - 1, i);
    }
}

pub proof fn nowhere_behind_last(s: Seq<u8>, needle: Seq<u8>, from: int)
    ensures
        match last_from(s, needle, from) {
            Some(i) => forall|j: int| i < j <= from ==> !stands(s, needle, j),
            None => forall|j: int| j <= from ==> !stands(s, needle, j),
        },
    decreases from + 1,
{
    if from >= 0 && !stands(s, needle, from) {
        nowhere_behind_last(s, needle, from - 1);
    }
}

/// What is found first stands where it is found, and nowhere before it. What
/// is not found stands nowhere.
pub proof fn finding_is_exact(s: Seq<u8>, needle: Seq<u8>)
    requires
        needle.len() > 0,
    ensures
        match first(s, needle) {
            Some(i) => stands(s, needle, i) && forall|j: int| j < i ==> !stands(s, needle, j),
            None => forall|j: int| !stands(s, needle, j),
        },
        match last(s, needle) {
            Some(i) => stands(s, needle, i) && forall|j: int| i < j ==> !stands(s, needle, j),
            None => forall|j: int| !stands(s, needle, j),
        },
{
    first_stands(s, needle, 0);
    nowhere_before_first(s, needle, 0);
    last_stands(s, needle, s.len() - needle.len());
    nowhere_behind_last(s, needle, s.len() - needle.len());
}

pub proof fn stands_behind(a: Seq<u8>, b: Seq<u8>, needle: Seq<u8>, j: int)
    requires
        0 <= j,
    ensures
        stands(a + b, needle, a.len() + j) == stands(b, needle, j),
{
    if j + needle.len() <= b.len() {
        assert((a + b).subrange(a.len() + j, a.len() + j + needle.len()) == b.subrange(
            j,
            j + needle.len(),
        ));
    }
}

/// Whether no bracket in bytes, from a place on, has a given letter behind it.
pub open spec fn calm_from(s: Seq<u8>, letter: u8, i: int) -> bool
    decreases s.len() - i,
{
    if i < 0 || i >= s.len() {
        true
    } else {
        &&& s[i] != 60 || (i + 1 < s.len() && s[i + 1] != letter)
        &&& calm_from(s, letter, i + 1)
    }
}

/// Whether no tag that begins with a given letter begins in bytes.
pub open spec fn calm(s: Seq<u8>, letter: u8) -> bool {
    calm_from(s, letter, 0)
}

pub proof fn calm_at(s: Seq<u8>, letter: u8, from: int, i: int)
    requires
        0 <= from <= i < s.len(),
        calm_from(s, letter, from),
        s[i] == 60,
    ensures
        i + 1 < s.len(),
        s[i + 1] != letter,
    decreases i - from,
{
    if from < i {
        calm_at(s, letter, from + 1, i);
    }
}

pub proof fn is_calm(s: Seq<u8>, letter: u8, from: int)
    requires
        0 <= from,
        forall|i: int|
            from <= i < s.len() && #[trigger] s[i] == 60 ==> i + 1 < s.len() && s[i + 1] != letter,
    ensures
        calm_from(s, letter, from),
    decreases s.len() - from,
{
    if from < s.len() {
        is_calm(s, letter, from + 1);
    }
}

pub proof fn calm_join(a: Seq<u8>, b: Seq<u8>, letter: u8)
    requires
        calm(a, letter),
        calm(b, letter),
    ensures
        calm(a + b, letter),
{
    let s = a + b;
    assert forall|i: int| 0 <= i < s.len() && #[trigger] s[i] == 60 implies i + 1 < s.len() && s[i
        + 1] != letter by {
        if i < a.len() {
            calm_at(a, letter, 0, i);
        } else {
            calm_at(b, letter, 0, i - a.len());
        }
    }
    is_calm(s, letter, 0);
}

pub proof fn calm_excludes(a: Seq<u8>, b: Seq<u8>, needle: Seq<u8>, j: int)
    requires
        needle.len() >= 2,
        needle[0] == 60,
        calm(a, needle[1]),
        0 <= j < a.len(),
    ensures
        !stands(a + b, needle, j),
{
    let s = a + b;
    if stands(s, needle, j) {
        let w = s.subrange(j, j + needle.len());
        assert(w[0] == s[j]);
        assert(w[1] == s[j + 1]);
        calm_at(a, needle[1], 0, j);
    }
}

} // verus!
