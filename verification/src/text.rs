//! Texts as sequences of characters: searching them, and cutting an ending
//! off them.

use vstd::prelude::*;
use vstd::string::StrSliceExecFns;

verus! {

/// Whether `pattern` stands in `text` at position `at`.
pub open spec fn occurs_at(text: Seq<char>, pattern: Seq<char>, at: int) -> bool {
    0 <= at && at + pattern.len() <= text.len() && text.subrange(at, at + pattern.len()) == pattern
}

/// Whether `pattern` stands anywhere in `text`.
pub open spec fn occurs(text: Seq<char>, pattern: Seq<char>) -> bool {
    exists|at: int| occurs_at(text, pattern, at)
}

/// The first position at or after `from` at which `pattern` stands in `text`.
pub open spec fn search_from(text: Seq<char>, pattern: Seq<char>, from: int) -> Option<int>
    decreases text.len() + 1 - from,
{
    if from < 0 || from + pattern.len() > text.len() {
        None
    } else if occurs_at(text, pattern, from) {
        Some(from)
    } else {
        search_from(text, pattern, from + 1)
    }
}

/// The first position at which `pattern` stands in `text`.
pub open spec fn first_occurrence(text: Seq<char>, pattern: Seq<char>) -> Option<int> {
    search_from(text, pattern, 0)
}

/// Whether `text` ends with `suffix`.
pub open spec fn ends_with(text: Seq<char>, suffix: Seq<char>) -> bool {
    suffix.len() <= text.len() && text.skip(text.len() - suffix.len()) == suffix
}

/// `text` without `suffix` at its end; `text` itself where it does not end
/// with `suffix`.
pub open spec fn without_suffix(text: Seq<char>, suffix: Seq<char>) -> Seq<char> {
    if ends_with(text, suffix) {
        text.take(text.len() - suffix.len())
    } else {
        text
    }
}

/// The characters of `s`, in order.
pub fn to_chars(s: &str) -> (v: Vec<char>)
    ensures
        v@ == s@,
{
    let mut v: Vec<char> = Vec::new();
    for c in it: s.chars()
        invariant
            it.seq() == s@,
            v@ == it.seq().take(it.index()),
    {
        v.push(c);
    }
    v
}

/// Whether `pattern` stands in `text` at position `at`.
fn matches_at(text: &Vec<char>, pattern: &Vec<char>, at: usize) -> (b: bool)
    requires
        at + pattern.len() <= text.len(),
    ensures
        b == occurs_at(text@, pattern@, at as int),
{
    let mut k: usize = 0;
    while k < pattern.len() && text[at + k] == pattern[k]
        invariant
            k <= pattern.len(),
            at + pattern.len() <= text.len(),
            forall|j: int| 0 <= j < k ==> text@[at + j] == #[trigger] pattern@[j],
        decreases pattern.len() - k,
    {
        k += 1;
    }
    let ghost window = text@.subrange(at as int, at + pattern.len());
    if k == pattern.len() {
        assert(window =~= pattern@);
        true
    } else {
        assert(window[k as int] != pattern@[k as int]);
        false
    }
}

/// What a search from `from` gives is the first position at or after `from`
/// at which the pattern stands.
pub proof fn lemma_search_from(text: Seq<char>, pattern: Seq<char>, from: int)
    requires
        0 <= from,
    ensures
        match search_from(text, pattern, from) {
            Some(at) => from <= at && occurs_at(text, pattern, at) && forall|b: int|
                from <= b < at ==> !occurs_at(text, pattern, b),
            None => forall|b: int| from <= b ==> !occurs_at(text, pattern, b),
        },
    decreases text.len() + 1 - from,
{
    if from + pattern.len() <= text.len() && !occurs_at(text, pattern, from) {
        lemma_search_from(text, pattern, from + 1);
    }
}

/// The first occurrence is an occurrence, and none stands before it; where
/// there is no first occurrence, there is none at all.
pub proof fn lemma_first_occurrence(text: Seq<char>, pattern: Seq<char>)
    ensures
        match first_occurrence(text, pattern) {
            Some(at) => occurs_at(text, pattern, at) && forall|b: int|
                b < at ==> !occurs_at(text, pattern, b),
            None => !occurs(text, pattern),
        },
{
    lemma_search_from(text, pattern, 0);
}

/// Finds the first position at or after `from` at which `pattern` stands in
/// `text`.
pub fn find_from(text: &Vec<char>, pattern: &Vec<char>, from: usize) -> (r: Option<usize>)
    ensures
        match r {
            Some(at) => search_from(text@, pattern@, from as int) == Some(at as int),
            None => search_from(text@, pattern@, from as int) is None,
        },
        r matches Some(at) ==> from <= at && at + pattern.len() <= text.len(),
{
    if pattern.len() > text.len() || from > text.len() - pattern.len() {
        return None;
    }
    let last: usize = text.len() - pattern.len();
    let mut at: usize = from;
    loop
        invariant
            from <= at <= last,
            last == text.len() - pattern.len(),
            search_from(text@, pattern@, from as int) == search_from(text@, pattern@, at as int),
        decreases last - at,
    {
        if matches_at(text, pattern, at) {
            return Some(at);
        }
        if at == last {
            return None;
        }
        at += 1;
    }
}

/// Finds the first position at which `pattern` stands in `text`.
pub fn find(text: &Vec<char>, pattern: &Vec<char>) -> (r: Option<usize>)
    ensures
        match r {
            Some(at) => first_occurrence(text@, pattern@) == Some(at as int),
            None => first_occurrence(text@, pattern@) is None,
        },
        r matches Some(at) ==> at + pattern.len() <= text.len(),
{
    find_from(text, pattern, 0)
}

/// Takes `suffix` off the end of `text`. A text that does not end with
/// `suffix` comes back unchanged.
pub fn strip_suffix_in(text: &str, suffix: &str) -> (out: String)
    ensures
        out@ == without_suffix(text@, suffix@),
{
    let chars = to_chars(text);
    let wanted = to_chars(suffix);
    if wanted.len() > chars.len() {
        return text.to_owned();
    }
    let cut: usize = chars.len() - wanted.len();
    proof {
        assert(text@.subrange(cut as int, cut + wanted.len()) =~= text@.skip(cut as int));
    }
    if matches_at(&chars, &wanted, cut) {
        proof {
            assert(text@.subrange(0, cut as int) =~= text@.take(cut as int));
        }
        text.substring_char(0, cut).to_owned()
    } else {
        text.to_owned()
    }
}

} // verus!
