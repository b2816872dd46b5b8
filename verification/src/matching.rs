use vstd::prelude::*;
use vstd::string::StrSliceExecFns;

verus! {

/// `pattern` occurs in `text` starting at position `i`.
pub open spec fn is_match_at(text: Seq<char>, pattern: Seq<char>, i: int) -> bool {
    &&& 0 <= i
    &&& i + pattern.len() <= text.len()
    &&& forall|j: int| 0 <= j < pattern.len() ==> text[i + j] == pattern[j]
}

/// `pattern` occurs somewhere in `text` (an empty pattern always occurs).
pub open spec fn contains_pattern(text: Seq<char>, pattern: Seq<char>) -> bool {
    exists|i: int| is_match_at(text, pattern, i)
}

/// Substring search: whether `pattern` occurs contiguously in `text`,
/// comparing character by character, case-sensitively.
pub fn str_contains(text: &str, pattern: &str) -> (r: bool)
    ensures
        r == contains_pattern(text@, pattern@),
{
    let tlen = text.unicode_len();
    let plen = pattern.unicode_len();
    if plen > tlen {
        assert(forall|i: int| !is_match_at(text@, pattern@, i));
        return false;
    }
    let mut i: usize = 0;
    while i <= tlen - plen
        invariant
            plen <= tlen,
            tlen == text@.len(),
            plen == pattern@.len(),
            i <= tlen - plen + 1,
            forall|k: int| 0 <= k < i ==> !is_match_at(text@, pattern@, k),
        decreases tlen - plen + 1 - i,
    {
        let mut j: usize = 0;
        let mut all_equal = true;
        while j < plen
            invariant
                j <= plen,
                plen <= tlen,
                i <= tlen - plen,
                tlen == text@.len(),
                plen == pattern@.len(),
                all_equal <==> (forall|l: int| 0 <= l < j ==> text@[i + l] == pattern@[l]),
            decreases plen - j,
        {
            let tc = text.get_char(i + j);
            let pc = pattern.get_char(j);
            if tc != pc {
                all_equal = false;
            }
            j += 1;
        }
        if all_equal {
            assert(is_match_at(text@, pattern@, i as int));
            return true;
        }
        i += 1;
    }
    assert(forall|k: int| is_match_at(text@, pattern@, k) ==> 0 <= k <= tlen - plen);
    false
}

/// A predicate over job labels.  The executable test `matches` is pinned to
/// the spec-level predicate `matches_spec`, so board operations that search
/// by label can state exactly which job they find.
pub trait StringMatch: Sized {
    spec fn matches_spec(&self, text: Seq<char>) -> bool;

    fn matches(&self, text: &str) -> (r: bool)
        ensures
            r == self.matches_spec(text@),
    ;
}

/// Matches any label that contains `pattern` as a contiguous substring.
pub struct SubstringMatcher {
    pub pattern: String,
}

impl StringMatch for SubstringMatcher {
    open spec fn matches_spec(&self, text: Seq<char>) -> bool {
        contains_pattern(text, self.pattern@)
    }

    fn matches(&self, text: &str) -> (r: bool) {
        str_contains(text, self.pattern.as_str())
    }
}

/// Builds the default, case-sensitive substring matcher for `pattern`.
pub fn substring_matcher(pattern: &str) -> (m: SubstringMatcher)
    ensures
        m.pattern@ == pattern@,
{
    SubstringMatcher { pattern: pattern.to_owned() }
}

} // verus!
