//! Character classes and trimming of character runs.

use vstd::prelude::*;
use vstd::slice::slice_subrange;

verus! {

/// The four characters that count as whitespace: space, carriage return,
/// line feed and tab. No other character does, Unicode whitespace included.
pub open spec fn is_ws(c: char) -> bool {
    c == ' ' || c == '\r' || c == '\n' || c == '\t'
}

/// A single or double quotation mark.
pub open spec fn is_quote(c: char) -> bool {
    c == '"' || c == '\''
}

/// Every character of `s` is whitespace.
pub open spec fn all_ws(s: Seq<char>) -> bool {
    forall|i: int| 0 <= i < s.len() ==> is_ws(#[trigger] s[i])
}

/// The least index `j >= i` at which `s` holds a character that is not
/// whitespace, or `s.len()` if there is none.
pub open spec fn first_non_ws(s: Seq<char>, i: int) -> int
    decreases s.len() - i,
{
    if i < 0 || i >= s.len() {
        s.len() as int
    } else if !is_ws(s[i]) {
        i
    } else {
        first_non_ws(s, i + 1)
    }
}

/// One more than the greatest index below `j` at which `s` holds a character
/// that is not whitespace, or `0` if there is none.
pub open spec fn last_non_ws_end(s: Seq<char>, j: int) -> int
    decreases j,
{
    if j <= 0 || j > s.len() {
        0
    } else if !is_ws(s[j - 1]) {
        j
    } else {
        last_non_ws_end(s, j - 1)
    }
}

/// `s` without its leading and trailing whitespace; `None` when nothing is
/// left, which is the case exactly when `s` is empty or all whitespace.
pub open spec fn trimmed(s: Seq<char>) -> Option<Seq<char>> {
    let head = first_non_ws(s, 0);
    let tail = last_non_ws_end(s, s.len() as int);
    if head < tail {
        Some(s.subrange(head, tail))
    } else {
        None
    }
}

/// The least index `j >= i` at which `s` holds the character `c`, or
/// `s.len()` if there is none.
pub open spec fn find_char(s: Seq<char>, c: char, i: int) -> int
    decreases s.len() - i,
{
    if i < 0 || i >= s.len() {
        s.len() as int
    } else if s[i] == c {
        i
    } else {
        find_char(s, c, i + 1)
    }
}

/// What `find_char` finds: `c` does not occur between `i` and the result, and
/// the result, if inside `s`, is an occurrence of `c`.
pub proof fn lemma_find_char(s: Seq<char>, c: char, i: int)
    requires
        0 <= i <= s.len(),
    ensures
        i <= find_char(s, c, i) <= s.len(),
        find_char(s, c, i) < s.len() ==> s[find_char(s, c, i)] == c,
        forall|k: int| i <= k < find_char(s, c, i) ==> #[trigger] s[k] != c,
    decreases s.len() - i,
{
    if i < s.len() && s[i] != c {
        lemma_find_char(s, c, i + 1);
    }
}

/// What `first_non_ws` finds: everything between `i` and the result is
/// whitespace, and the result, if inside `s`, is not.
pub proof fn lemma_first_non_ws(s: Seq<char>, i: int)
    requires
        0 <= i <= s.len(),
    ensures
        i <= first_non_ws(s, i) <= s.len(),
        first_non_ws(s, i) < s.len() ==> !is_ws(s[first_non_ws(s, i)]),
        forall|k: int| i <= k < first_non_ws(s, i) ==> is_ws(#[trigger] s[k]),
    decreases s.len() - i,
{
    if i < s.len() && is_ws(s[i]) {
        lemma_first_non_ws(s, i + 1);
    }
}

/// What `last_non_ws_end` finds: everything between the result and `j` is
/// whitespace, and the character just before the result, if any, is not.
pub proof fn lemma_last_non_ws_end(s: Seq<char>, j: int)
    requires
        0 <= j <= s.len(),
    ensures
        0 <= last_non_ws_end(s, j) <= j,
        last_non_ws_end(s, j) > 0 ==> !is_ws(s[last_non_ws_end(s, j) - 1]),
        forall|k: int| last_non_ws_end(s, j) <= k < j ==> is_ws(#[trigger] s[k]),
    decreases j,
{
    if j > 0 && is_ws(s[j - 1]) {
        lemma_last_non_ws_end(s, j - 1);
    }
}

/// Trimming gives nothing exactly for runs that are all whitespace; what it
/// gives otherwise is not empty, starts and ends with a character that is not
/// whitespace, and is the run itself with only whitespace cut off both ends.
pub proof fn lemma_trimmed(s: Seq<char>)
    ensures
        trimmed(s) is None <==> all_ws(s),
        trimmed(s) matches Some(t) ==> {
            &&& t.len() > 0
            &&& !is_ws(t.first())
            &&& !is_ws(t.last())
            &&& exists|head: int, tail: int|
                {
                    &&& 0 <= head < tail <= s.len()
                    &&& t == #[trigger] s.subrange(head, tail)
                    &&& all_ws(s.subrange(0, head))
                    &&& all_ws(s.subrange(tail, s.len() as int))
                }
        },
{
    let head = first_non_ws(s, 0);
    let tail = last_non_ws_end(s, s.len() as int);
    lemma_first_non_ws(s, 0);
    lemma_last_non_ws_end(s, s.len() as int);
    if head < tail {
        assert(!is_ws(s[head]));
        assert(!all_ws(s));
        let t = s.subrange(head, tail);
        assert(t.first() == s[head]);
        assert(t.last() == s[tail - 1]);
        assert(all_ws(s.subrange(0, head)));
        assert(all_ws(s.subrange(tail, s.len() as int)));
    } else {
        assert forall|i: int| 0 <= i < s.len() implies is_ws(#[trigger] s[i]) by {
            if i < head {
            } else {
                assert(tail <= i);
            }
        }
    }
}

/// Tells whether `c` is a single or double quotation mark.
pub(crate) fn is_quote_mark(c: char) -> (r: bool)
    ensures
        r == is_quote(c),
{
    c == '"' || c == '\''
}

/// Finds the first occurrence of `c` in `s` at or after index `i`; gives
/// `s.len()` when there is none.
pub(crate) fn find_char_from(s: &[char], c: char, i: usize) -> (r: usize)
    requires
        i <= s@.len(),
    ensures
        r == find_char(s@, c, i as int),
        i <= r <= s@.len(),
{
    let len: usize = s.len();
    let mut j: usize = i;
    while j < len && s[j] != c
        invariant
            len == s@.len(),
            i <= j <= len,
            find_char(s@, c, i as int) == find_char(s@, c, j as int),
        decreases len - j,
    {
        j += 1;
    }
    j
}

/// Tells whether two slices hold the same characters.
pub(crate) fn same_chars(a: &[char], b: &[char]) -> (r: bool)
    ensures
        r == (a@ == b@),
{
    let len: usize = a.len();
    if len != b.len() {
        return false;
    }
    let mut i: usize = 0;
    while i < len
        invariant
            len == a@.len(),
            len == b@.len(),
            i <= len,
            a@.subrange(0, i as int) == b@.subrange(0, i as int),
        decreases len - i,
    {
        if a[i] != b[i] {
            return false;
        }
        i += 1;
        assert(a@.subrange(0, i as int) == a@.subrange(0, i - 1).push(a@[i - 1]));
        assert(b@.subrange(0, i as int) == b@.subrange(0, i - 1).push(b@[i - 1]));
    }
    assert(a@ == a@.subrange(0, len as int));
    assert(b@ == b@.subrange(0, len as int));
    true
}

/// Tells whether `target` is one of the four whitespace characters.
#[verifier::when_used_as_spec(is_ws)]
pub fn is_white_space(target: char) -> (r: bool)
    ensures
        r == is_ws(target),
{
    target == ' ' || target == '\r' || target == '\n' || target == '\t'
}

/// Cuts the whitespace off both ends of `string`. The result borrows from
/// `string`; it is `None` when `string` is empty or all whitespace.
pub fn trim_string<'a>(string: &'a [char]) -> (r: Option<&'a [char]>)
    ensures
        r is Some <==> trimmed(string@) is Some,
        r matches Some(t) ==> trimmed(string@) == Some(t@),
        r matches Some(t) ==> t@.len() > 0 && !is_ws(t@.first()) && !is_ws(t@.last()),
        r is None <==> all_ws(string@),
{
    let len: usize = string.len();
    let mut head: usize = 0;
    while head < len && is_white_space(string[head])
        invariant
            len == string@.len(),
            head <= len,
            first_non_ws(string@, 0) == first_non_ws(string@, head as int),
        decreases len - head,
    {
        head += 1;
    }
    let mut tail: usize = len;
    while tail > head && is_white_space(string[tail - 1])
        invariant
            len == string@.len(),
            head <= tail <= len,
            last_non_ws_end(string@, len as int) == last_non_ws_end(string@, tail as int),
        decreases tail,
    {
        tail -= 1;
    }
    proof {
        lemma_trimmed(string@);
        lemma_last_non_ws_end(string@, tail as int);
    }
    if head < tail {
        Some(slice_subrange(string, head, tail))
    } else {
        None
    }
}

} // verus!
