use vstd::prelude::*;

verus! {

/// What `str::trim` returns for a given character sequence.
pub uninterp spec fn trimmed_of(s: Seq<char>) -> Seq<char>;

/// What `str::to_lowercase` returns for a given character sequence.
pub uninterp spec fn lowered_of(s: Seq<char>) -> Seq<char>;

/// Relies on `str::trim`: it removes leading and trailing whitespace, so
/// the result depends on the characters alone and is a substring of the
/// input, hence no longer than it.
#[verifier::external_body]
pub(crate) fn trim_text(s: &str) -> (r: &str)
    ensures
        r@ == trimmed_of(s@),
        r@.len() <= s@.len(),
{
    s.trim()
}

/// Relies on `str::to_lowercase`: the Unicode lowercase mapping, a function
/// of the characters alone.
#[verifier::external_body]
pub(crate) fn lowercase_text(s: &str) -> (r: String)
    ensures
        r@ == lowered_of(s@),
{
    s.to_lowercase()
}

/// A name is blank when nothing but whitespace is left after trimming.
pub open spec fn is_blank(s: Seq<char>) -> bool {
    trimmed_of(s).len() == 0
}

/// Decides blankness of a name by trimming it.
pub fn blank_text(s: &str) -> (b: bool)
    ensures
        b == is_blank(s@),
        !b ==> s@.len() > 0,
{
    let t = trim_text(s);
    t.is_empty()
}

/// `needle` occurs in `hay` starting at character index `i`.
pub open spec fn contains_at(hay: Seq<char>, needle: Seq<char>, i: int) -> bool {
    0 <= i && i + needle.len() <= hay.len() && hay.subrange(i, i + needle.len()) == needle
}

/// `hay` contains `needle` as a contiguous, case-sensitive substring.
pub open spec fn seq_contains(hay: Seq<char>, needle: Seq<char>) -> bool {
    exists|i: int| contains_at(hay, needle, i)
}

/// Does `needle` occur at character index `start` of `hay`?
fn match_at(hay: &str, needle: &str, start: usize) -> (b: bool)
    requires
        start + needle@.len() <= hay@.len(),
        hay@.len() <= usize::MAX as int,
    ensures
        b == (hay@.subrange(start as int, start as int + needle@.len() as int) == needle@),
{
    let m = needle.unicode_len();
    let mut j: usize = 0;
    while j < m
        invariant
            j <= m,
            m == needle@.len(),
            start + m <= hay@.len(),
            hay@.len() <= usize::MAX as int,
            forall|l: int| 0 <= l < j as int ==> hay@[start as int + l] == needle@[l],
        decreases m - j,
    {
        if hay.get_char(start + j) != needle.get_char(j) {
            proof {
                let sub = hay@.subrange(start as int, start as int + m as int);
                assert(sub[j as int] == hay@[start as int + j as int]);
            }
            return false;
        }
        j += 1;
    }
    proof {
        assert(hay@.subrange(start as int, start as int + m as int) =~= needle@);
    }
    true
}

/// Decides the substring relation that `seq_contains` states.
pub fn str_contains(hay: &str, needle: &str) -> (b: bool)
    ensures
        b == seq_contains(hay@, needle@),
{
    let n = hay.unicode_len();
    let m = needle.unicode_len();
    if m > n {
        proof {
            assert forall|l: int| !contains_at(hay@, needle@, l) by {}
        }
        return false;
    }
    let limit = n - m;
    let mut i: usize = 0;
    while i < limit
        invariant
            m <= n,
            n == hay@.len(),
            m == needle@.len(),
            limit == n - m,
            i <= limit,
            forall|l: int| 0 <= l < i as int ==> !contains_at(hay@, needle@, l),
        decreases limit - i,
    {
        if match_at(hay, needle, i) {
            proof {
                assert(contains_at(hay@, needle@, i as int));
            }
            return true;
        }
        i += 1;
    }
    if match_at(hay, needle, limit) {
        proof {
            assert(contains_at(hay@, needle@, limit as int));
        }
        return true;
    }
    proof {
        assert forall|l: int| !contains_at(hay@, needle@, l) by {
            if l > limit as int {
                assert(l + m > n);
            }
        }
    }
    false
}

/// Presentation of a task name that is still to do: the text itself,
/// undecorated.
pub fn todo_text(s: &str) -> (r: String)
    ensures
        r@ == s@,
{
    s.to_owned()
}

} // verus!
