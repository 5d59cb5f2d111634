//! Character-level helpers on which the rest of the crate builds its rules
//! about names: suffix and infix tests, separators, case folding.

use vstd::prelude::*;

verus! {

/// The lowercase form of a string as `str::to_lowercase` computes it
/// (Unicode's `Lowercase` mapping, which runs to pages of tables).
pub uninterp spec fn lowercase(s: Seq<char>) -> Seq<char>;

/// Calls `str::to_lowercase`.  Trusted: the result is the lowercase form of
/// the argument, which depends on the argument alone.
#[verifier::external_body]
pub(crate) fn to_lowercase(s: &str) -> (r: String)
    ensures
        r@ == lowercase(s@),
{
    s.to_lowercase()
}

/// `suffix` stands at the end of `s`.
pub open spec fn is_suffix(suffix: Seq<char>, s: Seq<char>) -> bool {
    suffix.len() <= s.len() && s.subrange(s.len() - suffix.len(), s.len() as int) == suffix
}

/// `prefix` stands at the start of `s`.
pub open spec fn is_prefix(prefix: Seq<char>, s: Seq<char>) -> bool {
    prefix.len() <= s.len() && s.subrange(0, prefix.len() as int) == prefix
}

/// `needle` stands in `hay` starting at index `i`.
pub open spec fn occurs_at(needle: Seq<char>, hay: Seq<char>, i: int) -> bool {
    0 <= i && i + needle.len() <= hay.len() && hay.subrange(i, i + needle.len()) == needle
}

/// `needle` stands somewhere in `hay`.  The empty needle stands in every
/// string.
pub open spec fn occurs_in(needle: Seq<char>, hay: Seq<char>) -> bool {
    exists|i: int| occurs_at(needle, hay, i)
}

/// The characters of `s`, in order.
pub fn chars_of(s: &str) -> (out: Vec<char>)
    ensures
        out@ == s@,
{
    let mut out: Vec<char> = Vec::new();
    for c in it: s.chars()
        invariant
            out@ == it.seq().take(it.index() as int),
            it.seq() == s@,
    {
        out.push(c);
    }
    out
}

/// Whether `needle` stands in `hay` at index `at`.
pub fn matches_at(hay: &Vec<char>, needle: &Vec<char>, at: usize) -> (b: bool)
    ensures
        b == occurs_at(needle@, hay@, at as int),
{
    if needle.len() > hay.len() || at > hay.len() - needle.len() {
        return false;
    }
    let mut k: usize = 0;
    while k < needle.len()
        invariant
            k <= needle.len(),
            at + needle.len() <= hay.len(),
            forall|j: int| 0 <= j < k ==> hay@[at + j] == needle@[j],
        decreases needle.len() - k,
    {
        if hay[at + k] != needle[k] {
            proof {
                let sub = hay@.subrange(at as int, at + needle.len());
                assert(sub[k as int] == hay@[at + k]);
            }
            return false;
        }
        k += 1;
    }
    assert(hay@.subrange(at as int, at + needle.len()) =~= needle@);
    true
}

/// Whether `s` ends with `suffix`.
pub fn ends_with(s: &Vec<char>, suffix: &Vec<char>) -> (b: bool)
    ensures
        b == is_suffix(suffix@, s@),
{
    if suffix.len() > s.len() {
        return false;
    }
    matches_at(s, suffix, s.len() - suffix.len())
}

/// Whether `s` starts with `prefix`.
pub fn starts_with(s: &Vec<char>, prefix: &Vec<char>) -> (b: bool)
    ensures
        b == is_prefix(prefix@, s@),
{
    matches_at(s, prefix, 0)
}

/// Whether `needle` stands somewhere in `hay`.
pub fn contains(hay: &Vec<char>, needle: &Vec<char>) -> (b: bool)
    ensures
        b == occurs_in(needle@, hay@),
{
    if needle.len() > hay.len() {
        return false;
    }
    let last: usize = hay.len() - needle.len();
    let mut i: usize = 0;
    loop
        invariant
            last == hay.len() - needle.len(),
            needle.len() <= hay.len(),
            i <= last,
            forall|j: int| 0 <= j < i ==> !occurs_at(needle@, hay@, j),
        decreases last - i,
    {
        if matches_at(hay, needle, i) {
            return true;
        }
        if i == last {
            return false;
        }
        i += 1;
    }
}

/// The index of the last `c` in `s`, if `c` stands in it at all.
pub open spec fn last_position(s: Seq<char>, c: char) -> Option<int>
    decreases s.len(),
{
    if s.len() == 0 {
        None
    } else if s.last() == c {
        Some(s.len() - 1)
    } else {
        last_position(s.drop_last(), c)
    }
}

/// What `last_position` finds: an index that holds `c` with no `c` behind it,
/// or nothing where `s` holds no `c`.
pub proof fn lemma_last_position(s: Seq<char>, c: char)
    ensures
        match last_position(s, c) {
            Some(i) => 0 <= i < s.len() && s[i] == c && forall|j: int|
                i < j < s.len() ==> s[j] != c,
            None => forall|j: int| 0 <= j < s.len() ==> s[j] != c,
        },
    decreases s.len(),
{
    if s.len() > 0 && s.last() != c {
        let head = s.drop_last();
        lemma_last_position(head, c);
        match last_position(head, c) {
            Some(i) => {
                assert(s[i] == head[i]);
                assert forall|j: int| i < j < s.len() implies s[j] != c by {
                    if j < head.len() {
                        assert(s[j] == head[j]);
                    }
                }
            },
            None => {
                assert forall|j: int| 0 <= j < s.len() implies s[j] != c by {
                    if j < head.len() {
                        assert(s[j] == head[j]);
                    }
                }
            },
        }
    }
}

/// The index of the last `c` in `s`.
pub fn last_index_of(s: &Vec<char>, c: char) -> (r: Option<usize>)
    ensures
        match r {
            Some(i) => last_position(s@, c) == Some(i as int),
            None => last_position(s@, c) is None,
        },
{
    let mut i: usize = s.len();
    assert(s@.take(i as int) =~= s@);
    while i > 0
        invariant
            i <= s.len(),
            last_position(s@, c) == last_position(s@.take(i as int), c),
        decreases i,
    {
        proof {
            let head = s@.take(i as int);
            assert(head.last() == s@[i - 1]);
            assert(head.drop_last() =~= s@.take(i - 1));
        }
        if s[i - 1] == c {
            return Some(i - 1);
        }
        i -= 1;
    }
    assert(s@.take(0).len() == 0);
    None
}

} // verus!
