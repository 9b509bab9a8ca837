//! Finding a delimiter in a byte sequence.

use vstd::prelude::*;

verus! {

/// `sep` stands in `s` at index `i`.
pub open spec fn occurs_at(s: Seq<u8>, sep: Seq<u8>, i: int) -> bool {
    0 <= i && i + sep.len() <= s.len() && s.subrange(i, i + sep.len()) == sep
}

/// The first index at or after `start` where `sep` stands in `s`.
pub open spec fn find_from(s: Seq<u8>, sep: Seq<u8>, start: int) -> Option<int>
    decreases s.len() - start + 1,
{
    if start < 0 || start + sep.len() > s.len() {
        None
    } else if occurs_at(s, sep, start) {
        Some(start)
    } else {
        find_from(s, sep, start + 1)
    }
}

/// The length of the shortest prefix of `s` that ends with `sep`, looking
/// only at occurrences that begin at or after `start`.
pub open spec fn delimited_len_from(s: Seq<u8>, sep: Seq<u8>, start: int) -> Option<int> {
    match find_from(s, sep, start) {
        Some(i) => Some(i + sep.len()),
        None => None,
    }
}

/// The length of the shortest prefix of `s` that ends with `sep`.
pub open spec fn delimited_len(s: Seq<u8>, sep: Seq<u8>) -> Option<int> {
    delimited_len_from(s, sep, 0)
}

/// What `find_from` finds is the first occurrence at or after `start`, and
/// it finds nothing only where there is none.
pub proof fn lemma_find_from(s: Seq<u8>, sep: Seq<u8>, start: int)
    requires
        0 <= start,
    ensures
        match find_from(s, sep, start) {
            Some(i) => start <= i && occurs_at(s, sep, i) && forall|j: int|
                start <= j < i ==> !occurs_at(s, sep, j),
            None => forall|j: int| start <= j ==> !occurs_at(s, sep, j),
        },
    decreases s.len() - start + 1,
{
    if start + sep.len() > s.len() {
    } else if occurs_at(s, sep, start) {
    } else {
        lemma_find_from(s, sep, start + 1);
    }
}

/// An index is what `find_from` finds as soon as `sep` stands there and
/// nowhere between `start` and it.
pub proof fn lemma_find_from_is(s: Seq<u8>, sep: Seq<u8>, start: int, i: int)
    requires
        0 <= start <= i,
        occurs_at(s, sep, i),
        forall|j: int| start <= j < i ==> !occurs_at(s, sep, j),
    ensures
        find_from(s, sep, start) == Some(i),
    decreases i - start,
{
    if start < i {
        lemma_find_from_is(s, sep, start + 1, i);
    }
}

/// Where nothing is found, nothing is found from any later index; where
/// nothing stands between two starts, both find the same.
pub proof fn lemma_find_from_skip(s: Seq<u8>, sep: Seq<u8>, a: int, b: int)
    requires
        0 <= a <= b,
        forall|j: int| a <= j < b ==> !occurs_at(s, sep, j),
    ensures
        find_from(s, sep, a) == find_from(s, sep, b),
    decreases b - a,
{
    if a < b {
        lemma_find_from_skip(s, sep, a + 1, b);
        if a + sep.len() > s.len() {
            lemma_find_from(s, sep, b);
            lemma_find_from(s, sep, a);
        }
    }
}

/// An occurrence in `s` is an occurrence in `s + t`, and one that ends
/// inside `s` is an occurrence in `s` too.
pub proof fn lemma_occurs_at_append(s: Seq<u8>, t: Seq<u8>, sep: Seq<u8>, i: int)
    requires
        0 <= i,
        i + sep.len() <= s.len(),
    ensures
        occurs_at(s + t, sep, i) == occurs_at(s, sep, i),
{
    assert((s + t).subrange(i, i + sep.len()) =~= s.subrange(i, i + sep.len()));
}

/// What is found in `s` is found in `s + t`.
pub proof fn lemma_find_from_append(s: Seq<u8>, t: Seq<u8>, sep: Seq<u8>, start: int)
    requires
        0 <= start,
        find_from(s, sep, start) is Some,
    ensures
        find_from(s + t, sep, start) == find_from(s, sep, start),
{
    lemma_find_from(s, sep, start);
    let i = find_from(s, sep, start).unwrap();
    lemma_occurs_at_append(s, t, sep, i);
    assert forall|j: int| start <= j < i implies !occurs_at(s + t, sep, j) by {
        lemma_occurs_at_append(s, t, sep, j);
    }
    lemma_find_from_is(s + t, sep, start, i);
}

/// Tells whether `sep` stands in `s` at index `i`.
pub fn matches_at(s: &[u8], sep: &[u8], i: usize) -> (m: bool)
    requires
        i + sep@.len() <= s@.len(),
    ensures
        m == occurs_at(s@, sep@, i as int),
{
    let total: usize = s.len();
    let mut k: usize = 0;
    while k < sep.len()
        invariant
            k <= sep@.len(),
            i + sep@.len() <= s@.len(),
            total == s@.len(),
            forall|j: int| 0 <= j < k ==> s@[i + j] == sep@[j],
        decreases sep.len() - k,
    {
        if s[i + k] != sep[k] {
            assert(s@.subrange(i as int, i + sep@.len())[k as int] == s@[i + k]);
            return false;
        }
        k = k + 1;
    }
    assert(s@.subrange(i as int, i + sep@.len()) =~= sep@);
    true
}

/// The first index at or after `start` where `sep` stands in `s`.
pub fn find(s: &[u8], sep: &[u8], start: usize) -> (out: Option<usize>)
    ensures
        match out {
            Some(i) => find_from(s@, sep@, start as int) == Some(i as int),
            None => find_from(s@, sep@, start as int) is None,
        },
{
    if sep.len() > s.len() {
        return None;
    }
    let last: usize = s.len() - sep.len();
    let mut i: usize = start;
    while i <= last
        invariant
            start <= i,
            last == s@.len() - sep@.len(),
            find_from(s@, sep@, start as int) == find_from(s@, sep@, i as int),
        decreases last + 1 - i,
    {
        if matches_at(s, sep, i) {
            return Some(i);
        }
        if i == last {
            return None;
        }
        i = i + 1;
    }
    None
}

} // verus!
