use vstd::prelude::*;

verus! {

/// `pat` occurs in `s` starting at index `i`.
pub open spec fn matches_at(s: Seq<u8>, pat: Seq<u8>, i: int) -> bool {
    &&& 0 <= i
    &&& i + pat.len() <= s.len()
    &&& s.subrange(i, i + pat.len()) == pat
}

/// The first index at or after `i` at which `pat` occurs in `s`.
pub open spec fn first_match_from(s: Seq<u8>, pat: Seq<u8>, i: int) -> Option<int>
    decreases s.len() + 1 - i,
{
    if i < 0 || i + pat.len() > s.len() {
        None
    } else if matches_at(s, pat, i) {
        Some(i)
    } else {
        first_match_from(s, pat, i + 1)
    }
}

/// The first index at which `pat` occurs in `s`, as `windows(..).position(..)` finds it.
pub open spec fn first_match(s: Seq<u8>, pat: Seq<u8>) -> Option<int> {
    first_match_from(s, pat, 0)
}

/// `pat` occurs somewhere in `s`.
pub open spec fn occurs_in(s: Seq<u8>, pat: Seq<u8>) -> bool {
    exists|i: int| matches_at(s, pat, i)
}

/// What `first_match_from` finds: the least match at or after `i`, or none at all.
pub proof fn lemma_first_match_from(s: Seq<u8>, pat: Seq<u8>, i: int)
    requires
        0 <= i,
    ensures
        match first_match_from(s, pat, i) {
            Some(p) => {
                &&& i <= p
                &&& matches_at(s, pat, p)
                &&& forall|j: int| i <= j < p ==> !matches_at(s, pat, j)
            },
            None => forall|j: int| i <= j ==> !matches_at(s, pat, j),
        },
    decreases s.len() + 1 - i,
{
    if i + pat.len() > s.len() {
    } else if matches_at(s, pat, i) {
    } else {
        lemma_first_match_from(s, pat, i + 1);
    }
}

/// What `first_match` finds: the least match, or none at all.
pub proof fn lemma_first_match(s: Seq<u8>, pat: Seq<u8>)
    ensures
        match first_match(s, pat) {
            Some(p) => {
                &&& 0 <= p
                &&& p + pat.len() <= s.len()
                &&& matches_at(s, pat, p)
                &&& forall|j: int| 0 <= j < p ==> !matches_at(s, pat, j)
            },
            None => !occurs_in(s, pat),
        },
        first_match(s, pat) is Some <==> occurs_in(s, pat),
{
    lemma_first_match_from(s, pat, 0);
    if let Some(p) = first_match(s, pat) {
        assert(matches_at(s, pat, p));
    }
}

/// Whether `pat` occurs in `s` at index `i`.
fn matches_at_exec(s: &[u8], pat: &[u8], i: usize) -> (r: bool)
    requires
        i + pat@.len() <= s@.len(),
    ensures
        r == matches_at(s@, pat@, i as int),
{
    let n = s.len();
    let mut k: usize = 0;
    while k < pat.len()
        invariant
            n == s@.len(),
            i + pat@.len() <= s@.len(),
            k <= pat@.len(),
            forall|j: int| 0 <= j < k ==> s@[i + j] == pat@[j],
        decreases pat@.len() - k,
    {
        if s[i + k] != pat[k] {
            assert(s@.subrange(i as int, i + pat@.len())[k as int] != pat@[k as int]);
            return false;
        }
        k = k + 1;
    }
    assert(s@.subrange(i as int, i + pat@.len()) =~= pat@);
    true
}

/// The first index at which `pat` occurs in `s`.
pub fn find(s: &[u8], pat: &[u8]) -> (r: Option<usize>)
    ensures
        match r {
            Some(p) => first_match(s@, pat@) == Some(p as int),
            None => first_match(s@, pat@) is None,
        },
{
    if pat.len() > s.len() {
        return None;
    }
    let last = s.len() - pat.len();
    let mut i: usize = 0;
    loop
        invariant
            last == s@.len() - pat@.len(),
            i <= last,
            first_match_from(s@, pat@, i as int) == first_match(s@, pat@),
        decreases last - i,
    {
        if matches_at_exec(s, pat, i) {
            return Some(i);
        }
        if i == last {
            return None;
        }
        i = i + 1;
    }
}

/// Whether `pat` occurs anywhere in `s`.
pub fn contains(s: &[u8], pat: &[u8]) -> (r: bool)
    ensures
        r == occurs_in(s@, pat@),
{
    proof {
        lemma_first_match(s@, pat@);
    }
    find(s, pat).is_some()
}

/// The first index at which the byte `b` occurs in `s`.
pub fn find_byte(s: &[u8], b: u8) -> (r: Option<usize>)
    ensures
        match r {
            Some(p) => first_match(s@, seq![b]) == Some(p as int),
            None => first_match(s@, seq![b]) is None,
        },
{
    let pat: [u8; 1] = [b];
    assert(pat@ =~= seq![b]);
    find(s, &pat)
}

} // verus!
