//! Asset fallback selection: several candidate loads are attempted in
//! order (the reads themselves happen outside this crate) and the
//! first one that produced data wins.

use vstd::prelude::*;

verus! {

/// The first loaded buffer in the list, if any.
pub open spec fn first_loaded(s: Seq<Option<Vec<u8>>>) -> Option<Vec<u8>>
    decreases s.len(),
{
    if s.len() == 0 {
        None
    } else if s.first() is Some {
        s.first()
    } else {
        first_loaded(s.drop_first())
    }
}

proof fn lemma_first_loaded_at(s: Seq<Option<Vec<u8>>>, k: int)
    requires
        0 <= k < s.len(),
        s[k] is Some,
        forall|t: int| 0 <= t < k ==> s[t] is None,
    ensures
        first_loaded(s) == s[k],
    decreases k,
{
    if k == 0 {
    } else {
        assert(s.first() is None);
        assert(forall|t: int| 0 <= t < k - 1 ==> s.drop_first()[t] is None);
        assert(s.drop_first()[k - 1] == s[k]);
        lemma_first_loaded_at(s.drop_first(), k - 1);
    }
}

proof fn lemma_first_loaded_none(s: Seq<Option<Vec<u8>>>)
    requires
        forall|t: int| 0 <= t < s.len() ==> s[t] is None,
    ensures
        first_loaded(s) is None,
    decreases s.len(),
{
    if s.len() > 0 {
        assert(forall|t: int| 0 <= t < s.drop_first().len() ==> s.drop_first()[t] is None);
        lemma_first_loaded_none(s.drop_first());
    }
}

/// Pick the first of several attempted loads that produced a buffer,
/// in the order the attempts were made; the chosen buffer is taken
/// out of the list.
pub fn load_bytes_any(attempts: &mut Vec<Option<Vec<u8>>>) -> (r: Option<Vec<u8>>)
    ensures
        r == first_loaded(old(attempts)@),
        r is None ==> final(attempts)@ == old(attempts)@,
{
    let ghost orig = attempts@;
    let mut k: usize = 0;
    while k < attempts.len()
        invariant
            orig == old(attempts)@,
            attempts@ == orig,
            k <= attempts@.len(),
            forall|t: int| 0 <= t < k ==> attempts@[t] is None,
        decreases attempts@.len() - k,
    {
        if attempts[k].is_some() {
            proof {
                lemma_first_loaded_at(attempts@, k as int);
            }
            return attempts.remove(k);
        }
        k += 1;
    }
    proof {
        lemma_first_loaded_none(attempts@);
    }
    None
}

} // verus!
