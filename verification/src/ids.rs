use vstd::prelude::*;
use vstd::set_lib::*;

verus! {

/// A new random (version 4) UUID, as its 128-bit value.
///
/// Calls `uuid::Uuid::new_v4` and `Uuid::as_u128`. The value rests on chance:
/// nothing is promised of it, not even that it differs from earlier ones.
#[verifier::external_body]
pub(crate) fn random_id() -> (r: u128)
{
    uuid::Uuid::new_v4().as_u128()
}

/// Whether `id` occurs in `ids`.
pub fn contains_id(ids: &Vec<u128>, id: u128) -> (r: bool)
    ensures
        r == ids@.contains(id),
{
    let mut i: usize = 0;
    while i < ids.len()
        invariant
            0 <= i <= ids.len(),
            forall|j: int| 0 <= j < i ==> ids@[j] != id,
        decreases ids.len() - i,
    {
        if ids[i] == id {
            assert(ids@[i as int] == id);
            return true;
        }
        i = i + 1;
    }
    false
}

proof fn lemma_some_small_value_unused(used: Seq<u128>)
    requires
        used.len() < u128::MAX,
    ensures
        exists|c: u128| c <= used.len() && !#[trigger] used.contains(c),
{
    let n = used.len() as int;
    if forall|c: u128| c <= n ==> #[trigger] used.contains(c) {
        let ints = used.map_values(|x: u128| x as int);
        let s = ints.to_set();
        assert(set_int_range(0, n + 1).subset_of(s)) by {
            assert forall|c: int| set_int_range(0, n + 1).contains(c) implies s.contains(c) by {
                assert(used.contains(c as u128));
                let k = choose|k: int| 0 <= k < used.len() && used[k] == c as u128;
                assert(ints[k] == c);
            }
        }
        lemma_int_range(0, n + 1);
        ints.lemma_cardinality_of_set();
        vstd::seq_lib::seq_to_set_is_finite(ints);
        lemma_len_subset(set_int_range(0, n + 1), s);
    }
}

/// An id that does not occur in `used`: a random one, or, should that one be
/// taken already, the smallest value that is free.
pub fn fresh_id(used: &Vec<u128>) -> (r: u128)
    ensures
        !used@.contains(r),
{
    let candidate = random_id();
    if !contains_id(used, candidate) {
        return candidate;
    }
    proof {
        assert(used@.len() == used.len());
        lemma_some_small_value_unused(used@);
    }
    let mut c: u128 = 0;
    while c < used.len() as u128
        invariant
            c <= used.len(),
            exists|d: u128| c <= d <= used.len() && !#[trigger] used@.contains(d),
        decreases used.len() - c,
    {
        if !contains_id(used, c) {
            return c;
        }
        c = c + 1;
    }
    assert(!used@.contains(c));
    c
}

} // verus!
