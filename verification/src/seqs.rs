use vstd::prelude::*;

verus! {

/// The first position of `s` whose element satisfies `pred`; `s.len()` when
/// none does.
pub open spec fn first_match(s: Seq<u128>, pred: spec_fn(u128) -> bool) -> int
    decreases s.len(),
{
    if s.len() == 0 {
        0
    } else if pred(s[0]) {
        0
    } else {
        1 + first_match(s.drop_first(), pred)
    }
}

/// A position is the first match when no element before it matches and it
/// is the end or matches itself.
pub proof fn lemma_first_match(s: Seq<u128>, pred: spec_fn(u128) -> bool, i: int)
    requires
        0 <= i <= s.len(),
        forall|j: int| 0 <= j < i ==> !pred(#[trigger] s[j]),
        i == s.len() || pred(s[i]),
    ensures
        first_match(s, pred) == i,
    decreases s.len(),
{
    if s.len() != 0 && i != 0 {
        assert(!pred(s[0]));
        assert forall|j: int| 0 <= j < i - 1 implies !pred(#[trigger] s.drop_first()[j]) by {
            assert(s.drop_first()[j] == s[j + 1]);
        }
        if i < s.len() {
            assert(s.drop_first()[i - 1] == s[i]);
        }
        lemma_first_match(s.drop_first(), pred, i - 1);
    }
}

/// The value `id`.
pub open spec fn equal_to(id: u128) -> spec_fn(u128) -> bool {
    |x: u128| x == id
}

/// A first match lies between the start and the end.
pub proof fn lemma_first_match_bounds(s: Seq<u128>, pred: spec_fn(u128) -> bool)
    ensures
        0 <= first_match(s, pred) <= s.len(),
    decreases s.len(),
{
    if s.len() != 0 && !pred(s[0]) {
        lemma_first_match_bounds(s.drop_first(), pred);
    }
}

/// A first match before the end matches.
pub proof fn lemma_first_match_found(s: Seq<u128>, pred: spec_fn(u128) -> bool)
    requires
        first_match(s, pred) < s.len(),
    ensures
        pred(s[first_match(s, pred)]),
    decreases s.len(),
{
    if s.len() != 0 && !pred(s[0]) {
        let d = s.drop_first();
        assert(first_match(s, pred) == 1 + first_match(d, pred));
        lemma_first_match_found(d, pred);
        lemma_first_match_bounds(d, pred);
        assert(d[first_match(d, pred)] == s[first_match(d, pred) + 1]);
    }
}

/// The first match comes no later than any match.
pub proof fn lemma_first_match_le(s: Seq<u128>, pred: spec_fn(u128) -> bool, j: int)
    requires
        0 <= j < s.len(),
        pred(s[j]),
    ensures
        first_match(s, pred) <= j,
    decreases j,
{
    if !pred(s[0]) {
        assert(s.drop_first()[j - 1] == s[j]);
        lemma_first_match_le(s.drop_first(), pred, j - 1);
    }
}

/// No element before the first match matches.
pub proof fn lemma_first_match_before(s: Seq<u128>, pred: spec_fn(u128) -> bool, j: int)
    requires
        0 <= j < first_match(s, pred),
        j < s.len(),
    ensures
        !pred(s[j]),
    decreases j,
{
    if j > 0 {
        assert(!pred(s[0]));
        assert(s.drop_first()[j - 1] == s[j]);
        lemma_first_match_before(s.drop_first(), pred, j - 1);
    } else {
        if pred(s[0]) {
            assert(first_match(s, pred) == 0);
        }
    }
}

} // verus!
