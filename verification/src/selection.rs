use vstd::prelude::*;

use crate::seqs::{equal_to, first_match, lemma_first_match, lemma_first_match_found, lemma_first_match_le};

verus! {

/// The selection with `x` taken out (its first occurrence) when it holds
/// `x`, and with `x` added at the end otherwise.
pub open spec fn toggled_in(sel: Seq<u128>, x: u128) -> Seq<u128> {
    if sel.contains(x) {
        sel.remove(first_match(sel, equal_to(x)))
    } else {
        sel.push(x)
    }
}

/// The selection after each of `xs` is toggled in turn.
pub open spec fn toggled_each(sel: Seq<u128>, xs: Seq<u128>) -> Seq<u128>
    decreases xs.len(),
{
    if xs.len() == 0 {
        sel
    } else {
        toggled_in(toggled_each(sel, xs.drop_last()), xs.last())
    }
}

/// The path a range selection starts from: the last selected one, or the
/// clicked one when nothing is selected.
pub open spec fn range_anchor(sel: Seq<u128>, p: u128) -> u128 {
    if sel.len() > 0 {
        sel.last()
    } else {
        p
    }
}

/// The selection of a collection (whose paths are `coll`) after a click on
/// the path `p`. With modifier 1 (shift) every path from the anchor
/// (excluded) to `p` (included) is toggled, in the order of the collection;
/// with modifier 2 (ctrl) `p` is toggled; otherwise `p` alone is selected.
pub open spec fn selection_after(sel: Seq<u128>, coll: Seq<u128>, p: u128, modifier: u8) -> Seq<u128> {
    if modifier == 1 {
        let lp = first_match(coll, equal_to(range_anchor(sel, p)));
        let tp = first_match(coll, equal_to(p));
        if lp < tp {
            toggled_each(sel, coll.subrange(lp + 1, tp + 1))
        } else {
            toggled_each(sel, coll.subrange(tp, lp))
        }
    } else if modifier == 2 {
        toggled_in(sel, p)
    } else {
        seq![p]
    }
}

/// Whether a click can be applied: a range selection needs the clicked path
/// and its anchor in the collection.
pub open spec fn selection_possible(sel: Seq<u128>, coll: Seq<u128>, p: u128, modifier: u8) -> bool {
    modifier == 1 ==> coll.contains(p) && coll.contains(range_anchor(sel, p))
}

/// The first position of `x` in `s`; the length of `s` when it is absent.
pub fn position_of_id(s: &Vec<u128>, x: u128) -> (r: usize)
    ensures
        r == first_match(s@, equal_to(x)),
        r <= s.len(),
{
    let mut i: usize = 0;
    while i < s.len()
        invariant
            0 <= i <= s.len(),
            forall|j: int| 0 <= j < i ==> !equal_to(x)(#[trigger] s@[j]),
        decreases s.len() - i,
    {
        if s[i] == x {
            proof { lemma_first_match(s@, equal_to(x), i as int); }
            return i;
        }
        i = i + 1;
    }
    proof { lemma_first_match(s@, equal_to(x), i as int); }
    i
}

/// Toggles `x` in the selection.
pub fn toggle_in(sel: &mut Vec<u128>, x: u128)
    ensures
        final(sel)@ == toggled_in(old(sel)@, x),
{
    let k = position_of_id(sel, x);
    if k < sel.len() {
        proof {
            lemma_first_match_found(old(sel)@, equal_to(x));
        }
        sel.remove(k);
    } else {
        proof {
            if old(sel)@.contains(x) {
                let j = choose|j: int| 0 <= j < old(sel)@.len() && old(sel)@[j] == x;
                lemma_first_match_le(old(sel)@, equal_to(x), j);
            }
        }
        sel.push(x);
    }
}

/// The selection after a click on the path `p` of a collection whose paths
/// are `coll`, as `selection_after` says.
pub fn select_in(sel: Vec<u128>, coll: &Vec<u128>, p: u128, modifier: u8) -> (r: Vec<u128>)
    requires
        selection_possible(sel@, coll@, p, modifier),
    ensures
        r@ == selection_after(sel@, coll@, p, modifier),
{
    let mut sel = sel;
    if modifier == 1 {
        let ghost s0 = sel@;
        let anchor = if sel.len() > 0 { sel[sel.len() - 1] } else { p };
        let last_pos = position_of_id(coll, anchor);
        let this_pos = position_of_id(coll, p);
        proof {
            let a = choose|j: int| 0 <= j < coll@.len() && coll@[j] == anchor;
            lemma_first_match_le(coll@, equal_to(anchor), a);
            let b = choose|j: int| 0 <= j < coll@.len() && coll@[j] == p;
            lemma_first_match_le(coll@, equal_to(p), b);
        }
        let (from, to) = if last_pos < this_pos { (last_pos + 1, this_pos + 1) } else { (this_pos, last_pos) };
        let ghost xs = coll@.subrange(from as int, to as int);
        let mut i: usize = from;
        while i < to
            invariant
                from <= i <= to <= coll.len(),
                xs == coll@.subrange(from as int, to as int),
                sel@ == toggled_each(s0, xs.take(i - from)),
            decreases to - i,
        {
            let ghost before = sel@;
            toggle_in(&mut sel, coll[i]);
            proof {
                assert(xs.take(i + 1 - from).drop_last() == xs.take(i - from));
                assert(xs.take(i + 1 - from).last() == coll@[i as int]);
            }
            i = i + 1;
        }
        proof {
            assert(xs.take(to - from) == xs);
        }
        sel
    } else if modifier == 2 {
        toggle_in(&mut sel, p);
        sel
    } else {
        let mut r: Vec<u128> = Vec::new();
        r.push(p);
        proof {
            assert(r@ == seq![p]);
        }
        r
    }
}

} // verus!
