use vstd::prelude::*;
use vstd::string::StrSliceExecFns;

verus! {

/// Whether `a` comes strictly before `b` in lexicographic order of their
/// characters (the order of `str`, since UTF-8 keeps the order of code
/// points).
pub open spec fn text_lt(a: Seq<char>, b: Seq<char>) -> bool
    decreases a.len(),
{
    if a.len() == 0 {
        b.len() > 0
    } else if b.len() == 0 {
        false
    } else if a[0] != b[0] {
        a[0] < b[0]
    } else {
        text_lt(a.drop_first(), b.drop_first())
    }
}

/// Whether the name starts with the prefix.
pub open spec fn has_prefix(name: Seq<char>, prefix: Seq<char>) -> bool {
    prefix.len() <= name.len() && name.subrange(0, prefix.len() as int) == prefix
}

/// The order in which log files are deleted: by name, and among equal
/// names by position in the list.
pub open spec fn comes_before(names: Seq<Seq<char>>, i: int, j: int) -> bool {
    text_lt(names[i], names[j]) || (names[i] == names[j] && i < j)
}

/// The positions of the names that start with the prefix.
pub open spec fn is_candidate(names: Seq<Seq<char>>, prefix: Seq<char>, i: int) -> bool {
    0 <= i < names.len() && has_prefix(names[i], prefix)
}

/// The number of names that start with the prefix among the first `n`.
pub open spec fn candidate_count(names: Seq<Seq<char>>, prefix: Seq<char>, n: int) -> nat
    decreases n,
{
    if n <= 0 {
        0
    } else {
        candidate_count(names, prefix, n - 1) + if has_prefix(names[n - 1], prefix) { 1nat } else { 0nat }
    }
}

/// Which logs to delete: when more than `keep` names start with the
/// prefix, the positions of all but the last `keep` of them in the order
/// `comes_before`, first to last; otherwise none.
pub open spec fn deletion_list(names: Seq<Seq<char>>, prefix: Seq<char>, keep: nat, r: Seq<usize>) -> bool {
    let n = candidate_count(names, prefix, names.len() as int);
    &&& n <= keep ==> r.len() == 0
    &&& n > keep ==> {
        &&& r.len() == n - keep
        &&& forall|a: int| 0 <= a < r.len() ==> is_candidate(names, prefix, #[trigger] r[a] as int)
        &&& forall|a: int, b: int| 0 <= a < b < r.len() ==> comes_before(names, #[trigger] r[a] as int, #[trigger] r[b] as int)
        &&& forall|a: int, j: int|
            #![trigger r[a], is_candidate(names, prefix, j)]
            0 <= a < r.len() && is_candidate(names, prefix, j) && !r.contains(j as usize) ==> comes_before(
                names,
                r[a] as int,
                j,
            )
    }
}

/// A name never comes before itself.
proof fn lemma_text_lt_irreflexive(a: Seq<char>)
    ensures
        !text_lt(a, a),
    decreases a.len(),
{
    if a.len() > 0 {
        lemma_text_lt_irreflexive(a.drop_first());
    }
}

/// Of two different names, exactly one comes first.
proof fn lemma_text_lt_total(a: Seq<char>, b: Seq<char>)
    ensures
        a != b ==> text_lt(a, b) || text_lt(b, a),
        !(text_lt(a, b) && text_lt(b, a)),
    decreases a.len(),
{
    if a.len() > 0 && b.len() > 0 && a[0] == b[0] {
        lemma_text_lt_total(a.drop_first(), b.drop_first());
        if a != b {
            assert(a.drop_first() != b.drop_first()) by {
                if a.drop_first() == b.drop_first() {
                    assert(a =~= seq![a[0]] + a.drop_first());
                    assert(b =~= seq![b[0]] + b.drop_first());
                }
            }
        }
    } else if a.len() == 0 && b.len() == 0 {
        assert(a =~= b);
    }
}

/// The order of names is transitive.
proof fn lemma_text_lt_transitive(a: Seq<char>, b: Seq<char>, c: Seq<char>)
    requires
        text_lt(a, b),
        text_lt(b, c),
    ensures
        text_lt(a, c),
    decreases a.len(),
{
    if a.len() > 0 && b.len() > 0 && c.len() > 0 && a[0] == b[0] && b[0] == c[0] {
        lemma_text_lt_transitive(a.drop_first(), b.drop_first(), c.drop_first());
    }
}

/// The deletion order is a strict total order on positions.
proof fn lemma_order(names: Seq<Seq<char>>, i: int, j: int, k: int)
    ensures
        !comes_before(names, i, i),
        i != j ==> (comes_before(names, i, j) || comes_before(names, j, i)),
        !(comes_before(names, i, j) && comes_before(names, j, i)),
        comes_before(names, i, j) && comes_before(names, j, k) ==> comes_before(names, i, k),
{
    lemma_text_lt_irreflexive(names[i]);
    lemma_text_lt_total(names[i], names[j]);
    if comes_before(names, i, j) && comes_before(names, j, k) {
        if text_lt(names[i], names[j]) && text_lt(names[j], names[k]) {
            lemma_text_lt_transitive(names[i], names[j], names[k]);
        }
    }
}

/// Whether `a` comes strictly before `b`, as `text_lt` says.
fn text_less(a: &str, b: &str) -> (r: bool)
    ensures
        r == text_lt(a@, b@),
{
    let n = a.unicode_len();
    let m = b.unicode_len();
    let mut i: usize = 0;
    proof {
        assert(a@.skip(0) =~= a@);
        assert(b@.skip(0) =~= b@);
    }
    while i < n && i < m
        invariant
            n == a@.len(),
            m == b@.len(),
            0 <= i <= n,
            i <= m,
            a@.subrange(0, i as int) == b@.subrange(0, i as int),
            text_lt(a@, b@) == text_lt(a@.skip(i as int), b@.skip(i as int)),
        decreases n - i,
    {
        let x = a.get_char(i);
        let y = b.get_char(i);
        proof {
            assert(a@.skip(i as int)[0] == x);
            assert(b@.skip(i as int)[0] == y);
        }
        if x != y {
            return x < y;
        }
        proof {
            assert(a@.skip(i as int).drop_first() =~= a@.skip(i + 1));
            assert(b@.skip(i as int).drop_first() =~= b@.skip(i + 1));
            assert(a@.subrange(0, i + 1) =~= a@.subrange(0, i as int).push(x));
            assert(b@.subrange(0, i + 1) =~= b@.subrange(0, i as int).push(y));
        }
        i = i + 1;
    }
    proof {
        assert(a@.skip(i as int).len() == n - i);
        assert(b@.skip(i as int).len() == m - i);
    }
    i == n && i < m
}

/// Whether the name starts with the prefix.
fn starts_with(name: &str, prefix: &str) -> (r: bool)
    ensures
        r == has_prefix(name@, prefix@),
{
    let n = name.unicode_len();
    let p = prefix.unicode_len();
    if p > n {
        return false;
    }
    let mut i: usize = 0;
    while i < p
        invariant
            n == name@.len(),
            p == prefix@.len(),
            p <= n,
            0 <= i <= p,
            forall|j: int| 0 <= j < i ==> name@[j] == prefix@[j],
        decreases p - i,
    {
        if name.get_char(i) != prefix.get_char(i) {
            return false;
        }
        i = i + 1;
    }
    proof {
        assert(name@.subrange(0, p as int) =~= prefix@);
    }
    true
}

/// The views of a list of names.
pub open spec fn name_views(names: Seq<String>) -> Seq<Seq<char>> {
    names.map_values(|s: String| s@)
}

/// The positions of the names that start with the prefix, in order.
fn candidates(names: &Vec<String>, log_prefix: &str) -> (r: Vec<usize>)
    ensures
        r.len() == candidate_count(name_views(names@), log_prefix@, names.len() as int),
        forall|a: int, b: int| 0 <= a < b < r.len() ==> #[trigger] r@[a] < #[trigger] r@[b],
        forall|a: int| 0 <= a < r.len() ==> is_candidate(name_views(names@), log_prefix@, #[trigger] r@[a] as int),
        forall|x: int| is_candidate(name_views(names@), log_prefix@, x) ==> r@.contains(x as usize),
{
    let ghost ns = name_views(names@);
    let mut r: Vec<usize> = Vec::new();
    let mut i: usize = 0;
    while i < names.len()
        invariant
            0 <= i <= names.len(),
            ns == name_views(names@),
            r.len() == candidate_count(ns, log_prefix@, i as int),
            forall|a: int, b: int| 0 <= a < b < r.len() ==> #[trigger] r@[a] < #[trigger] r@[b],
            forall|a: int| 0 <= a < r.len() ==> #[trigger] r@[a] < i && is_candidate(ns, log_prefix@, r@[a] as int),
            forall|x: int| 0 <= x < i && is_candidate(ns, log_prefix@, x) ==> r@.contains(x as usize),
        decreases names.len() - i,
    {
        let c = starts_with(names[i].as_str(), log_prefix);
        proof {
            assert(ns[i as int] == names@[i as int]@);
        }
        let ghost before = r@;
        if c {
            r.push(i);
            proof {
                assert forall|x: int| 0 <= x < i + 1 && is_candidate(ns, log_prefix@, x) implies r@.contains(
                    x as usize,
                ) by {
                    if x < i {
                        let a = choose|a: int| 0 <= a < before.len() && before[a] == x as usize;
                        assert(r@[a] == x as usize);
                    } else {
                        assert(r@[r.len() - 1] == x as usize);
                    }
                }
            }
        }
        i = i + 1;
    }
    r
}

/// The positions of the log files to delete so that only the newest
/// `rotation_count` of those whose names start with `log_prefix` stay, as
/// `deletion_list` says: the oldest by name, first to last.
pub fn logs_to_delete(names: &Vec<String>, log_prefix: &str, rotation_count: usize) -> (r: Vec<usize>)
    ensures
        deletion_list(name_views(names@), log_prefix@, rotation_count as nat, r@),
{
    let ghost ns = name_views(names@);
    let mut remaining = candidates(names, log_prefix);
    let count = remaining.len();
    let mut r: Vec<usize> = Vec::new();
    if count <= rotation_count {
        return r;
    }
    let k = count - rotation_count;
    while r.len() < k
        invariant
            ns == name_views(names@),
            count == candidate_count(ns, log_prefix@, names.len() as int),
            k == count - rotation_count,
            k <= count,
            r.len() <= k,
            remaining.len() + r.len() == count,
            forall|a: int, b: int| 0 <= a < remaining.len() && 0 <= b < remaining.len() && a != b ==> #[trigger] remaining@[a]
                != #[trigger] remaining@[b],
            forall|a: int| 0 <= a < remaining.len() ==> is_candidate(ns, log_prefix@, #[trigger] remaining@[a] as int)
                && !r@.contains(remaining@[a]),
            forall|x: int| is_candidate(ns, log_prefix@, x) ==> r@.contains(x as usize) || remaining@.contains(x as usize),
            forall|a: int| 0 <= a < r.len() ==> is_candidate(ns, log_prefix@, #[trigger] r@[a] as int),
            forall|a: int, b: int| 0 <= a < b < r.len() ==> comes_before(ns, #[trigger] r@[a] as int, #[trigger] r@[b] as int),
            forall|a: int, x: int|
                #![trigger r@[a], is_candidate(ns, log_prefix@, x)]
                0 <= a < r.len() && is_candidate(ns, log_prefix@, x) && !r@.contains(x as usize) ==> comes_before(
                    ns,
                    r@[a] as int,
                    x,
                ),
        decreases k - r.len(),
    {
        let mut bi: usize = 0;
        let mut x: usize = 1;
        while x < remaining.len()
            invariant
                ns == name_views(names@),
                0 < remaining.len(),
                0 <= bi < remaining.len(),
                1 <= x <= remaining.len(),
                bi < x,
                forall|a: int| 0 <= a < remaining.len() ==> (#[trigger] remaining@[a]) < names.len(),
                forall|a: int, b: int| 0 <= a < remaining.len() && 0 <= b < remaining.len() && a != b ==> #[trigger] remaining@[a]
                    != #[trigger] remaining@[b],
                forall|y: int| 0 <= y < x && y != bi ==> comes_before(ns, remaining@[bi as int] as int, #[trigger] remaining@[y] as int),
            decreases remaining.len() - x,
        {
            let cand = remaining[x];
            let best = remaining[bi];
            let better = text_less(names[cand].as_str(), names[best].as_str());
            proof {
                assert(ns[cand as int] == names@[cand as int]@);
                assert(ns[best as int] == names@[best as int]@);
            }
            let better = better || (names[cand] == names[best] && cand < best);
            if better {
                proof {
                    assert forall|y: int| 0 <= y < x + 1 && y != x implies comes_before(
                        ns,
                        remaining@[x as int] as int,
                        #[trigger] remaining@[y] as int,
                    ) by {
                        if y != bi as int {
                            lemma_order(ns, cand as int, best as int, remaining@[y] as int);
                        }
                    }
                }
                bi = x;
            } else {
                proof {
                    lemma_order(ns, best as int, cand as int, cand as int);
                }
            }
            x = x + 1;
        }
        let best = remaining[bi];
        let ghost old_r = r@;
        let ghost old_rem = remaining@;
        remaining.remove(bi);
        r.push(best);
        proof {
            assert forall|a: int| 0 <= a < remaining.len() implies is_candidate(ns, log_prefix@, #[trigger] remaining@[a] as int)
                && !r@.contains(remaining@[a]) by {
                let o = if a < bi { a } else { a + 1 };
                assert(remaining@[a] == old_rem[o]);
                assert(old_rem[o] != best);
                if r@.contains(remaining@[a]) {
                    let q = choose|q: int| 0 <= q < r.len() && r@[q] == remaining@[a];
                    if q < old_r.len() {
                        assert(old_r[q] == remaining@[a]);
                    }
                }
            }
            assert forall|x: int| is_candidate(ns, log_prefix@, x) implies r@.contains(x as usize) || remaining@.contains(
                x as usize,
            ) by {
                if old_r.contains(x as usize) {
                    let q = choose|q: int| 0 <= q < old_r.len() && old_r[q] == x as usize;
                    assert(r@[q] == x as usize);
                } else {
                    let q = choose|q: int| 0 <= q < old_rem.len() && old_rem[q] == x as usize;
                    if q == bi {
                        assert(r@[r.len() - 1] == x as usize);
                    } else if q < bi {
                        assert(remaining@[q] == x as usize);
                    } else {
                        assert(remaining@[q - 1] == x as usize);
                    }
                }
            }
            assert forall|a: int, b: int| 0 <= a < remaining.len() && 0 <= b < remaining.len() && a != b implies #[trigger] remaining@[a]
                != #[trigger] remaining@[b] by {
                let oa = if a < bi { a } else { a + 1 };
                let ob = if b < bi { b } else { b + 1 };
                assert(remaining@[a] == old_rem[oa]);
                assert(remaining@[b] == old_rem[ob]);
            }
            assert forall|a: int| 0 <= a < r.len() implies is_candidate(ns, log_prefix@, #[trigger] r@[a] as int) by {
                if a < old_r.len() {
                    assert(r@[a] == old_r[a]);
                }
            }
            assert(!old_r.contains(best));
            assert forall|a: int, b: int| 0 <= a < b < r.len() implies comes_before(
                ns,
                #[trigger] r@[a] as int,
                #[trigger] r@[b] as int,
            ) by {
                assert(r@[a] == old_r[a]);
                if b < old_r.len() {
                    assert(r@[b] == old_r[b]);
                }
            }
            assert forall|a: int, x: int|
                #![trigger r@[a], is_candidate(ns, log_prefix@, x)]
                0 <= a < r.len() && is_candidate(ns, log_prefix@, x) && !r@.contains(x as usize) implies comes_before(
                ns,
                r@[a] as int,
                x,
            ) by {
                assert(!old_r.contains(x as usize)) by {
                    if old_r.contains(x as usize) {
                        let q = choose|q: int| 0 <= q < old_r.len() && old_r[q] == x as usize;
                        assert(r@[q] == x as usize);
                    }
                }
                assert(x as usize != best) by {
                    if x as usize == best {
                        assert(r@[r.len() - 1] == best);
                    }
                }
                if a < old_r.len() {
                    assert(r@[a] == old_r[a]);
                } else {
                    let q = choose|q: int| 0 <= q < old_rem.len() && old_rem[q] == x as usize;
                    assert(q != bi);
                    assert(comes_before(ns, old_rem[bi as int] as int, old_rem[q] as int));
                }
            }
        }
    }
    r
}

} // verus!
