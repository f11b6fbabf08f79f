use vstd::prelude::*;
use vstd::set_lib::set_int_range;

use crate::ranking::{outranks, outranks_exec, SortPriority};

verus! {

/// A candidate together with the integer key it is ranked by.
#[derive(Debug, Clone, Copy, PartialEq)]
pub struct Ranked<T> {
    pub key: i64,
    pub item: T,
}

/// Candidate `i` comes before candidate `j` in the ranking of `c`:
/// its key ranks ahead, or the keys are equal and `i` was seen first.
pub open spec fn precedes<T>(priority: SortPriority, c: Seq<Ranked<T>>, i: int, j: int) -> bool {
    outranks(priority, c[i].key, c[j].key) || (c[i].key == c[j].key && i < j)
}

pub open spec fn min_nat(a: nat, b: nat) -> nat {
    if a <= b { a } else { b }
}

/// `picked` lists, in ranking order, the positions of the `n` first-ranked
/// candidates of `c` (all of them when there are fewer than `n`).
pub open spec fn is_selection<T>(c: Seq<Ranked<T>>, n: nat, priority: SortPriority, picked: Seq<int>) -> bool {
    &&& picked.len() == min_nat(n, c.len())
    &&& forall|k: int| 0 <= k < picked.len() ==> 0 <= #[trigger] picked[k] < c.len()
    &&& forall|k: int, l: int|
        0 <= k < l < picked.len() ==> precedes(priority, c, #[trigger] picked[k], #[trigger] picked[l])
    &&& forall|i: int| 0 <= i < c.len() && !#[trigger] picked.contains(i) ==> picked.len() == n
    &&& forall|i: int, k: int|
        #![trigger picked.contains(i), picked[k]]
        0 <= i < c.len() && !picked.contains(i) && 0 <= k < picked.len() ==> precedes(
            priority,
            c,
            picked[k],
            i,
        )
}

/// `r` is the list of the `n` best candidates of `c`, best first, equal keys
/// in the order the candidates were seen: the first `n` of a stable sort.
pub open spec fn is_top_selection<T>(c: Seq<Ranked<T>>, n: nat, priority: SortPriority, r: Seq<Ranked<T>>) -> bool {
    exists|picked: Seq<int>| #[trigger]
        is_selection(c, n, priority, picked) && r == picked.map_values(|i: int| c[i])
}

/// `precedes` is transitive.
pub proof fn lemma_precedes_transitive<T>(
    priority: SortPriority,
    c: Seq<Ranked<T>>,
    a: int,
    b: int,
    d: int,
)
    requires
        priority != SortPriority::Auto,
        precedes(priority, c, a, b),
        precedes(priority, c, b, d),
    ensures
        precedes(priority, c, a, d),
{
}

/// `precedes` is irreflexive and asymmetric.
pub proof fn lemma_precedes_asymmetric<T>(priority: SortPriority, c: Seq<Ranked<T>>, a: int, b: int)
    requires
        priority != SortPriority::Auto,
        precedes(priority, c, a, b),
    ensures
        !precedes(priority, c, b, a),
        a != b,
{
}

/// Any two distinct candidates are ordered one way or the other.
pub proof fn lemma_precedes_total<T>(priority: SortPriority, c: Seq<Ranked<T>>, a: int, b: int)
    requires
        priority != SortPriority::Auto,
        a != b,
    ensures
        precedes(priority, c, a, b) || precedes(priority, c, b, a),
{
}


/// Keeping the selection when a candidate arrives that does not outrank the
/// last kept entry of a full list (or when nothing is kept at all).
proof fn lemma_reject<T>(c: Seq<Ranked<T>>, n: nat, priority: SortPriority, picked: Seq<int>, cand: Ranked<T>)
    requires
        priority != SortPriority::Auto,
        is_selection(c, n, priority, picked),
        n == 0 || (picked.len() == n && !outranks(priority, cand.key, c[picked.last()].key)),
    ensures
        is_selection(c.push(cand), n, priority, picked),
{
    let c2 = c.push(cand);
    let m = c.len() as int;
    assert forall|k: int| 0 <= k < picked.len() implies #[trigger] c2[picked[k]] == c[picked[k]] by {}
    assert forall|k: int, l: int| 0 <= k < l < picked.len() implies precedes(
        priority,
        c2,
        #[trigger] picked[k],
        #[trigger] picked[l],
    ) by {
        assert(precedes(priority, c, picked[k], picked[l]));
    }
    if n > 0 {
        let last = picked.len() - 1;
        assert(precedes(priority, c2, picked[last], m));
        assert forall|i: int, k: int|
            #![trigger picked.contains(i), picked[k]]
            0 <= i < c2.len() && !picked.contains(i) && 0 <= k < picked.len() implies precedes(
            priority,
            c2,
            picked[k],
            i,
        ) by {
            if i < m {
                assert(precedes(priority, c, picked[k], i));
            } else {
                if k < last {
                    assert(precedes(priority, c, picked[k], picked[last]));
                    lemma_precedes_transitive(priority, c2, picked[k], picked[last], m);
                }
            }
        }
    }
    assert forall|i: int| 0 <= i < c2.len() && !#[trigger] picked.contains(i) implies picked.len() == n by {
        if i < m {
        }
    }
}

/// Inserting a candidate at the first position where it outranks the entry
/// already there, and dropping the last entry when the list overflows.
proof fn lemma_insert<T>(
    c: Seq<Ranked<T>>,
    n: nat,
    priority: SortPriority,
    picked: Seq<int>,
    cand: Ranked<T>,
    idx: int,
) -> (q: Seq<int>)
    requires
        priority != SortPriority::Auto,
        is_selection(c, n, priority, picked),
        n > 0,
        0 <= idx <= picked.len(),
        picked.len() < n || idx < picked.len(),
        forall|j: int| 0 <= j < idx ==> !outranks(priority, cand.key, #[trigger] c[picked[j]].key),
        idx < picked.len() ==> outranks(priority, cand.key, c[picked[idx]].key),
    ensures
        is_selection(c.push(cand), n, priority, q),
        q == (if picked.len() < n {
            picked.insert(idx, c.len() as int)
        } else {
            picked.insert(idx, c.len() as int).drop_last()
        }),
{
    let c2 = c.push(cand);
    let m = c.len() as int;
    let q0 = picked.insert(idx, m);
    assert forall|k: int| 0 <= k < picked.len() implies #[trigger] c2[picked[k]] == c[picked[k]] by {}
    assert forall|k: int| 0 <= k < q0.len() implies 0 <= #[trigger] q0[k] < c2.len() by {
        if k > idx {
            assert(q0[k] == picked[k - 1]);
        } else if k < idx {
            assert(q0[k] == picked[k]);
        }
    }
    assert forall|k: int, l: int| 0 <= k < l < q0.len() implies precedes(
        priority,
        c2,
        #[trigger] q0[k],
        #[trigger] q0[l],
    ) by {
        if l < idx {
            assert(q0[k] == picked[k] && q0[l] == picked[l]);
            assert(precedes(priority, c, picked[k], picked[l]));
        } else if l == idx {
            assert(q0[k] == picked[k]);
            assert(!outranks(priority, cand.key, c[picked[k]].key));
        } else if k == idx {
            assert(q0[l] == picked[l - 1]);
            if l - 1 > idx {
                assert(precedes(priority, c, picked[idx], picked[l - 1]));
            }
        } else if k < idx {
            assert(q0[k] == picked[k] && q0[l] == picked[l - 1]);
            assert(precedes(priority, c, picked[k], picked[l - 1]));
        } else {
            assert(q0[k] == picked[k - 1] && q0[l] == picked[l - 1]);
            assert(precedes(priority, c, picked[k - 1], picked[l - 1]));
        }
    }
    assert(q0[idx] == m);
    assert forall|j: int| 0 <= j < picked.len() implies #[trigger] q0.contains(picked[j]) by {
        if j < idx {
            assert(q0[j] == picked[j]);
        } else {
            assert(q0[j + 1] == picked[j]);
        }
    }
    if picked.len() < n {
        let q = q0;
        assert forall|i: int| 0 <= i < c2.len() implies #[trigger] q.contains(i) by {
            if i < m {
                if !picked.contains(i) {
                    assert(picked.len() == n);
                }
                let j = choose|j: int| 0 <= j < picked.len() && picked[j] == i;
                assert(q0.contains(picked[j]));
            } else {
                assert(q[idx] == i);
            }
        }
        q
    } else {
        let q = q0.drop_last();
        let last = q0.len() - 1;
        assert(q0[last] == picked[picked.len() - 1]);
        assert(q[idx] == m);
        assert forall|k: int| 0 <= k < q.len() implies 0 <= #[trigger] q[k] < c2.len() by {
            assert(q[k] == q0[k]);
        }
        assert forall|k: int, l: int| 0 <= k < l < q.len() implies precedes(
            priority,
            c2,
            #[trigger] q[k],
            #[trigger] q[l],
        ) by {
            assert(q[k] == q0[k] && q[l] == q0[l]);
        }
        assert forall|i: int, k: int|
            #![trigger q.contains(i), q[k]]
            0 <= i < c2.len() && !q.contains(i) && 0 <= k < q.len() implies precedes(priority, c2, q[k], i) by {
            assert(q[k] == q0[k]);
            if i == m {
                assert(q.contains(m));
            } else if picked.contains(i) {
                let j = choose|j: int| 0 <= j < picked.len() && picked[j] == i;
                if j < picked.len() - 1 {
                    if j < idx {
                        assert(q[j] == i);
                    } else {
                        assert(q[j + 1] == i);
                    }
                }
                assert(i == q0[last]);
            } else {
                assert(precedes(priority, c, picked[picked.len() - 1], i));
                assert(precedes(priority, c2, q0[last], i));
                lemma_precedes_transitive(priority, c2, q0[k], q0[last], i);
            }
        }
        assert forall|i: int| 0 <= i < c2.len() && !#[trigger] q.contains(i) implies q.len() == n by {}
        q
    }
}


/// Replacing a block of candidates by that block's own top selection leaves
/// the top selection of the whole sequence unchanged.
pub proof fn lemma_replace_block<T>(
    a: Seq<Ranked<T>>,
    b: Seq<Ranked<T>>,
    rb: Seq<Ranked<T>>,
    z: Seq<Ranked<T>>,
    n: nat,
    priority: SortPriority,
    r: Seq<Ranked<T>>,
)
    requires
        priority != SortPriority::Auto,
        is_top_selection(b, n, priority, rb),
        is_top_selection(a + rb + z, n, priority, r),
    ensures
        is_top_selection(a + b + z, n, priority, r),
{
    let bs = choose|bs: Seq<int>| #[trigger]
        is_selection(b, n, priority, bs) && rb == bs.map_values(|i: int| b[i]);
    let x = a + rb + z;
    let y = a + b + z;
    let f = choose|f: Seq<int>| #[trigger]
        is_selection(x, n, priority, f) && r == f.map_values(|i: int| x[i]);
    let la = a.len() as int;
    let lr = rb.len() as int;
    let lb = b.len() as int;
    let g = |i: int|
        if i < la {
            i
        } else if i < la + lr {
            la + bs[i - la]
        } else {
            i - lr + lb
        };
    let f2 = f.map_values(g);
    assert(lr == bs.len());
    // Positions of x map to positions of y holding the same candidate.
    assert forall|i: int| 0 <= i < x.len() implies 0 <= #[trigger] g(i) < y.len() && y[g(i)] == x[i] by {
        if i < la {
        } else if i < la + lr {
            assert(rb[i - la] == b[bs[i - la]]);
        } else {
        }
    }
    // The mapping keeps the ranking between any two positions.
    assert forall|i: int, j: int| 0 <= i < x.len() && 0 <= j < x.len() implies (precedes(priority, x, i, j)
        <==> precedes(priority, y, #[trigger] g(i), #[trigger] g(j))) by {
        if x[i].key == x[j].key {
            if la <= i < la + lr && la <= j < la + lr {
                let qi = i - la;
                let qj = j - la;
                if qi < qj {
                    assert(precedes(priority, b, bs[qi], bs[qj]));
                } else if qj < qi {
                    assert(precedes(priority, b, bs[qj], bs[qi]));
                }
            }
        }
    }
    assert(f2.len() == min_nat(n, y.len())) by {
        if lb <= n {
        } else {
        }
    }
    assert forall|k: int| 0 <= k < f2.len() implies 0 <= #[trigger] f2[k] < y.len() by {
        assert(f2[k] == g(f[k]));
    }
    assert forall|k: int, l: int| 0 <= k < l < f2.len() implies precedes(
        priority,
        y,
        #[trigger] f2[k],
        #[trigger] f2[l],
    ) by {
        assert(f2[k] == g(f[k]) && f2[l] == g(f[l]));
        assert(precedes(priority, x, f[k], f[l]));
    }
    // Every position of y left out of f2 ranks behind all of f2.
    assert forall|t: int| 0 <= t < y.len() && !#[trigger] f2.contains(t) implies f2.len() == n
        && forall|k: int| 0 <= k < f2.len() ==> precedes(priority, y, #[trigger] f2[k], t) by {
        let in_b = la <= t < la + lb && !bs.contains(t - la);
        if !in_b {
            let i = if t < la {
                t
            } else if t < la + lb {
                let s = choose|s: int| 0 <= s < bs.len() && bs[s] == t - la;
                la + s
            } else {
                t + lr - lb
            };
            assert(0 <= i < x.len() && g(i) == t);
            if f.contains(i) {
                let k = choose|k: int| 0 <= k < f.len() && f[k] == i;
                assert(f2[k] == t);
            }
            assert forall|k: int| 0 <= k < f2.len() implies precedes(priority, y, #[trigger] f2[k], t) by {
                assert(f2[k] == g(f[k]));
                assert(precedes(priority, x, f[k], i));
            }
        } else {
            let q = t - la;
            assert(bs.len() == n);
            assert(lr == n);
            assert forall|k: int| 0 <= k < f2.len() implies precedes(priority, y, #[trigger] f2[k], t) by {
                assert(f2[k] == g(f[k]));
                if !precedes(priority, y, f2[k], t) {
                    assert(f2[k] != t);
                    lemma_precedes_total(priority, y, f2[k], t);
                    // every candidate of rb ranks ahead of f[k], so all of rb is kept
                    assert forall|s: int| 0 <= s < n implies #[trigger] f.contains(la + s) && precedes(
                        priority,
                        x,
                        la + s,
                        f[k],
                    ) by {
                        assert(precedes(priority, b, bs[s], q));
                        assert(g(la + s) == la + bs[s]);
                        assert(precedes(priority, y, la + bs[s], t));
                        lemma_precedes_transitive(priority, y, la + bs[s], t, f2[k]);
                        if !f.contains(la + s) {
                            assert(precedes(priority, x, f[k], la + s));
                            lemma_precedes_asymmetric(priority, x, f[k], la + s);
                        }
                    }
                    let block = set_int_range(la, la + n);
                    vstd::set_lib::lemma_int_range(la, la + n);
                    assert(!block.contains(f[k])) by {
                        if block.contains(f[k]) {
                            let s = f[k] - la;
                            assert(precedes(priority, x, la + s, f[k]));
                        }
                    }
                    let kept = block.insert(f[k]);
                    assert(kept.len() == n + 1);
                    assert forall|v: int| kept.contains(v) implies #[trigger] f.to_set().contains(v) by {
                        if v != f[k] {
                            assert(f.contains(la + (v - la)));
                        }
                    }
                    f.lemma_cardinality_of_set();
                    vstd::set_lib::lemma_len_subset(kept, f.to_set());
                }
            }
        }
    }
    assert(is_selection(y, n, priority, f2));
    assert(r =~= f2.map_values(|i: int| y[i])) by {
        assert forall|k: int| 0 <= k < r.len() implies r[k] == f2.map_values(|i: int| y[i])[k] by {
            assert(r[k] == x[f[k]]);
            assert(f2[k] == g(f[k]));
        }
    }
}


proof fn lemma_merge_from<T>(
    blocks: Seq<Seq<Ranked<T>>>,
    tops: Seq<Seq<Ranked<T>>>,
    n: nat,
    priority: SortPriority,
    r: Seq<Ranked<T>>,
    k: int,
)
    requires
        priority != SortPriority::Auto,
        blocks.len() == tops.len(),
        0 <= k <= blocks.len(),
        forall|j: int| 0 <= j < blocks.len() ==> is_top_selection(#[trigger] blocks[j], n, priority, tops[j]),
        is_top_selection((blocks.take(k) + tops.skip(k)).flatten(), n, priority, r),
    ensures
        is_top_selection(blocks.flatten(), n, priority, r),
    decreases blocks.len() - k,
{
    if k < blocks.len() {
        let pre = blocks.take(k);
        let post = tops.skip(k + 1);
        let one_top = seq![tops[k]];
        let one_block = seq![blocks[k]];
        assert(blocks.take(k) + tops.skip(k) =~= pre + one_top + post);
        assert(blocks.take(k + 1) + tops.skip(k + 1) =~= pre + one_block + post);
        vstd::seq_lib::lemma_flatten_concat(pre + one_top, post);
        vstd::seq_lib::lemma_flatten_concat(pre, one_top);
        vstd::seq_lib::lemma_flatten_concat(pre + one_block, post);
        vstd::seq_lib::lemma_flatten_concat(pre, one_block);
        one_top.lemma_flatten_one_element();
        one_block.lemma_flatten_one_element();
        lemma_replace_block(pre.flatten(), blocks[k], tops[k], post.flatten(), n, priority, r);
        lemma_merge_from(blocks, tops, n, priority, r, k + 1);
    } else {
        assert(blocks.take(k) + tops.skip(k) =~= blocks);
    }
}

/// Keeping a top list per block of candidates and then taking the top
/// selection of those lists, block after block, gives the top selection of
/// all the candidates in order.
pub proof fn lemma_merge_tops<T>(
    blocks: Seq<Seq<Ranked<T>>>,
    tops: Seq<Seq<Ranked<T>>>,
    n: nat,
    priority: SortPriority,
    r: Seq<Ranked<T>>,
)
    requires
        priority != SortPriority::Auto,
        blocks.len() == tops.len(),
        forall|j: int| 0 <= j < blocks.len() ==> is_top_selection(#[trigger] blocks[j], n, priority, tops[j]),
        is_top_selection(tops.flatten(), n, priority, r),
    ensures
        is_top_selection(blocks.flatten(), n, priority, r),
{
    assert(blocks.take(0) + tops.skip(0) =~= tops);
    lemma_merge_from(blocks, tops, n, priority, r, 0);
}


proof fn lemma_same_members<T>(
    c: Seq<Ranked<T>>,
    n: nat,
    priority: SortPriority,
    f1: Seq<int>,
    f2: Seq<int>,
    x: int,
)
    requires
        priority != SortPriority::Auto,
        is_selection(c, n, priority, f1),
        is_selection(c, n, priority, f2),
        f1.contains(x),
    ensures
        f2.contains(x),
{
    if !f2.contains(x) {
        let i = choose|i: int| 0 <= i < f1.len() && f1[i] == x;
        assert(f2.len() == n);
        assert forall|k: int| 0 <= k < f2.len() implies #[trigger] f1.contains(f2[k]) by {
            assert(precedes(priority, c, f2[k], x));
            if !f1.contains(f2[k]) {
                assert(precedes(priority, c, f1[i], f2[k]));
            }
        }
        assert(f2.no_duplicates()) by {
            assert forall|k: int, l: int| 0 <= k < f2.len() && 0 <= l < f2.len() && k != l implies f2[k]
                != f2[l] by {
                if k < l {
                    assert(precedes(priority, c, f2[k], f2[l]));
                } else {
                    assert(precedes(priority, c, f2[l], f2[k]));
                }
            }
        }
        f2.unique_seq_to_set();
        let more = f2.to_set().insert(x);
        assert forall|v: int| more.contains(v) implies #[trigger] f1.to_set().contains(v) by {
            if v != x {
                let k = choose|k: int| 0 <= k < f2.len() && f2[k] == v;
                assert(f1.contains(f2[k]));
            }
        }
        f1.lemma_cardinality_of_set();
        vstd::set_lib::lemma_len_subset(more, f1.to_set());
    }
}

proof fn lemma_equal_from<T>(
    c: Seq<Ranked<T>>,
    n: nat,
    priority: SortPriority,
    f1: Seq<int>,
    f2: Seq<int>,
    k: int,
)
    requires
        priority != SortPriority::Auto,
        is_selection(c, n, priority, f1),
        is_selection(c, n, priority, f2),
        0 <= k <= f1.len(),
        forall|j: int| 0 <= j < k ==> f1[j] == f2[j],
    ensures
        f1 == f2,
    decreases f1.len() - k,
{
    if k < f1.len() {
        if f1[k] != f2[k] {
            lemma_same_members(c, n, priority, f1, f2, f1[k]);
            lemma_same_members(c, n, priority, f2, f1, f2[k]);
            let j = choose|j: int| 0 <= j < f2.len() && f2[j] == f1[k];
            let i = choose|i: int| 0 <= i < f1.len() && f1[i] == f2[k];
            if j < k {
                assert(f1[j] == f1[k]);
                assert(precedes(priority, c, f1[j], f1[k]));
            } else if i < k {
                assert(f2[i] == f2[k]);
                assert(precedes(priority, c, f2[i], f2[k]));
            } else {
                assert(precedes(priority, c, f2[k], f2[j]));
                assert(precedes(priority, c, f1[k], f1[i]));
            }
        }
        lemma_equal_from(c, n, priority, f1, f2, k + 1);
    } else {
        assert(f1 =~= f2);
    }
}

/// There is exactly one top selection of a sequence of candidates.
pub proof fn lemma_top_selection_unique<T>(
    c: Seq<Ranked<T>>,
    n: nat,
    priority: SortPriority,
    r1: Seq<Ranked<T>>,
    r2: Seq<Ranked<T>>,
)
    requires
        priority != SortPriority::Auto,
        is_top_selection(c, n, priority, r1),
        is_top_selection(c, n, priority, r2),
    ensures
        r1 == r2,
{
    let f1 = choose|f: Seq<int>| #[trigger]
        is_selection(c, n, priority, f) && r1 == f.map_values(|i: int| c[i]);
    let f2 = choose|f: Seq<int>| #[trigger]
        is_selection(c, n, priority, f) && r2 == f.map_values(|i: int| c[i]);
    lemma_equal_from(c, n, priority, f1, f2, 0);
}

/// The best `n1` candidates are the first entries of the best `n2` ones when
/// `n1 <= n2`: asking for fewer results cuts the list, it does not reorder it.
pub proof fn lemma_top_selection_prefix<T>(
    c: Seq<Ranked<T>>,
    n1: nat,
    n2: nat,
    priority: SortPriority,
    r1: Seq<Ranked<T>>,
    r2: Seq<Ranked<T>>,
)
    requires
        priority != SortPriority::Auto,
        n1 <= n2,
        is_top_selection(c, n1, priority, r1),
        is_top_selection(c, n2, priority, r2),
    ensures
        r1 == r2.take(min_nat(n1, r2.len()) as int),
{
    let f2 = choose|f: Seq<int>| #[trigger]
        is_selection(c, n2, priority, f) && r2 == f.map_values(|i: int| c[i]);
    let m = min_nat(n1, f2.len());
    let f1 = f2.take(m as int);
    assert(f1.len() == min_nat(n1, c.len()));
    assert forall|k: int| 0 <= k < f1.len() implies 0 <= #[trigger] f1[k] < c.len() by {
        assert(f1[k] == f2[k]);
    }
    assert forall|k: int, l: int| 0 <= k < l < f1.len() implies precedes(
        priority,
        c,
        #[trigger] f1[k],
        #[trigger] f1[l],
    ) by {
        assert(f1[k] == f2[k] && f1[l] == f2[l]);
    }
    assert forall|i: int| 0 <= i < c.len() && !#[trigger] f1.contains(i) implies f1.len() == n1 by {
        if f2.contains(i) {
            let j = choose|j: int| 0 <= j < f2.len() && f2[j] == i;
            if j < m {
                assert(f1[j] == i);
            }
        }
    }
    assert forall|i: int, k: int|
        #![trigger f1.contains(i), f1[k]]
        0 <= i < c.len() && !f1.contains(i) && 0 <= k < f1.len() implies precedes(priority, c, f1[k], i) by {
        assert(f1[k] == f2[k]);
        if f2.contains(i) {
            let j = choose|j: int| 0 <= j < f2.len() && f2[j] == i;
            if j < m {
                assert(f1[j] == i);
            } else {
                assert(precedes(priority, c, f2[k], f2[j]));
            }
        }
    }
    assert(is_selection(c, n1, priority, f1));
    let t = f1.map_values(|i: int| c[i]);
    assert(t =~= r2.take(m as int));
    lemma_top_selection_unique(c, n1, priority, r1, t);
}

/// Where a candidate with this key enters a ranked list: before the first
/// entry it outranks, so after every entry it does not outrank.
pub open spec fn entry_position<T>(entries: Seq<Ranked<T>>, priority: SortPriority, key: i64) -> int
    decreases entries.len(),
{
    if entries.len() == 0 {
        0
    } else if outranks(priority, key, entries[0].key) {
        0
    } else {
        1 + entry_position(entries.drop_first(), priority, key)
    }
}

/// A list that keeps at most `n` entries takes a candidate with this key:
/// it keeps something, and it is not full or the key outranks its last entry.
pub open spec fn admits<T>(entries: Seq<Ranked<T>>, n: nat, priority: SortPriority, key: i64) -> bool {
    n > 0 && (entries.len() < n || outranks(priority, key, entries.last().key))
}

/// The list after offering a candidate: unchanged when it is not admitted,
/// else with the candidate put at its entry position and the last entry
/// dropped when the list grows past `n`.
pub open spec fn after_insert<T>(entries: Seq<Ranked<T>>, n: nat, priority: SortPriority, cand: Ranked<T>) -> Seq<
    Ranked<T>,
> {
    if admits(entries, n, priority, cand.key) {
        let grown = entries.insert(entry_position(entries, priority, cand.key), cand);
        if grown.len() > n {
            grown.drop_last()
        } else {
            grown
        }
    } else {
        entries
    }
}

/// No entry outranks an entry before it.
pub open spec fn in_rank_order<T>(entries: Seq<Ranked<T>>, priority: SortPriority) -> bool {
    forall|i: int, j: int|
        0 <= i < j < entries.len() ==> !outranks(priority, #[trigger] entries[j].key, #[trigger] entries[i].key)
}

proof fn lemma_entry_position<T>(entries: Seq<Ranked<T>>, priority: SortPriority, key: i64, idx: int)
    requires
        0 <= idx <= entries.len(),
        forall|j: int| 0 <= j < idx ==> !outranks(priority, key, #[trigger] entries[j].key),
        idx < entries.len() ==> outranks(priority, key, entries[idx].key),
    ensures
        entry_position(entries, priority, key) == idx,
    decreases entries.len(),
{
    if entries.len() > 0 && idx > 0 {
        let rest = entries.drop_first();
        assert forall|j: int| 0 <= j < idx - 1 implies !outranks(priority, key, #[trigger] rest[j].key) by {
            assert(rest[j] == entries[j + 1]);
        }
        assert(!outranks(priority, key, entries[0].key));
        lemma_entry_position(rest, priority, key, idx - 1);
    }
}

proof fn lemma_entry_position_bounds<T>(entries: Seq<Ranked<T>>, priority: SortPriority, key: i64)
    ensures
        0 <= entry_position(entries, priority, key) <= entries.len(),
        forall|j: int|
            0 <= j < entry_position(entries, priority, key) ==> !outranks(priority, key, #[trigger] entries[j].key),
        entry_position(entries, priority, key) < entries.len() ==> outranks(
            priority,
            key,
            entries[entry_position(entries, priority, key)].key,
        ),
    decreases entries.len(),
{
    if entries.len() > 0 && !outranks(priority, key, entries[0].key) {
        let rest = entries.drop_first();
        lemma_entry_position_bounds(rest, priority, key);
        assert forall|j: int| 0 <= j < entry_position(entries, priority, key) implies !outranks(
            priority,
            key,
            #[trigger] entries[j].key,
        ) by {
            if j > 0 {
                assert(entries[j] == rest[j - 1]);
            }
        }
        if entry_position(entries, priority, key) < entries.len() {
            assert(entries[entry_position(entries, priority, key)] == rest[entry_position(rest, priority, key)]);
        }
    }
}

/// A candidate is admitted exactly when offering it changes the list: an
/// admitted one then stands at its entry position, inside the list, in
/// place of nothing it ties with.
pub proof fn lemma_admitted_changes_list<T>(
    entries: Seq<Ranked<T>>,
    n: nat,
    priority: SortPriority,
    cand: Ranked<T>,
)
    requires
        priority != SortPriority::Auto,
        entries.len() <= n,
    ensures
        !admits(entries, n, priority, cand.key) ==> after_insert(entries, n, priority, cand) == entries,
        admits(entries, n, priority, cand.key) ==> {
            let pos = entry_position(entries, priority, cand.key);
            let r = after_insert(entries, n, priority, cand);
            &&& pos < r.len()
            &&& r[pos] == cand
            &&& r != entries
        },
{
    lemma_entry_position_bounds(entries, priority, cand.key);
    if admits(entries, n, priority, cand.key) {
        let pos = entry_position(entries, priority, cand.key);
        let grown = entries.insert(pos, cand);
        let r = after_insert(entries, n, priority, cand);
        if entries.len() == n {
            assert(pos < entries.len()) by {
                if pos == entries.len() {
                    assert(entries.len() > 0);
                    assert(!outranks(priority, cand.key, entries[entries.len() - 1].key));
                }
            }
            assert(r[pos] == cand);
            assert(entries[pos].key != cand.key);
            assert(r[pos] != entries[pos]);
        } else {
            assert(r.len() == entries.len() + 1);
        }
    }
}

/// A bounded list of the best candidates seen so far.
pub struct TopList<T> {
    entries: Vec<Ranked<T>>,
    top_n: usize,
    priority: SortPriority,
    offered: Ghost<Seq<Ranked<T>>>,
    picked: Ghost<Seq<int>>,
}

impl<T> View for TopList<T> {
    type V = Seq<Ranked<T>>;

    closed spec fn view(&self) -> Seq<Ranked<T>> {
        self.entries@
    }
}

impl<T> TopList<T> {
    /// Every candidate offered so far, in the order offered.
    pub closed spec fn offered(&self) -> Seq<Ranked<T>> {
        self.offered@
    }

    /// How many entries the list keeps at most.
    pub closed spec fn limit(&self) -> nat {
        self.top_n as nat
    }

    pub closed spec fn priority(&self) -> SortPriority {
        self.priority
    }

    /// The entries are the best `limit()` candidates offered so far.
    pub closed spec fn wf(&self) -> bool {
        &&& self.priority != SortPriority::Auto
        &&& is_selection(self.offered@, self.top_n as nat, self.priority, self.picked@)
        &&& self.entries@ == self.picked@.map_values(|i: int| self.offered@[i])
    }

    /// A well-formed list holds the top selection of what it was offered.
    pub proof fn lemma_top(&self)
        requires
            self.wf(),
        ensures
            is_top_selection(self.offered(), self.limit(), self.priority(), self@),
            self@.len() <= self.limit(),
            self.priority() != SortPriority::Auto,
            in_rank_order(self@, self.priority()),
    {
        assert forall|i: int, j: int| 0 <= i < j < self@.len() implies !outranks(
            self.priority,
            #[trigger] self@[j].key,
            #[trigger] self@[i].key,
        ) by {
            assert(self@[i] == self.offered@[self.picked@[i]]);
            assert(self@[j] == self.offered@[self.picked@[j]]);
            assert(precedes(self.priority, self.offered@, self.picked@[i], self.picked@[j]));
        }
        assert(is_selection(self.offered@, self.top_n as nat, self.priority, self.picked@));
    }

    /// Leaving out a candidate that `can_enter` turns away changes nothing:
    /// the entries are still the best of what was offered together with it.
    /// So a search may skip building such candidates.
    pub proof fn lemma_skip_rejected(&self, cand: Ranked<T>)
        requires
            self.wf(),
            !(self.limit() > 0 && (self@.len() < self.limit() || outranks(
                self.priority(),
                cand.key,
                self@.last().key,
            ))),
        ensures
            is_top_selection(self.offered().push(cand), self.limit(), self.priority(), self@),
    {
        let c = self.offered@;
        let picked = self.picked@;
        let n = self.top_n as nat;
        if n > 0 {
            assert(self.entries@.last() == c[picked.last()]);
        }
        lemma_reject(c, n, self.priority, picked, cand);
        let c2 = c.push(cand);
        assert(picked.map_values(|i: int| c2[i]) =~= picked.map_values(|i: int| c[i]));
    }

    /// An empty list that keeps at most `top_n` entries.
    pub fn new(top_n: usize, priority: SortPriority) -> (r: TopList<T>)
        requires
            priority != SortPriority::Auto,
        ensures
            r.wf(),
            r.offered() == Seq::<Ranked<T>>::empty(),
            r@ == Seq::<Ranked<T>>::empty(),
            r.limit() == top_n,
            r.priority() == priority,
    {
        let r = TopList {
            entries: Vec::new(),
            top_n,
            priority,
            offered: Ghost(Seq::empty()),
            picked: Ghost(Seq::empty()),
        };
        assert(r.entries@ =~= r.picked@.map_values(|i: int| r.offered@[i]));
        r
    }

    pub fn len(&self) -> (r: usize)
        ensures
            r == self@.len(),
    {
        self.entries.len()
    }

    pub fn entries(&self) -> (r: &Vec<Ranked<T>>)
        ensures
            r@ == self@,
    {
        &self.entries
    }

    pub fn into_entries(self) -> (r: Vec<Ranked<T>>)
        ensures
            r@ == self@,
    {
        self.entries
    }


    /// Offers a candidate; it is kept when it ranks among the best `limit()`
    /// candidates offered so far, and equal keys keep their arrival order.
    /// When admitted it goes after every entry it does not outrank and before
    /// the first it outranks, and the last entry leaves a list that grew past
    /// the limit; the other entries keep their order.
    pub fn insert(&mut self, key: i64, item: T)
        requires
            old(self).wf(),
        ensures
            final(self).wf(),
            final(self).offered() == old(self).offered().push(Ranked { key, item }),
            final(self).limit() == old(self).limit(),
            final(self).priority() == old(self).priority(),
            final(self)@ == after_insert(old(self)@, old(self).limit(), old(self).priority(), (Ranked { key, item })),
    {
        let ghost old_entries = self.entries@;
        let ghost c = self.offered@;
        let ghost picked = self.picked@;
        let ghost cand = Ranked { key, item };
        let n = self.top_n;
        let len = self.entries.len();
        if n == 0 || (len >= n && !outranks_exec(self.priority, key, self.entries[len - 1].key)) {
            proof {
                if n > 0 {
                    assert(self.entries@[len - 1] == c[picked.last()]);
                }
                lemma_reject(c, n as nat, self.priority, picked, cand);
            }
            self.offered = Ghost(c.push(cand));
            assert(self.entries@ =~= self.picked@.map_values(|i: int| self.offered@[i]));
            assert(!admits(old_entries, n as nat, self.priority, key));
            return;
        }
        let mut idx: usize = 0;
        while idx < len && !outranks_exec(self.priority, key, self.entries[idx].key)
            invariant
                idx <= len,
                len == self.entries@.len(),
                self.priority != SortPriority::Auto,
                self.entries@ == picked.map_values(|i: int| c[i]),
                forall|j: int| 0 <= j < idx ==> !outranks(self.priority, key, #[trigger] c[picked[j]].key),
            decreases len - idx,
        {
            assert(self.entries@[idx as int] == c[picked[idx as int]]);
            idx += 1;
        }
        proof {
            if idx < len {
                assert(self.entries@[idx as int] == c[picked[idx as int]]);
            }
            assert forall|j: int| 0 <= j < idx implies !outranks(self.priority, key, #[trigger] old_entries[j].key) by {
                assert(old_entries[j] == c[picked[j]]);
            }
            lemma_entry_position(old_entries, self.priority, key, idx as int);
            if len > 0 {
                assert(old_entries.last() == old_entries[len - 1]);
            }
            assert(admits(old_entries, n as nat, self.priority, key));
        }
        let ghost q = lemma_insert(c, n as nat, self.priority, picked, cand, idx as int);
        let ghost c2 = c.push(cand);
        self.entries.insert(idx, Ranked { key, item });
        assert(self.entries@ =~= old_entries.insert(idx as int, cand));
        assert(self.entries@ =~= picked.insert(idx as int, c.len() as int).map_values(|i: int| c2[i])) by {
            assert forall|k: int| 0 <= k < self.entries@.len() implies self.entries@[k]
                == picked.insert(idx as int, c.len() as int).map_values(|i: int| c2[i])[k] by {
                if k < idx {
                } else if k > idx {
                }
            }
        }
        if self.entries.len() > n {
            self.entries.pop();
        }
        self.offered = Ghost(c2);
        self.picked = Ghost(q);
        assert(self.entries@ =~= self.picked@.map_values(|i: int| self.offered@[i]));
    }

    /// Whether a candidate with this key would be kept if offered now; by
    /// `lemma_admitted_changes_list`, exactly when offering it changes the
    /// entries.
    pub fn can_enter(&self, key: i64) -> (r: bool)
        requires
            self.wf(),
        ensures
            r == admits(self@, self.limit(), self.priority(), key),
            r == (self.limit() > 0 && (self@.len() < self.limit() || outranks(
                self.priority(),
                key,
                self@.last().key,
            ))),
    {
        if self.top_n == 0 {
            return false;
        }
        let len = self.entries.len();
        if len < self.top_n {
            return true;
        }
        outranks_exec(self.priority, key, self.entries[len - 1].key)
    }
}

} // verus!
