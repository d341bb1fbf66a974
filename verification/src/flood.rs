//! Flood fill over a directed graph.
//!
//! Vertices are numbered `0..n`. They are visited in that order, and each
//! vertex without a label opens a new one and hands it to every vertex that
//! can be reached from it and has none yet.

use std::collections::VecDeque;
use vstd::prelude::*;

verus! {

/// A non-empty walk along edges.
pub open spec fn walk(edge: spec_fn(int, int) -> bool, n: int, p: Seq<int>) -> bool {
    &&& p.len() > 0
    &&& forall|k: int| 0 <= k < p.len() ==> 0 <= #[trigger] p[k] < n
    &&& forall|k: int| 0 <= k < p.len() - 1 ==> edge(#[trigger] p[k], p[k + 1])
}

/// Whether a walk leads from `u` to `v`.
pub open spec fn reaches(edge: spec_fn(int, int) -> bool, n: int, u: int, v: int) -> bool {
    exists|p: Seq<int>| #[trigger] walk(edge, n, p) && p[0] == u && p.last() == v
}

/// Whether `u` is the first vertex, in visiting order, that reaches `v`.
pub open spec fn first_to_reach(
    edge: spec_fn(int, int) -> bool,
    n: int,
    u: int,
    v: int,
) -> bool {
    &&& reaches(edge, n, u, v)
    &&& forall|w: int| 0 <= w < u ==> !#[trigger] reaches(edge, n, w, v)
}

/// How many of the first `upto` vertices no earlier vertex reaches: each of
/// them opens a label.
pub open spec fn opened_labels(edge: spec_fn(int, int) -> bool, n: int, upto: int) -> int
    decreases upto,
{
    if upto <= 0 {
        0
    } else {
        opened_labels(edge, n, upto - 1) + if first_to_reach(edge, n, upto - 1, upto - 1) {
            1int
        } else {
            0int
        }
    }
}

/// The first vertex that reaches `v`.
pub open spec fn origin(edge: spec_fn(int, int) -> bool, n: int, v: int) -> int {
    choose|u: int| #[trigger] first_to_reach(edge, n, u, v)
}

/// The label of `v`: labels are numbered from one, in the order in which
/// they are opened.
pub open spec fn flood_label(edge: spec_fn(int, int) -> bool, n: int, v: int) -> int {
    opened_labels(edge, n, origin(edge, n, v)) + 1
}

/// The edges of an adjacency list.
pub open spec fn edges_of(adj: Seq<Vec<usize>>) -> spec_fn(int, int) -> bool {
    |u: int, v: int| adj[u]@.contains(v as usize)
}

/// Whether every target in an adjacency list is a vertex.
pub open spec fn targets_in_range(adj: Seq<Vec<usize>>) -> bool {
    forall|u: int, k: int|
        0 <= u < adj.len() && 0 <= k < adj[u]@.len() ==> #[trigger] adj[u]@[k] < adj.len()
}

/// Whether every edge out of a labelled vertex ends in a labelled one.
spec fn settled(adj: Seq<Vec<usize>>, labels: Seq<i32>, v: int) -> bool {
    forall|k: int|
        0 <= k < adj[v]@.len() ==> labels[(#[trigger] adj[v]@[k]) as int] != -1
}

spec fn all_settled(adj: Seq<Vec<usize>>, labels: Seq<i32>) -> bool {
    forall|v: int| 0 <= v < adj.len() && labels[v] != -1 ==> #[trigger] settled(adj, labels, v)
}

/// Every vertex reaches itself.
pub proof fn reaches_self(edge: spec_fn(int, int) -> bool, n: int, v: int)
    requires
        0 <= v < n,
    ensures
        reaches(edge, n, v, v),
{
    let p: Seq<int> = seq![v];
    assert(walk(edge, n, p));
    assert(p[0] == v && p.last() == v);
}

/// One more edge extends what a vertex reaches.
pub proof fn reaches_step(edge: spec_fn(int, int) -> bool, n: int, u: int, v: int, w: int)
    requires
        reaches(edge, n, u, v),
        0 <= w < n,
        edge(v, w),
    ensures
        reaches(edge, n, u, w),
{
    let p = choose|p: Seq<int>| #[trigger] walk(edge, n, p) && p[0] == u && p.last() == v;
    let q = p.push(w);
    assert forall|k: int| 0 <= k < q.len() - 1 implies edge(#[trigger] q[k], q[k + 1]) by {
        if k < p.len() - 1 {
            assert(q[k] == p[k] && q[k + 1] == p[k + 1]);
        } else {
            assert(q[k] == p.last());
        }
    }
    assert(walk(edge, n, q));
    assert(q[0] == u && q.last() == w);
}

/// Reaching is transitive.
pub proof fn reaches_trans(edge: spec_fn(int, int) -> bool, n: int, u: int, v: int, w: int)
    requires
        reaches(edge, n, u, v),
        reaches(edge, n, v, w),
    ensures
        reaches(edge, n, u, w),
{
    let p = choose|p: Seq<int>| #[trigger] walk(edge, n, p) && p[0] == u && p.last() == v;
    let q = choose|q: Seq<int>| #[trigger] walk(edge, n, q) && q[0] == v && q.last() == w;
    let r = p + q.skip(1);
    assert forall|k: int| 0 <= k < r.len() implies 0 <= #[trigger] r[k] < n by {
        if k >= p.len() {
            assert(r[k] == q[k - p.len() + 1]);
        }
    }
    assert forall|k: int| 0 <= k < r.len() - 1 implies edge(#[trigger] r[k], r[k + 1]) by {
        if k < p.len() - 1 {
            assert(r[k] == p[k] && r[k + 1] == p[k + 1]);
        } else {
            let m = k - p.len() + 1;
            assert(r[k] == q[m]);
            assert(r[k + 1] == q[m + 1]);
        }
    }
    assert(walk(edge, n, r));
    assert(r[0] == u);
    if q.len() == 1 {
        assert(r.last() == p.last());
    } else {
        assert(r.last() == q.last());
    }
}

/// Two edge relations that agree between vertices reach the same.
pub proof fn reaches_same(
    e1: spec_fn(int, int) -> bool,
    e2: spec_fn(int, int) -> bool,
    n: int,
    u: int,
    v: int,
)
    requires
        forall|a: int, b: int| 0 <= a < n && 0 <= b < n ==> #[trigger] e1(a, b) == e2(a, b),
    ensures
        reaches(e1, n, u, v) == reaches(e2, n, u, v),
{
    if reaches(e1, n, u, v) {
        let p = choose|p: Seq<int>| #[trigger] walk(e1, n, p) && p[0] == u && p.last() == v;
        assert forall|k: int| 0 <= k < p.len() - 1 implies e2(#[trigger] p[k], p[k + 1]) by {
            assert(e1(p[k], p[k + 1]));
            assert(0 <= p[k + 1] < n);
        }
        assert(walk(e2, n, p));
    }
    if reaches(e2, n, u, v) {
        let p = choose|p: Seq<int>| #[trigger] walk(e2, n, p) && p[0] == u && p.last() == v;
        assert forall|k: int| 0 <= k < p.len() - 1 implies e1(#[trigger] p[k], p[k + 1]) by {
            assert(e2(p[k], p[k + 1]));
            assert(0 <= p[k + 1] < n);
        }
        assert(walk(e1, n, p));
    }
}

/// Two edge relations that agree between vertices open the same labels and
/// hand them out alike.
pub proof fn labels_same(
    e1: spec_fn(int, int) -> bool,
    e2: spec_fn(int, int) -> bool,
    n: int,
    upto: int,
)
    requires
        forall|a: int, b: int| 0 <= a < n && 0 <= b < n ==> #[trigger] e1(a, b) == e2(a, b),
    ensures
        opened_labels(e1, n, upto) == opened_labels(e2, n, upto),
        forall|u: int, v: int|
            #[trigger] first_to_reach(e1, n, u, v) == first_to_reach(e2, n, u, v),
    decreases upto,
{
    assert forall|u: int, v: int| #[trigger] first_to_reach(e1, n, u, v) == first_to_reach(
        e2,
        n,
        u,
        v,
    ) by {
        assert forall|w: int|
            #![trigger reaches(e1, n, w, v)]
            #![trigger reaches(e2, n, w, v)]
            reaches(e1, n, w, v) == reaches(e2, n, w, v) by {
            reaches_same(e1, e2, n, w, v);
        }
    }
    if upto > 0 {
        labels_same(e1, e2, n, upto - 1);
    }
}

/// At most one vertex is the first to reach another.
pub proof fn origin_is(edge: spec_fn(int, int) -> bool, n: int, u: int, v: int)
    requires
        first_to_reach(edge, n, u, v),
    ensures
        origin(edge, n, v) == u,
{
    let w = origin(edge, n, v);
    assert(first_to_reach(edge, n, w, v));
    let p = choose|p: Seq<int>| #[trigger] walk(edge, n, p) && p[0] == w && p.last() == v;
    let q = choose|q: Seq<int>| #[trigger] walk(edge, n, q) && q[0] == u && q.last() == v;
    assert(0 <= p[0] && 0 <= q[0]);
}

/// Some vertex is the first to reach any given one, and it is no later than it.
pub proof fn origin_exists(edge: spec_fn(int, int) -> bool, n: int, v: int, from: int)
    requires
        0 <= v < n,
        0 <= from <= v,
        forall|w: int| 0 <= w < from ==> !#[trigger] reaches(edge, n, w, v),
    ensures
        first_to_reach(edge, n, origin(edge, n, v), v),
        0 <= origin(edge, n, v) <= v,
    decreases v - from,
{
    if reaches(edge, n, from, v) {
        assert(first_to_reach(edge, n, from, v));
        origin_is(edge, n, from, v);
    } else if from == v {
        reaches_self(edge, n, v);
    } else {
        assert forall|w: int| 0 <= w < from + 1 implies !#[trigger] reaches(edge, n, w, v) by {}
        origin_exists(edge, n, v, from + 1);
    }
}

/// Whatever a vertex reaches from within settled ground is labelled.
proof fn settled_reach(adj: Seq<Vec<usize>>, labels: Seq<i32>, u: int, v: int)
    requires
        targets_in_range(adj),
        labels.len() == adj.len(),
        adj.len() <= usize::MAX,
        all_settled(adj, labels),
        0 <= u < adj.len(),
        labels[u] != -1,
        reaches(edges_of(adj), adj.len() as int, u, v),
    ensures
        0 <= v < adj.len(),
        labels[v] != -1,
{
    let e = edges_of(adj);
    let n = adj.len() as int;
    let p = choose|p: Seq<int>| #[trigger] walk(e, n, p) && p[0] == u && p.last() == v;
    settled_walk(adj, labels, p, p.len() - 1);
}

proof fn settled_walk(adj: Seq<Vec<usize>>, labels: Seq<i32>, p: Seq<int>, k: int)
    requires
        targets_in_range(adj),
        labels.len() == adj.len(),
        adj.len() <= usize::MAX,
        all_settled(adj, labels),
        walk(edges_of(adj), adj.len() as int, p),
        labels[p[0]] != -1,
        0 <= k < p.len(),
    ensures
        labels[p[k]] != -1,
    decreases k,
{
    if k > 0 {
        settled_walk(adj, labels, p, k - 1);
        let a = p[k - 1];
        let b = p[k];
        assert(edges_of(adj)(a, p[k - 1 + 1]));
        assert(adj[a]@.contains(b as usize));
        let m = choose|m: int| 0 <= m < adj[a]@.len() && adj[a]@[m] == b as usize;
        assert(settled(adj, labels, a));
        assert(0 <= b < adj.len());
        assert(labels[adj[a]@[m] as int] != -1);
    }
}

/// How many vertices have no label.
spec fn blank(labels: Seq<i32>) -> nat
    decreases labels.len(),
{
    if labels.len() == 0 {
        0
    } else {
        blank(labels.drop_last()) + if labels.last() == -1 {
            1nat
        } else {
            0nat
        }
    }
}

proof fn blank_update(labels: Seq<i32>, i: int, label: i32)
    requires
        0 <= i < labels.len(),
        labels[i] == -1,
        label != -1,
    ensures
        blank(labels.update(i, label)) + 1 == blank(labels),
    decreases labels.len(),
{
    let next = labels.update(i, label);
    if i == labels.len() - 1 {
        assert(next.drop_last() =~= labels.drop_last());
    } else {
        assert(next.drop_last() =~= labels.drop_last().update(i, label));
        blank_update(labels.drop_last(), i, label);
    }
}

/// Hands `label` to every unlabelled vertex that `seed` reaches.
fn spread(adj: &Vec<Vec<usize>>, labels: &mut Vec<i32>, seed: usize, label: i32)
    requires
        targets_in_range(adj@),
        old(labels)@.len() == adj@.len(),
        all_settled(adj@, old(labels)@),
        seed < adj@.len(),
        old(labels)@[seed as int] == -1,
        label != -1,
    ensures
        final(labels)@.len() == adj@.len(),
        all_settled(adj@, final(labels)@),
        forall|v: int| #![trigger final(labels)@[v]]
            0 <= v < adj@.len() ==> final(labels)@[v] == if old(labels)@[v] != -1 {
                old(labels)@[v]
            } else if reaches(edges_of(adj@), adj@.len() as int, seed as int, v) {
                label
            } else {
                -1i32
            },
{
    let ghost e = edges_of(adj@);
    let ghost n = adj@.len() as int;
    let ghost before = labels@;
    proof {
        reaches_self(e, n, seed as int);
        assert(adj@.len() <= usize::MAX) by {
            assert(adj.len() == adj@.len());
        }
    }
    let mut q: VecDeque<usize> = VecDeque::new();
    q.push_back(seed);
    labels[seed] = label;
    assert(q@[0] == seed);
    assert forall|v: int|
        0 <= v < n && labels@[v] != -1 && !q@.contains(v as usize) implies #[trigger] settled(
        adj@,
        labels@,
        v,
    ) by {
        assert(v != seed);
        assert(settled(adj@, before, v));
        assert forall|k: int| 0 <= k < adj@[v]@.len() implies labels@[(
        #[trigger] adj@[v]@[k]) as int] != -1 by {
            assert(before[adj@[v]@[k] as int] != -1);
        }
    }
    while q.len() > 0
        invariant
            e == edges_of(adj@),
            n == adj@.len(),
            n <= usize::MAX,
            targets_in_range(adj@),
            labels@.len() == n,
            before.len() == n,
            all_settled(adj@, before),
            seed < n,
            label != -1,
            labels@[seed as int] == label,
            forall|v: int| 0 <= v < n && before[v] != -1 ==> #[trigger] labels@[v] == before[v],
            forall|v: int|
                0 <= v < n && before[v] == -1 ==> (#[trigger] labels@[v] == -1 || (labels@[v]
                    == label && reaches(e, n, seed as int, v))),
            forall|k: int| #![trigger q@[k]]
                0 <= k < q@.len() ==> q@[k] < n && labels@[q@[k] as int] == label
                    && before[q@[k] as int] == -1,
            forall|v: int|
                0 <= v < n && labels@[v] != -1 && !q@.contains(v as usize) ==> #[trigger] settled(
                    adj@,
                    labels@,
                    v,
                ),
        decreases 2 * blank(labels@) + q@.len(),
    {
        let ghost q0 = q@;
        let popped = q.pop_front();
        let x: usize = match popped {
            Some(v) => v,
            None => {
                return ;
            },
        };
        assert(q0[0] == x);
        assert(q@ =~= q0.skip(1));
        assert forall|v: int|
            0 <= v < n && labels@[v] != -1 && !q@.contains(v as usize) && v != x implies #[trigger] settled(
            adj@,
            labels@,
            v,
        ) by {
            if q0.contains(v as usize) {
                let k = choose|k: int| 0 <= k < q0.len() && q0[k] == v as usize;
                assert(q@[k - 1] == v as usize);
            }
        }
        assert forall|k: int| #![trigger q@[k]] 0 <= k < q@.len() implies q@[k] < n
            && labels@[q@[k] as int] == label && before[q@[k] as int] == -1 by {
            assert(q@[k] == q0[k + 1]);
        }
        let m: usize = adj[x].len();
        let mut k: usize = 0;
        let ghost top = 2 * blank(labels@) + q@.len();
        while k < m
            invariant
                e == edges_of(adj@),
                n == adj@.len(),
                n <= usize::MAX,
                targets_in_range(adj@),
                labels@.len() == n,
                before.len() == n,
                all_settled(adj@, before),
                seed < n,
                label != -1,
                labels@[seed as int] == label,
                x < n,
                m == adj@[x as int]@.len(),
                k <= m,
                labels@[x as int] == label,
                before[x as int] == -1,
                forall|v: int|
                    0 <= v < n && before[v] != -1 ==> #[trigger] labels@[v] == before[v],
                forall|v: int|
                    0 <= v < n && before[v] == -1 ==> (#[trigger] labels@[v] == -1 || (labels@[v]
                        == label && reaches(e, n, seed as int, v))),
                forall|j: int| #![trigger q@[j]]
                    0 <= j < q@.len() ==> q@[j] < n && labels@[q@[j] as int] == label
                        && before[q@[j] as int] == -1,
                forall|v: int|
                    0 <= v < n && labels@[v] != -1 && !q@.contains(v as usize) && v != x
                        ==> #[trigger] settled(adj@, labels@, v),
                forall|j: int|
                    0 <= j < k ==> labels@[(#[trigger] adj@[x as int]@[j]) as int] != -1,
                2 * blank(labels@) + q@.len() <= top,
            decreases m - k,
        {
            let w: usize = adj[x][k];
            assert(adj@[x as int]@[k as int] == w);
            if labels[w] == -1 {
                let ghost l0 = labels@;
                let ghost q1 = q@;
                proof {
                    assert(before[w as int] == -1);
                    assert(e(x as int, w as int));
                    reaches_step(e, n, seed as int, x as int, w as int);
                    blank_update(l0, w as int, label);
                }
                labels[w] = label;
                q.push_back(w);
                assert(q@[q@.len() - 1] == w);
                assert forall|v: int|
                    0 <= v < n && labels@[v] != -1 && !q@.contains(v as usize) && v
                        != x implies #[trigger] settled(adj@, labels@, v) by {
                    assert(v != w);
                    if q1.contains(v as usize) {
                        let j = choose|j: int| 0 <= j < q1.len() && q1[j] == v as usize;
                        assert(q@[j] == v as usize);
                    }
                    assert(l0[v] != -1);
                    assert(settled(adj@, l0, v));
                    assert forall|j: int| 0 <= j < adj@[v]@.len() implies labels@[(
                    #[trigger] adj@[v]@[j]) as int] != -1 by {
                        assert(l0[adj@[v]@[j] as int] != -1);
                    }
                }
            }
            k = k + 1;
        }
        assert(settled(adj@, labels@, x as int));
    }
    proof {
        assert(all_settled(adj@, labels@)) by {
            assert forall|v: int| 0 <= v < n && labels@[v] != -1 implies #[trigger] settled(
                adj@,
                labels@,
                v,
            ) by {
                assert(!q@.contains(v as usize));
            }
        }
        assert forall|v: int| #![trigger labels@[v]] 0 <= v < n implies labels@[v]
            == if before[v] != -1 {
            before[v]
        } else if reaches(e, n, seed as int, v) {
            label
        } else {
            -1i32
        } by {
            if before[v] == -1 && reaches(e, n, seed as int, v) {
                settled_reach(adj@, labels@, seed as int, v);
            }
        }
    }
}

/// Labels every vertex and returns the labels with their number.
pub fn flood_fill(adj: &Vec<Vec<usize>>) -> (r: (Vec<i32>, i32))
    requires
        targets_in_range(adj@),
        adj@.len() <= i32::MAX,
    ensures
        r.0@.len() == adj@.len(),
        forall|v: int| #![trigger r.0@[v]]
            0 <= v < adj@.len() ==> r.0@[v] == flood_label(edges_of(adj@), adj@.len() as int, v),
        r.1 == opened_labels(edges_of(adj@), adj@.len() as int, adj@.len() as int),
{
    let ghost e = edges_of(adj@);
    let ghost n = adj@.len() as int;
    let count: usize = adj.len();
    let mut labels: Vec<i32> = Vec::new();
    let mut i: usize = 0;
    while i < count
        invariant
            count == adj@.len(),
            i <= count,
            labels@.len() == i,
            forall|v: int| 0 <= v < i ==> #[trigger] labels@[v] == -1,
        decreases count - i,
    {
        labels.push(-1);
        i = i + 1;
    }
    let mut opened: i32 = 0;
    i = 0;
    while i < count
        invariant
            e == edges_of(adj@),
            n == adj@.len(),
            count == n,
            n <= i32::MAX,
            targets_in_range(adj@),
            i <= n,
            labels@.len() == n,
            all_settled(adj@, labels@),
            0 <= opened <= i,
            opened == opened_labels(e, n, i as int),
            forall|v: int| #![trigger labels@[v]]
                0 <= v < n && labels@[v] == -1 ==> forall|u: int|
                    0 <= u < i ==> !#[trigger] reaches(e, n, u, v),
            forall|v: int| #![trigger labels@[v]]
                0 <= v < n && labels@[v] != -1 ==> labels@[v] == flood_label(e, n, v) && origin(
                    e,
                    n,
                    v,
                ) < i && first_to_reach(e, n, origin(e, n, v), v) && 0 <= origin(e, n, v),
        decreases n - i,
    {
        let ghost l0 = labels@;
        let ghost iv = i as int;
        if labels[i] == -1 {
            proof {
                reaches_self(e, n, iv);
                assert(l0[iv] == -1);
                assert(first_to_reach(e, n, iv, iv));
            }
            opened = opened + 1;
            spread(adj, &mut labels, i, opened);
            proof {
                assert forall|v: int| #![trigger labels@[v]] 0 <= v < n && labels@[v]
                    != -1 implies labels@[v] == flood_label(e, n, v) && origin(e, n, v) < iv + 1
                    && first_to_reach(e, n, origin(e, n, v), v) && 0 <= origin(e, n, v) by {
                    if l0[v] == -1 {
                        assert(first_to_reach(e, n, iv, v));
                        origin_is(e, n, iv, v);
                    }
                }
                assert forall|v: int| #![trigger labels@[v]] 0 <= v < n && labels@[v]
                    == -1 implies forall|u: int|
                    0 <= u < iv + 1 ==> !#[trigger] reaches(e, n, u, v) by {
                    assert(l0[v] == -1);
                }
            }
        } else {
            proof {
                let u = origin(e, n, iv);
                assert(first_to_reach(e, n, u, iv));
                assert(!first_to_reach(e, n, iv, iv)) by {
                    assert(reaches(e, n, u, iv));
                }
                assert forall|v: int| #![trigger labels@[v]] 0 <= v < n && labels@[v]
                    == -1 implies forall|w: int|
                    0 <= w < iv + 1 ==> !#[trigger] reaches(e, n, w, v) by {
                    if reaches(e, n, iv, v) {
                        reaches_trans(e, n, u, iv, v);
                        assert(false);
                    }
                }
            }
        }
        i = i + 1;
    }
    assert forall|v: int| #![trigger labels@[v]] 0 <= v < n implies labels@[v] == flood_label(
        e,
        n,
        v,
    ) by {
        if labels@[v] == -1 {
            reaches_self(e, n, v);
        }
    }
    (labels, opened)
}

/// Two vertices share a label exactly when the same vertex is the first to
/// reach both.
pub proof fn same_label_same_origin(edge: spec_fn(int, int) -> bool, n: int, v: int, w: int)
    requires
        0 <= v < n,
        0 <= w < n,
    ensures
        flood_label(edge, n, v) == flood_label(edge, n, w) <==> origin(edge, n, v) == origin(
            edge,
            n,
            w,
        ),
{
    origin_exists(edge, n, v, 0);
    origin_exists(edge, n, w, 0);
    let a = origin(edge, n, v);
    let b = origin(edge, n, w);
    origin_of_origin(edge, n, a, v);
    origin_of_origin(edge, n, b, w);
    if a < b {
        opened_grows(edge, n, a + 1, b);
    } else if b < a {
        opened_grows(edge, n, b + 1, a);
    }
}

proof fn origin_of_origin(edge: spec_fn(int, int) -> bool, n: int, u: int, v: int)
    requires
        0 <= u < n,
        first_to_reach(edge, n, u, v),
    ensures
        first_to_reach(edge, n, u, u),
{
    reaches_self(edge, n, u);
    assert forall|w: int| 0 <= w < u implies !#[trigger] reaches(edge, n, w, u) by {
        if reaches(edge, n, w, u) {
            reaches_trans(edge, n, w, u, v);
        }
    }
}

proof fn opened_grows(edge: spec_fn(int, int) -> bool, n: int, a: int, b: int)
    requires
        0 <= a <= b,
    ensures
        opened_labels(edge, n, a) <= opened_labels(edge, n, b),
    decreases b - a,
{
    if a < b {
        opened_grows(edge, n, a, b - 1);
    }
}

/// Every label lies between one and the number of labels.
pub proof fn label_range(edge: spec_fn(int, int) -> bool, n: int, v: int)
    requires
        0 <= v < n,
    ensures
        1 <= flood_label(edge, n, v) <= opened_labels(edge, n, n),
{
    origin_exists(edge, n, v, 0);
    let u = origin(edge, n, v);
    origin_of_origin(edge, n, u, v);
    opened_grows(edge, n, 0, u);
    opened_grows(edge, n, u + 1, n);
}

/// No label is skipped: every number up to the number of labels is the label
/// of the vertex that opened it.
pub proof fn every_label_is_used(edge: spec_fn(int, int) -> bool, n: int, upto: int, c: int) -> (v:
    int)
    requires
        0 <= upto <= n,
        1 <= c <= opened_labels(edge, n, upto),
    ensures
        0 <= v < upto,
        flood_label(edge, n, v) == c,
    decreases upto,
{
    if c <= opened_labels(edge, n, upto - 1) {
        every_label_is_used(edge, n, upto - 1, c)
    } else {
        origin_is(edge, n, upto - 1, upto - 1);
        upto - 1
    }
}

/// There are no more labels than vertices.
pub proof fn labels_bound(edge: spec_fn(int, int) -> bool, n: int, upto: int)
    requires
        0 <= upto,
    ensures
        0 <= opened_labels(edge, n, upto) <= upto,
    decreases upto,
{
    if upto > 0 {
        labels_bound(edge, n, upto - 1);
    }
}

/// What a vertex reaches has its label or an earlier one.
pub proof fn reached_no_later(edge: spec_fn(int, int) -> bool, n: int, v: int, w: int)
    requires
        0 <= v < n,
        0 <= w < n,
        reaches(edge, n, v, w),
    ensures
        flood_label(edge, n, w) <= flood_label(edge, n, v),
{
    origin_exists(edge, n, v, 0);
    origin_exists(edge, n, w, 0);
    let a = origin(edge, n, v);
    let b = origin(edge, n, w);
    reaches_trans(edge, n, a, v, w);
    opened_grows(edge, n, b, a);
}

/// Vertices that reach each other share a label.
pub proof fn mutual_reach_same_label(edge: spec_fn(int, int) -> bool, n: int, v: int, w: int)
    requires
        0 <= v < n,
        0 <= w < n,
        reaches(edge, n, v, w),
        reaches(edge, n, w, v),
    ensures
        flood_label(edge, n, v) == flood_label(edge, n, w),
{
    origin_exists(edge, n, v, 0);
    let u = origin(edge, n, v);
    reaches_trans(edge, n, u, v, w);
    assert forall|x: int| 0 <= x < u implies !#[trigger] reaches(edge, n, x, w) by {
        if reaches(edge, n, x, w) {
            reaches_trans(edge, n, x, w, v);
        }
    }
    origin_is(edge, n, u, w);
}

/// A walk that leads from one vertex to another has a last edge.
pub proof fn reaching_ends_with_an_edge(edge: spec_fn(int, int) -> bool, n: int, u: int, v: int) -> (w:
    int)
    requires
        reaches(edge, n, u, v),
        u != v,
    ensures
        0 <= w < n,
        reaches(edge, n, u, w),
        edge(w, v),
{
    let p = choose|p: Seq<int>| #[trigger] walk(edge, n, p) && p[0] == u && p.last() == v;
    let q = p.drop_last();
    assert forall|k: int| 0 <= k < q.len() implies 0 <= #[trigger] q[k] < n by {
        assert(q[k] == p[k]);
    }
    assert forall|k: int| 0 <= k < q.len() - 1 implies edge(#[trigger] q[k], q[k + 1]) by {
        assert(q[k] == p[k] && q[k + 1] == p[k + 1]);
    }
    assert(walk(edge, n, q));
    assert(edge(p[p.len() - 2], p[p.len() - 2 + 1]));
    assert(q[0] == u && q.last() == p[p.len() - 2]);
    q.last()
}

/// What the labels have to do with the lists. What a vertex lists has its
/// label or a smaller one. A vertex has its label either because no vertex
/// before it has that label, or from a vertex with the same label that lists
/// it. Labels that are opened later are larger.
pub proof fn labels_follow_the_lists(adj: Seq<Vec<usize>>, v: int)
    requires
        targets_in_range(adj),
        adj.len() <= i32::MAX,
        0 <= v < adj.len(),
    ensures
        ({
            let e = edges_of(adj);
            let n = adj.len() as int;
            let label = flood_label(e, n, v);
            &&& forall|k: int|
                0 <= k < adj[v]@.len() ==> flood_label(e, n, (#[trigger] adj[v]@[k]) as int)
                    <= label
            &&& (forall|u: int| 0 <= u < v ==> #[trigger] flood_label(e, n, u) < label) || exists|
                w: int,
                k: int,
            |
                0 <= w < n && 0 <= k < adj[w]@.len() && #[trigger] adj[w]@[k] == v && flood_label(
                    e,
                    n,
                    w,
                ) == label
        }),
{
    let e = edges_of(adj);
    let n = adj.len() as int;
    assert forall|k: int| 0 <= k < adj[v]@.len() implies flood_label(
        e,
        n,
        (#[trigger] adj[v]@[k]) as int,
    ) <= flood_label(e, n, v) by {
        let w = adj[v]@[k] as int;
        reaches_self(e, n, v);
        assert(e(v, w));
        reaches_step(e, n, v, v, w);
        reached_no_later(e, n, v, w);
    }
    origin_exists(e, n, v, 0);
    let a = origin(e, n, v);
    if a == v {
        assert forall|u: int| 0 <= u < v implies #[trigger] flood_label(e, n, u) < flood_label(
            e,
            n,
            v,
        ) by {
            origin_exists(e, n, u, 0);
            let b = origin(e, n, u);
            reaches_self(e, n, u);
            origin_of_origin(e, n, b, u);
            opened_grows(e, n, b + 1, v);
        }
    } else {
        let w = reaching_ends_with_an_edge(e, n, a, v);
        assert forall|x: int| 0 <= x < a implies !#[trigger] reaches(e, n, x, w) by {
            if reaches(e, n, x, w) {
                reaches_step(e, n, x, w, v);
            }
        }
        origin_is(e, n, a, w);
        let k = choose|k: int| 0 <= k < adj[w]@.len() && adj[w]@[k] == v as usize;
        assert(adj[w]@[k] == v);
    }
}

} // verus!
