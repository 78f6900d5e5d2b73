//! The dependency relation among nodes, and what a topological order of it
//! is. A node's dependency set holds the indices of the nodes whose current
//! value its update expression reads; the compiler orders nodes so that every
//! node comes after all nodes it depends on, or reports the nodes caught in a
//! cycle.

use vstd::prelude::*;
use vstd::seq_lib::*;
use vstd::set_lib::*;

verus! {

/// What the sort produced: a complete evaluation order, or the nodes that
/// could not be ordered because they sit in or behind a dependency cycle.
pub enum SortResult {
    Success(Vec<usize>),
    CicularRef(Vec<usize>),
}

/// A well-formed dependency table: each node's dependency set holds distinct
/// node indices.
pub open spec fn wf_deps(ds: Seq<Seq<usize>>) -> bool {
    forall|i: int|
        0 <= i < ds.len() ==> (#[trigger] ds[i]).no_duplicates() && (forall|j: int|
            0 <= j < ds[i].len() ==> #[trigger] ds[i][j] < ds.len())
}

/// `ord` is a topological order of `ds`: every node exactly once, and every
/// node after all nodes it depends on.
pub open spec fn is_topo_order(ds: Seq<Seq<usize>>, ord: Seq<usize>) -> bool {
    &&& ord.len() == ds.len()
    &&& ord.no_duplicates()
    &&& forall|p: int| 0 <= p < ord.len() ==> #[trigger] ord[p] < ds.len()
    &&& forall|v: usize| v < ds.len() ==> ord.contains(v)
    &&& forall|p: int, j: int|
        0 <= p < ord.len() && 0 <= j < ds[ord[p] as int].len() ==> in_prefix(
            ord,
            p,
            #[trigger] ds[ord[p] as int][j],
        )
}

/// A dependency cycle: consecutive members depend on one another, and the
/// ends meet.
pub open spec fn is_cycle(ds: Seq<Seq<usize>>, c: Seq<usize>) -> bool {
    &&& c.len() >= 2
    &&& c[0] == c[c.len() - 1]
    &&& forall|k: int| 0 <= k < c.len() ==> #[trigger] c[k] < ds.len()
    &&& forall|k: int| 0 <= k < c.len() - 1 ==> (#[trigger] ds[c[k] as int]).contains(c[k + 1])
}

/// The position of `v` in `ord`, where it occurs.
pub open spec fn pos_of(ord: Seq<usize>, v: usize) -> int {
    choose|p: int| 0 <= p < ord.len() && ord[p] == v
}

/// Along a dependency edge, positions in a topological order strictly
/// decrease: a dependency stands earlier than the node that reads it.
proof fn lemma_edge_descends(ds: Seq<Seq<usize>>, ord: Seq<usize>, a: usize, d: usize)
    requires
        is_topo_order(ds, ord),
        a < ds.len(),
        ds[a as int].contains(d),
    ensures
        0 <= pos_of(ord, d) < pos_of(ord, a) < ord.len(),
        ord[pos_of(ord, a)] == a,
        ord[pos_of(ord, d)] == d,
{
    assert(ord.contains(a));
    let p = pos_of(ord, a);
    assert(0 <= p < ord.len() && ord[p] == a) by {
        let w = choose|w: int| 0 <= w < ord.len() && ord[w] == a;
        assert(0 <= w < ord.len() && ord[w] == a);
    }
    let j = choose|j: int| 0 <= j < ds[a as int].len() && ds[a as int][j] == d;
    assert(in_prefix(ord, p, ds[ord[p] as int][j]));
    let q = choose|q: int| 0 <= q < p && q < ord.len() && ord[q] == d;
    let q2 = pos_of(ord, d);
    assert(0 <= q2 < ord.len() && ord[q2] == d) by {
        assert(0 <= q < ord.len() && ord[q] == d);
    }
    assert(q2 == q) by {
        if q2 != q {
            assert(ord[q2] == ord[q]);
        }
    }
}

/// No topological order coexists with a cycle: around the cycle, positions
/// would strictly decrease and still return to where they began. So the
/// sort's two outcomes exclude one another, and which one comes is fixed
/// by the graph alone.
pub proof fn lemma_order_excludes_cycle(ds: Seq<Seq<usize>>, ord: Seq<usize>, c: Seq<usize>)
    requires
        is_topo_order(ds, ord),
    ensures
        !is_cycle(ds, c),
{
    if is_cycle(ds, c) {
        lemma_cycle_chain(ds, ord, c, c.len() - 1);
        assert(c[c.len() - 1] == c[0]);
    }
}

/// Walking `k` edges along a cycle moves at least `k` positions down a
/// topological order.
proof fn lemma_cycle_chain(ds: Seq<Seq<usize>>, ord: Seq<usize>, c: Seq<usize>, k: int)
    requires
        is_topo_order(ds, ord),
        is_cycle(ds, c),
        0 <= k < c.len(),
    ensures
        pos_of(ord, c[k]) + k <= pos_of(ord, c[0]),
    decreases k,
{
    if k > 0 {
        lemma_cycle_chain(ds, ord, c, k - 1);
        lemma_edge_descends(ds, ord, c[k - 1], c[k]);
    }
}

/// Whether `d` occurs among the first `k` elements of `q`.
pub open spec fn in_prefix(q: Seq<usize>, k: int, d: usize) -> bool {
    exists|j: int| 0 <= j < k && j < q.len() && q[j] == d
}

/// How many elements of `s` do not occur among the first `k` elements of
/// `q`: a node's remaining in-degree, counted against the processed prefix.
pub open spec fn cnt_rem(s: Seq<usize>, q: Seq<usize>, k: int) -> nat
    decreases s,
{
    if s.len() == 0 {
        0
    } else {
        (if in_prefix(q, k, s[0]) {
            0nat
        } else {
            1nat
        }) + cnt_rem(s.drop_first(), q, k)
    }
}

/// With nothing processed, the remaining in-degree is the set's size.
pub proof fn lemma_cnt_rem_all(s: Seq<usize>, q: Seq<usize>)
    ensures
        cnt_rem(s, q, 0) == s.len(),
    decreases s,
{
    if s.len() > 0 {
        lemma_cnt_rem_all(s.drop_first(), q);
    }
}

/// The remaining in-degree is zero exactly when every dependency has been
/// processed.
pub proof fn lemma_cnt_rem_zero(s: Seq<usize>, q: Seq<usize>, k: int)
    ensures
        (cnt_rem(s, q, k) == 0) <==> (forall|j: int|
            0 <= j < s.len() ==> in_prefix(q, k, #[trigger] s[j])),
    decreases s,
{
    if s.len() > 0 {
        lemma_cnt_rem_zero(s.drop_first(), q, k);
        if cnt_rem(s, q, k) == 0 {
            assert forall|j: int| 0 <= j < s.len() implies in_prefix(q, k, #[trigger] s[j]) by {
                if j > 0 {
                    assert(s.drop_first()[j - 1] == s[j]);
                }
            }
        } else {
            if !in_prefix(q, k, s[0]) {
            } else {
                assert(cnt_rem(s.drop_first(), q, k) > 0);
                let j = choose|j: int|
                    0 <= j < s.drop_first().len() && !in_prefix(q, k, s.drop_first()[j]);
                assert(s[j + 1] == s.drop_first()[j]);
            }
        }
    }
}

/// A positive remaining in-degree names an unprocessed dependency.
pub proof fn lemma_cnt_rem_pos(s: Seq<usize>, q: Seq<usize>, k: int) -> (j: int)
    requires
        cnt_rem(s, q, k) > 0,
    ensures
        0 <= j < s.len() && !in_prefix(q, k, s[j]),
    decreases s,
{
    if !in_prefix(q, k, s[0]) {
        0
    } else {
        let j = lemma_cnt_rem_pos(s.drop_first(), q, k);
        assert(s[j + 1] == s.drop_first()[j]);
        j + 1
    }
}

/// Processing one more queue element lowers the remaining in-degree by one
/// exactly for the sets that hold it.
pub proof fn lemma_cnt_rem_step(s: Seq<usize>, q: Seq<usize>, k: int)
    requires
        s.no_duplicates(),
        0 <= k < q.len(),
    ensures
        s.contains(q[k]) && !in_prefix(q, k, q[k]) ==> cnt_rem(s, q, k + 1) + 1 == cnt_rem(
            s,
            q,
            k,
        ),
        !(s.contains(q[k]) && !in_prefix(q, k, q[k])) ==> cnt_rem(s, q, k + 1) == cnt_rem(s, q, k),
    decreases s,
{
    if s.len() > 0 {
        let t = s.drop_first();
        assert(t.no_duplicates()) by {
            assert(forall|i: int, j: int|
                0 <= i < j < t.len() ==> t[i] == s[i + 1] && t[j] == s[j + 1]);
        }
        lemma_cnt_rem_step(t, q, k);
        // One more processed element is visible to `in_prefix` exactly for
        // that element's value.
        assert forall|d: usize| #[trigger] in_prefix(q, k + 1, d) implies in_prefix(q, k, d) || d
            == q[k] by {
            let j = choose|j: int| 0 <= j < k + 1 && j < q.len() && q[j] == d;
            if j < k {
                assert(in_prefix(q, k, d));
            }
        }
        assert(in_prefix(q, k + 1, q[k]));
        assert(forall|d: usize| in_prefix(q, k, d) ==> in_prefix(q, k + 1, d));
        if s.contains(q[k]) {
            if s[0] == q[k] {
                assert(!t.contains(q[k])) by {
                    if t.contains(q[k]) {
                        let j = choose|j: int| 0 <= j < t.len() && t[j] == q[k];
                        assert(s[j + 1] == s[0]);
                    }
                }
            } else {
                let j = choose|j: int| 0 <= j < s.len() && s[j] == q[k];
                assert(t[j - 1] == q[k]);
                assert(t.contains(q[k]));
            }
        } else {
            assert(!t.contains(q[k])) by {
                if t.contains(q[k]) {
                    let j = choose|j: int| 0 <= j < t.len() && t[j] == q[k];
                    assert(s[j + 1] == q[k]);
                }
            }
            assert(s[0] != q[k]);
        }
    }
}

/// Growing the queue beyond `k` leaves the counted prefix alone.
pub proof fn lemma_cnt_rem_push(s: Seq<usize>, q: Seq<usize>, k: int, x: usize)
    requires
        0 <= k <= q.len(),
    ensures
        cnt_rem(s, q.push(x), k) == cnt_rem(s, q, k),
    decreases s,
{
    assert forall|d: usize| #[trigger] in_prefix(q.push(x), k, d) == in_prefix(q, k, d) by {
        if in_prefix(q.push(x), k, d) {
            let j = choose|j: int| 0 <= j < k && j < q.push(x).len() && q.push(x)[j] == d;
            assert(q[j] == d);
        }
        if in_prefix(q, k, d) {
            let j = choose|j: int| 0 <= j < k && j < q.len() && q[j] == d;
            assert(q.push(x)[j] == d);
        }
    }
    if s.len() > 0 {
        lemma_cnt_rem_push(s.drop_first(), q, k, x);
    }
}

/// A sequence of distinct values below `n` has at most `n` elements.
pub proof fn lemma_nodup_len_bound(s: Seq<usize>, n: int)
    requires
        s.no_duplicates(),
        0 <= n,
        forall|p: int| 0 <= p < s.len() ==> #[trigger] s[p] < n,
    ensures
        s.len() <= n,
{
    let si = s.map_values(|x: usize| x as int);
    assert(si.no_duplicates()) by {
        assert(forall|i: int, j: int|
            0 <= i < si.len() && 0 <= j < si.len() && i != j ==> #[trigger] si[i]
                != #[trigger] si[j]);
    }
    si.unique_seq_to_set();
    lemma_int_range(0, n);
    lemma_len_subset(si.to_set(), set_int_range(0, n));
    assert(si.to_set().subset_of(set_int_range(0, n))) by {
        assert forall|x: int| si.to_set().contains(x) implies set_int_range(0, n).contains(x) by {
            let p = choose|p: int| 0 <= p < si.len() && si[p] == x;
            assert(s[p] < n);
        }
    }
}

/// A sequence of `n` distinct values below `n` holds every value below `n`.
pub proof fn lemma_nodup_complete(s: Seq<usize>, n: int)
    requires
        s.no_duplicates(),
        0 <= n,
        s.len() == n,
        forall|p: int| 0 <= p < s.len() ==> #[trigger] s[p] < n,
    ensures
        forall|v: usize| v < n ==> s.contains(v),
{
    let si = s.map_values(|x: usize| x as int);
    assert(si.no_duplicates()) by {
        assert(forall|i: int, j: int|
            0 <= i < si.len() && 0 <= j < si.len() && i != j ==> #[trigger] si[i]
                != #[trigger] si[j]);
    }
    si.unique_seq_to_set();
    lemma_int_range(0, n);
    assert(si.to_set().subset_of(set_int_range(0, n))) by {
        assert forall|x: int| si.to_set().contains(x) implies set_int_range(0, n).contains(x) by {
            let p = choose|p: int| 0 <= p < si.len() && si[p] == x;
            assert(s[p] < n);
        }
    }
    lemma_subset_equality(si.to_set(), set_int_range(0, n));
    assert forall|v: usize| v < n implies s.contains(v) by {
        assert(set_int_range(0, n).contains(v as int));
        assert(si.to_set().contains(v as int));
        let p = choose|p: int| 0 <= p < si.len() && si[p] == v as int;
        assert(s[p] == v);
    }
}

/// A sequence of more than `n` values below `n` repeats one of them.
pub proof fn lemma_pigeonhole(s: Seq<usize>, n: int) -> (r: (int, int))
    requires
        0 <= n < s.len(),
        forall|p: int| 0 <= p < s.len() ==> #[trigger] s[p] < n,
    ensures
        0 <= r.0 < r.1 < s.len() && s[r.0] == s[r.1],
{
    if exists|i: int, j: int| 0 <= i < j < s.len() && s[i] == s[j] {
        let (i, j) = choose|i: int, j: int| 0 <= i < j < s.len() && s[i] == s[j];
        (i, j)
    } else {
        assert(s.no_duplicates()) by {
            assert(forall|i: int, j: int|
                0 <= i < j < s.len() ==> #[trigger] s[i] != #[trigger] s[j]);
        }
        lemma_nodup_len_bound(s, n);
        assert(false);
        (0, 0)
    }
}

/// A node the sort left behind: it never entered the queue.
pub open spec fn blocked(ds: Seq<Seq<usize>>, q: Seq<usize>, r: usize) -> bool {
    r < ds.len() && !q.contains(r)
}

/// From a node stuck behind unprocessed dependencies, walk `f` dependency
/// steps, staying among stuck nodes.
proof fn build_path(ds: Seq<Seq<usize>>, q: Seq<usize>, r0: usize, f: nat) -> (p: Seq<usize>)
    requires
        blocked(ds, q, r0),
        forall|r: usize|
            blocked(ds, q, r) ==> exists|d: usize| (#[trigger] ds[r as int]).contains(d) && blocked(
                ds,
                q,
                d,
            ),
    ensures
        p.len() == f + 1,
        p[0] == r0,
        forall|k: int| 0 <= k < p.len() ==> blocked(ds, q, #[trigger] p[k]),
        forall|k: int| 0 <= k < p.len() - 1 ==> (#[trigger] ds[p[k] as int]).contains(p[k + 1]),
    decreases f,
{
    if f == 0 {
        let p = seq![r0];
        p
    } else {
        let d = choose|d: usize| (#[trigger] ds[r0 as int]).contains(d) && blocked(ds, q, d);
        let rest = build_path(ds, q, d, (f - 1) as nat);
        let p = seq![r0] + rest;
        assert(forall|k: int| 1 <= k < p.len() ==> p[k] == rest[k - 1]);
        assert(p[1] == rest[0]);
        p
    }
}

/// A sequence of distinct values covering all of `0..n` has at least `n`
/// elements.
pub proof fn lemma_nodup_cover_len(s: Seq<usize>, n: int)
    requires
        s.no_duplicates(),
        0 <= n <= usize::MAX,
        forall|v: usize| v < n ==> s.contains(v),
    ensures
        s.len() >= n,
{
    let si = s.map_values(|x: usize| x as int);
    assert(si.no_duplicates()) by {
        assert(forall|i: int, j: int|
            0 <= i < si.len() && 0 <= j < si.len() && i != j ==> #[trigger] si[i]
                != #[trigger] si[j]);
    }
    si.unique_seq_to_set();
    lemma_int_range(0, n);
    assert(set_int_range(0, n).subset_of(si.to_set())) by {
        assert forall|x: int| set_int_range(0, n).contains(x) implies si.to_set().contains(x) by {
            assert(s.contains(x as usize));
            let p = choose|p: int| 0 <= p < s.len() && s[p] == x as usize;
            assert(si[p] == x);
        }
    }
    lemma_len_subset(set_int_range(0, n), si.to_set());
}

/// The mathematical shape of a dependency table.
pub open spec fn deps_view(s: Seq<Vec<usize>>) -> Seq<Seq<usize>> {
    Seq::new(s.len(), |i: int| s[i]@)
}

/// Whether `v` holds `x`.
pub fn seq_has(v: &Vec<usize>, x: usize) -> (r: bool)
    ensures
        r == v@.contains(x),
{
    let n = v.len();
    let mut i: usize = 0;
    while i < n
        invariant
            n == v@.len(),
            i <= n,
            forall|j: int| 0 <= j < i ==> #[trigger] v@[j] != x,
        decreases n - i,
    {
        if v[i] == x {
            return true;
        }
        i = i + 1;
    }
    false
}

/// If every stuck node depends on a stuck node, some of them form a cycle
/// through the first one found.
pub proof fn lemma_stuck_cycle(ds: Seq<Seq<usize>>, q: Seq<usize>, r0: usize) -> (c: Seq<usize>)
    requires
        blocked(ds, q, r0),
        forall|r: usize|
            blocked(ds, q, r) ==> exists|d: usize| (#[trigger] ds[r as int]).contains(d) && blocked(
                ds,
                q,
                d,
            ),
    ensures
        is_cycle(ds, c),
        blocked(ds, q, c[0]),
    decreases ds.len(),
{
    let n = ds.len() as int;
    let p = build_path(ds, q, r0, n as nat);
    assert(forall|k: int| 0 <= k < p.len() ==> #[trigger] p[k] < n);
    let (i, j) = lemma_pigeonhole(p, n);
    let c = p.subrange(i, j + 1);
    assert(c[0] == p[i]);
    assert(c[c.len() - 1] == p[j]);
    assert(forall|k: int| 0 <= k < c.len() ==> #[trigger] c[k] == p[i + k]);
    assert forall|k: int| 0 <= k < c.len() - 1 implies (#[trigger] ds[c[k] as int]).contains(
        c[k + 1],
    ) by {
        assert(ds[p[i + k] as int].contains(p[i + k + 1]));
    }
    c
}

/// Kahn's algorithm. Nodes with no unresolved dependencies enter a queue,
/// seeded in declaration order; processing a node resolves it for every
/// node that depends on it, and nodes whose last dependency resolves join
/// the queue. When every node is processed, the queue order is a
/// topological order; otherwise the unprocessed remainder sits in or behind
/// a dependency cycle.
#[verifier::rlimit(100)]
pub fn kahn_sort(deps: &Vec<Vec<usize>>) -> (r: SortResult)
    requires
        wf_deps(deps_view(deps@)),
    ensures
        match r {
            SortResult::Success(ord) => is_topo_order(deps_view(deps@), ord@),
            SortResult::CicularRef(rem) => {
                &&& rem@.len() > 0
                &&& forall|p: int| 0 <= p < rem@.len() ==> #[trigger] rem@[p] < deps@.len()
                &&& exists|c: Seq<usize>|
                    is_cycle(deps_view(deps@), c) && rem@.contains(c[0])
            },
        },
{
    let ghost ds = deps_view(deps@);
    let n = deps.len();
    let mut cnt: Vec<usize> = Vec::new();
    let mut q: Vec<usize> = Vec::new();
    let mut i: usize = 0;
    while i < n
        invariant
            ds == deps_view(deps@),
            n == deps@.len(),
            i <= n,
            cnt@.len() == i,
            forall|k: int| 0 <= k < i ==> #[trigger] cnt@[k] == ds[k].len(),
        decreases n - i,
    {
        cnt.push(deps[i].len());
        i = i + 1;
    }
    let mut i: usize = 0;
    while i < n
        invariant
            ds == deps_view(deps@),
            n == deps@.len(),
            cnt@.len() == n,
            forall|k: int| 0 <= k < n ==> #[trigger] cnt@[k] == ds[k].len(),
            i <= n,
            q@.no_duplicates(),
            forall|p: int| 0 <= p < q@.len() ==> #[trigger] q@[p] < i,
            forall|v: usize| v < n ==> (q@.contains(v) <==> (v < i && ds[v as int].len() == 0)),
        decreases n - i,
    {
        if deps[i].len() == 0 {
            let ghost q0 = q@;
            q.push(i);
            proof {
                assert(!q0.contains(i));
                assert forall|v: usize| v < n implies (q@.contains(v) <==> (v < i + 1 && ds[v as int].len() == 0)) by {
                    if q@.contains(v) {
                        let p = choose|p: int| 0 <= p < q@.len() && q@[p] == v;
                        if p < q0.len() {
                            assert(q0[p] == v);
                            assert(q0.contains(v));
                        }
                    }
                    if v < i + 1 && ds[v as int].len() == 0 {
                        if v < i {
                            assert(q0.contains(v));
                            let p = choose|p: int| 0 <= p < q0.len() && q0[p] == v;
                            assert(q@[p] == v);
                        } else {
                            assert(q@[q0.len() as int] == i);
                        }
                    }
                }
            }
        } else {
            proof {
                assert forall|v: usize| v < n implies (q@.contains(v) <==> (v < i + 1 && ds[v as int].len() == 0)) by {}
            }
        }
        i = i + 1;
    }
    proof {
        assert forall|v: usize| v < n implies (q@.contains(v) <==> cnt@[v as int] == 0) by {
            lemma_cnt_rem_all(ds[v as int], q@);
        }
        assert forall|k: int| 0 <= k < n implies #[trigger] cnt@[k] == cnt_rem(
            ds[k],
            q@,
            0,
        ) by {
            lemma_cnt_rem_all(ds[k], q@);
        }
        assert forall|p: int| #![trigger q@[p]] 0 <= p < q@.len() implies (forall|j: int|
            0 <= j < ds[q@[p] as int].len() ==> in_prefix(q@, p, #[trigger] ds[q@[p] as int][j]))
            by {
            let v = q@[p];
            assert(q@.contains(v));
            assert(v < n && ds[v as int].len() == 0);
        }
    }
    let mut qhead: usize = 0;
    while qhead < q.len()
        invariant
            ds == deps_view(deps@),
            n == deps@.len(),
            wf_deps(ds),
            cnt@.len() == n,
            q@.no_duplicates(),
            forall|p: int| 0 <= p < q@.len() ==> #[trigger] q@[p] < n,
            qhead <= q@.len(),
            forall|k: int|
                0 <= k < n ==> #[trigger] cnt@[k] == cnt_rem(ds[k], q@, qhead as int),
            forall|v: usize| v < n ==> (q@.contains(v) <==> cnt@[v as int] == 0),
            forall|p: int| #![trigger q@[p]]
                0 <= p < q@.len() ==> (forall|j: int|
                    0 <= j < ds[q@[p] as int].len() ==> in_prefix(
                        q@,
                        p,
                        #[trigger] ds[q@[p] as int][j],
                    )),
        decreases n - qhead,
    {
        proof {
            lemma_nodup_len_bound(q@, n as int);
        }
        let nd = q[qhead];
        proof {
            assert(!in_prefix(q@, qhead as int, nd)) by {
                if in_prefix(q@, qhead as int, nd) {
                    let j = choose|j: int| 0 <= j < qhead && j < q@.len() && q@[j] == nd;
                    assert(q@[j] == q@[qhead as int]);
                }
            }
        }
        let ghost q0 = q@;
        let mut i: usize = 0;
        while i < n
            invariant
                ds == deps_view(deps@),
                n == deps@.len(),
                wf_deps(ds),
                cnt@.len() == n,
                i <= n,
                qhead < q0.len(),
                q0.len() <= q@.len(),
                q@.subrange(0, q0.len() as int) == q0,
                nd == q@[qhead as int],
                nd < n,
                !in_prefix(q@, qhead as int, nd),
                q@.no_duplicates(),
                forall|p: int| 0 <= p < q@.len() ==> #[trigger] q@[p] < n,
                forall|k: int|
                    0 <= k < i ==> #[trigger] cnt@[k] == cnt_rem(ds[k], q@, qhead + 1),
                forall|k: int|
                    i <= k < n ==> #[trigger] cnt@[k] == cnt_rem(ds[k], q@, qhead as int),
                forall|v: usize| v < n ==> (q@.contains(v) <==> cnt@[v as int] == 0),
                forall|p: int| #![trigger q@[p]]
                    0 <= p < q@.len() ==> (forall|j: int|
                        0 <= j < ds[q@[p] as int].len() ==> in_prefix(
                            q@,
                            p,
                            #[trigger] ds[q@[p] as int][j],
                        )),
            decreases n - i,
        {
            proof {
                assert(ds[i as int] == deps@[i as int]@);
                lemma_cnt_rem_step(ds[i as int], q@, qhead as int);
            }
            if seq_has(&deps[i], nd) {
                let ci = cnt[i];
                proof {
                    assert(ds[i as int].contains(nd));
                    assert(cnt_rem(ds[i as int], q@, qhead + 1) + 1 == cnt_rem(
                        ds[i as int],
                        q@,
                        qhead as int,
                    ));
                    assert(ci >= 1);
                }
                cnt.set(i, ci - 1);
                proof {
                    // The node scanned now counts one dependency fewer; it
                    // can no longer be in the queue, where counts are zero.
                    assert(!q@.contains(i)) by {
                        assert(cnt_rem(ds[i as int], q@, qhead as int) == ci);
                    }
                }
                if ci - 1 == 0 {
                    let ghost qb = q@;
                    q.push(i);
                    proof {
                        assert forall|k: int| #![trigger ds[k]] 0 <= k < n implies cnt_rem(
                            ds[k],
                            q@,
                            qhead + 1,
                        ) == cnt_rem(ds[k], qb, qhead + 1) && cnt_rem(ds[k], q@, qhead as int)
                            == cnt_rem(ds[k], qb, qhead as int) by {
                            lemma_cnt_rem_push(ds[k], qb, qhead + 1, i);
                            lemma_cnt_rem_push(ds[k], qb, qhead as int, i);
                        }
                        assert(q@.subrange(0, q0.len() as int) =~= q0) by {
                            assert(forall|p: int|
                                0 <= p < q0.len() ==> #[trigger] q@[p] == qb[p]);
                        }
                        assert(q@.no_duplicates()) by {
                            assert(forall|p: int| 0 <= p < qb.len() ==> #[trigger] q@[p] == qb[p]);
                            assert(q@[qb.len() as int] == i);
                        }
                        lemma_cnt_rem_zero(ds[i as int], qb, qhead + 1);
                        assert forall|v: usize| v < n implies (q@.contains(v) <==> cnt@[v as int] == 0) by {
                            if v == i {
                                assert(q@[qb.len() as int] == i);
                            } else {
                                assert(q@.contains(v) <==> qb.contains(v)) by {
                                    if q@.contains(v) {
                                        let p = choose|p: int|
                                            0 <= p < q@.len() && q@[p] == v;
                                        assert(p < qb.len());
                                        assert(qb[p] == v);
                                    } else {
                                    }
                                    if qb.contains(v) {
                                        let p = choose|p: int|
                                            0 <= p < qb.len() && qb[p] == v;
                                        assert(q@[p] == v);
                                    }
                                }
                            }
                        }
                        assert forall|p: int| #![trigger q@[p]] 0 <= p < q@.len() implies (forall|
                            j: int,
                        |
                            0 <= j < ds[q@[p] as int].len() ==> in_prefix(
                                q@,
                                p,
                                #[trigger] ds[q@[p] as int][j],
                            )) by {
                            if p < qb.len() {
                                assert(q@[p] == qb[p]);
                                assert forall|j: int|
                                    0 <= j < ds[q@[p] as int].len() implies in_prefix(
                                    q@,
                                    p,
                                    #[trigger] ds[q@[p] as int][j],
                                ) by {
                                    assert(in_prefix(qb, p, ds[qb[p] as int][j]));
                                    let w = choose|w: int|
                                        0 <= w < p && w < qb.len() && qb[w] == ds[qb[p] as int][j];
                                    assert(q@[w] == ds[q@[p] as int][j]);
                                }
                            } else {
                                assert(q@[p] == i);
                                assert forall|j: int|
                                    0 <= j < ds[i as int].len() implies in_prefix(
                                    q@,
                                    p,
                                    #[trigger] ds[i as int][j],
                                ) by {
                                    assert(in_prefix(qb, qhead + 1, ds[i as int][j]));
                                    let w = choose|w: int|
                                        0 <= w < qhead + 1 && w < qb.len() && qb[w] == ds[i as int][j];
                                    assert(q@[w] == ds[i as int][j]);
                                    assert(w < p);
                                }
                            }
                        }
                        assert(!in_prefix(q@, qhead as int, nd)) by {
                            if in_prefix(q@, qhead as int, nd) {
                                let j = choose|j: int|
                                    0 <= j < qhead && j < q@.len() && q@[j] == nd;
                                assert(qb[j] == nd);
                                assert(in_prefix(qb, qhead as int, nd));
                            }
                        }
                        assert(nd == q@[qhead as int]) by {
                            assert(q@[qhead as int] == qb[qhead as int]);
                        }
                    }
                }
            } else {
                proof {
                    assert(!ds[i as int].contains(nd));
                }
            }
            i = i + 1;
        }
        qhead = qhead + 1;
    }
    if q.len() == n {
        proof {
            lemma_nodup_complete(q@, n as int);
            assert(is_topo_order(ds, q@));
        }
        SortResult::Success(q)
    } else {
        proof {
            lemma_nodup_len_bound(q@, n as int);
            assert(q@.len() < n);
            // Every unqueued node keeps an unqueued dependency: its count
            // is positive, and a count counts only unqueued dependencies
            // once the whole queue is processed.
            assert forall|r: usize| blocked(ds, q@, r) implies exists|d: usize|
                (#[trigger] ds[r as int]).contains(d) && blocked(ds, q@, d) by {
                assert(cnt@[r as int] != 0);
                assert(cnt_rem(ds[r as int], q@, qhead as int) > 0);
                let j = lemma_cnt_rem_pos(ds[r as int], q@, qhead as int);
                let d = ds[r as int][j];
                assert(!q@.contains(d)) by {
                    if q@.contains(d) {
                        let p = choose|p: int| 0 <= p < q@.len() && q@[p] == d;
                        assert(in_prefix(q@, qhead as int, d));
                    }
                }
                assert(d < n);
                assert(ds[r as int].contains(d));
                assert(blocked(ds, q@, d));
            }
        }
        let mut rem: Vec<usize> = Vec::new();
        let mut i: usize = 0;
        while i < n
            invariant
                ds == deps_view(deps@),
                n == deps@.len(),
                cnt@.len() == n,
                i <= n,
                forall|v: usize| v < n ==> (q@.contains(v) <==> cnt@[v as int] == 0),
                forall|p: int| 0 <= p < rem@.len() ==> #[trigger] rem@[p] < i,
                forall|v: usize| v < i ==> (rem@.contains(v) <==> cnt@[v as int] != 0),
            decreases n - i,
        {
            if cnt[i] != 0 {
                let ghost r0 = rem@;
                rem.push(i);
                proof {
                    assert forall|v: usize| v < i + 1 implies (rem@.contains(v) <==> cnt@[v as int] != 0) by {
                        if v == i {
                            assert(rem@[r0.len() as int] == i);
                        } else {
                            assert(rem@.contains(v) <==> r0.contains(v)) by {
                                if rem@.contains(v) {
                                    let p = choose|p: int| 0 <= p < rem@.len() && rem@[p] == v;
                                    assert(p < r0.len());
                                    assert(r0[p] == v);
                                }
                                if r0.contains(v) {
                                    let p = choose|p: int| 0 <= p < r0.len() && r0[p] == v;
                                    assert(rem@[p] == v);
                                }
                            }
                        }
                    }
                }
            }
            i = i + 1;
        }
        proof {
            // The queue is shorter than the node count, so some node is
            // stuck; it leads into a cycle, one of whose members the
            // remainder names.
            assert(exists|v: usize| v < n && !q@.contains(v)) by {
                if forall|v: usize| v < n ==> q@.contains(v) {
                    lemma_nodup_cover_len(q@, n as int);
                }
            }
            let v0 = choose|v: usize| v < n && !q@.contains(v);
            assert(cnt@[v0 as int] != 0);
            assert(rem@.contains(v0));
            assert(rem@.len() > 0);
            let c = lemma_stuck_cycle(ds, q@, v0);
            assert(!q@.contains(c[0]) && c[0] < n);
            assert(rem@.contains(c[0]));
            assert(is_cycle(ds, c) && rem@.contains(c[0]));
        }
        SortResult::CicularRef(rem)
    }
}

} // verus!
