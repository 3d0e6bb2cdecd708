//! Directed graphs over the node numbers `0..n`: walks, cycles, and the
//! ordering of nodes so that every edge goes from an earlier node to a later
//! one (Kahn's algorithm).
use vstd::prelude::*;
use vstd::set_lib::{set_int_range, lemma_int_range, lemma_len_subset};

verus! {

broadcast use vstd::set::group_set_axioms;

/// The graph has an edge from `a` to `b`.
pub open spec fn id_edge(e: Seq<(usize, usize)>, a: int, b: int) -> bool {
    exists|k: int| 0 <= k < e.len() && e[k].0 == a && e[k].1 == b
}

/// `p` is a walk of at least one edge.
pub open spec fn id_walk(e: Seq<(usize, usize)>, p: Seq<int>) -> bool {
    &&& p.len() >= 2
    &&& forall|i: int| 0 <= i < p.len() - 1 ==> id_edge(e, #[trigger] p[i], p[i + 1])
}

/// Some walk of at least one edge comes back to where it started.
pub open spec fn id_has_cycle(e: Seq<(usize, usize)>) -> bool {
    exists|p: Seq<int>| id_walk(e, p) && p[0] == p.last()
}

/// Every endpoint of every edge is below `n`.
pub open spec fn edges_below(e: Seq<(usize, usize)>, n: nat) -> bool {
    forall|k: int| 0 <= k < e.len() ==> (#[trigger] e[k]).0 < n && e[k].1 < n
}

/// `order` lists distinct nodes, and every edge between two of them goes
/// from the earlier to the later.
pub open spec fn id_topological(e: Seq<(usize, usize)>, order: Seq<usize>) -> bool {
    &&& order.no_duplicates()
    &&& forall|i: int, j: int|
        0 <= i < order.len() && 0 <= j < order.len() && id_edge(
            e,
            #[trigger] order[i] as int,
            #[trigger] order[j] as int,
        ) ==> i < j
}

/// Number of edges into `v` whose source is not in `done`.
pub open spec fn pending_in(e: Seq<(usize, usize)>, v: int, done: Set<int>) -> nat
    decreases e.len(),
{
    if e.len() == 0 {
        0
    } else {
        pending_in(e.drop_last(), v, done) + if e.last().1 == v && !done.contains(
            e.last().0 as int,
        ) {
            1nat
        } else {
            0nat
        }
    }
}

/// Number of edges from `u` to `v`.
pub open spec fn count_uv(e: Seq<(usize, usize)>, u: int, v: int) -> nat
    decreases e.len(),
{
    if e.len() == 0 {
        0
    } else {
        count_uv(e.drop_last(), u, v) + if e.last().0 == u && e.last().1 == v {
            1nat
        } else {
            0nat
        }
    }
}

proof fn lemma_pending_split(e: Seq<(usize, usize)>, v: int, d: Set<int>, u: int)
    requires
        !d.contains(u),
    ensures
        pending_in(e, v, d) == pending_in(e, v, d.insert(u)) + count_uv(e, u, v),
    decreases e.len(),
{
    if e.len() > 0 {
        lemma_pending_split(e.drop_last(), v, d, u);
    }
}

proof fn lemma_pending_zero(e: Seq<(usize, usize)>, v: int, d: Set<int>, k: int)
    requires
        0 <= k < e.len(),
        e[k].1 == v,
        !d.contains(e[k].0 as int),
    ensures
        pending_in(e, v, d) >= 1,
    decreases e.len(),
{
    if k < e.len() - 1 {
        assert(e.drop_last()[k] == e[k]);
        lemma_pending_zero(e.drop_last(), v, d, k);
    }
}

/// A node with pending incoming edges has one whose source is not done.
proof fn lemma_pending_witness(e: Seq<(usize, usize)>, v: int, d: Set<int>) -> (k: int)
    requires
        pending_in(e, v, d) >= 1,
    ensures
        0 <= k < e.len(),
        e[k].1 == v,
        !d.contains(e[k].0 as int),
    decreases e.len(),
{
    if e.last().1 == v && !d.contains(e.last().0 as int) {
        e.len() - 1
    } else {
        let k = lemma_pending_witness(e.drop_last(), v, d);
        assert(e.drop_last()[k] == e[k]);
        k
    }
}

proof fn lemma_count_prefix(e: Seq<(usize, usize)>, k: int, u: int, v: int)
    requires
        0 <= k < e.len(),
    ensures
        count_uv(e.take(k + 1), u, v) == count_uv(e.take(k), u, v) + if e[k].0 == u && e[k].1
            == v {
            1nat
        } else {
            0nat
        },
{
    assert(e.take(k + 1).drop_last() =~= e.take(k));
}

proof fn lemma_count_mono(e: Seq<(usize, usize)>, k: int, u: int, v: int)
    requires
        0 <= k <= e.len(),
    ensures
        count_uv(e.take(k), u, v) <= count_uv(e, u, v),
    decreases e.len(),
{
    if k == e.len() {
        assert(e.take(k) =~= e);
    } else {
        assert(e.drop_last().take(k) =~= e.take(k));
        lemma_count_mono(e.drop_last(), k, u, v);
    }
}

proof fn lemma_count_pos(e: Seq<(usize, usize)>, k: int, u: int, v: int)
    requires
        0 <= k < e.len(),
        e[k].0 == u,
        e[k].1 == v,
    ensures
        count_uv(e.take(k + 1), u, v) >= 1,
{
    lemma_count_prefix(e, k, u, v);
}

/// A sequence longer than `n` of numbers below `n` repeats a number.
pub proof fn lemma_pigeonhole(s: Seq<int>, n: int) -> (r: (int, int))
    requires
        0 <= n < s.len(),
        forall|i: int| 0 <= i < s.len() ==> 0 <= #[trigger] s[i] < n,
    ensures
        0 <= r.0 < r.1 < s.len(),
        s[r.0] == s[r.1],
{
    if s.no_duplicates() {
        s.unique_seq_to_set();
        lemma_int_range(0, n);
        assert(s.to_set().subset_of(set_int_range(0, n)));
        lemma_len_subset(s.to_set(), set_int_range(0, n));
        assert(false);
        (0, 0)
    } else {
        let (i, j) = choose|i: int, j: int|
            0 <= i < s.len() && 0 <= j < s.len() && i != j && s[i] == s[j];
        if i < j {
            (i, j)
        } else {
            (j, i)
        }
    }
}

/// `s` lists node `v`.
pub open spec fn lists(s: Seq<usize>, v: int) -> bool {
    exists|i: int| 0 <= i < s.len() && s[i] as int == v
}

/// Distinct numbers below `n`, fewer than `n` of them, miss some number below `n`.
pub proof fn lemma_missing(s: Seq<usize>, n: int) -> (v: int)
    requires
        s.no_duplicates(),
        s.len() < n,
        forall|i: int| 0 <= i < s.len() ==> #[trigger] s[i] < n,
    ensures
        0 <= v < n,
        !lists(s, v),
{
    if forall|v: int| 0 <= v < n ==> #[trigger] lists(s, v) {
        let t = s.map_values(|x: usize| x as int);
        assert(t.no_duplicates());
        t.unique_seq_to_set();
        lemma_int_range(0, n);
        assert forall|v: int| set_int_range(0, n).contains(v) implies t.to_set().contains(v) by {
            assert(lists(s, v));
            let i = choose|i: int| 0 <= i < s.len() && s[i] as int == v;
            assert(t[i] == v);
        }
        lemma_len_subset(set_int_range(0, n), t.to_set());
        assert(false);
        0
    } else {
        choose|v: int| 0 <= v < n && !lists(s, v)
    }
}

/// Distinct numbers below `n`, `n` of them, include every number below `n`.
pub proof fn lemma_covers(s: Seq<usize>, n: int, v: int)
    requires
        s.no_duplicates(),
        s.len() == n,
        forall|i: int| 0 <= i < s.len() ==> #[trigger] s[i] < n,
        0 <= v < n,
    ensures
        lists(s, v),
{
    if !lists(s, v) {
        let t = s.map_values(|x: usize| x as int);
        assert(t.no_duplicates());
        t.unique_seq_to_set();
        lemma_int_range(0, n);
        assert forall|x: int| t.to_set().contains(x) implies set_int_range(0, n).remove(
            v,
        ).contains(x) by {
            let i = choose|i: int| 0 <= i < t.len() && t[i] == x;
            assert(s[i] < n);
            assert(s[i] as int != v);
        }
        lemma_len_subset(t.to_set(), set_int_range(0, n).remove(v));
    }
}

/// A walk backwards from `v0`, each step to a predecessor outside `d`.
spec fn back_walk(e: Seq<(usize, usize)>, d: Set<int>, v0: int, len: nat) -> Seq<int>
    decreases len,
{
    if len <= 1 {
        seq![v0]
    } else {
        let w = back_walk(e, d, v0, (len - 1) as nat);
        let k = choose|k: int| 0 <= k < e.len() && e[k].1 == w.last() && !d.contains(e[k].0 as int);
        w.push(e[k].0 as int)
    }
}

proof fn lemma_back_walk(e: Seq<(usize, usize)>, d: Set<int>, n: int, v0: int, len: nat)
    requires
        len >= 1,
        edges_below(e, n as nat),
        0 <= v0 < n,
        !d.contains(v0),
        forall|v: int| 0 <= v < n && !d.contains(v) ==> pending_in(e, v, d) >= 1,
    ensures
        back_walk(e, d, v0, len).len() == len,
        back_walk(e, d, v0, len)[0] == v0,
        forall|i: int|
            0 <= i < len ==> 0 <= #[trigger] back_walk(e, d, v0, len)[i] < n && !d.contains(
                back_walk(e, d, v0, len)[i],
            ),
        forall|i: int|
            0 <= i < len - 1 ==> id_edge(
                e,
                back_walk(e, d, v0, len)[i + 1],
                #[trigger] back_walk(e, d, v0, len)[i],
            ),
    decreases len,
{
    if len > 1 {
        lemma_back_walk(e, d, n, v0, (len - 1) as nat);
        let w = back_walk(e, d, v0, (len - 1) as nat);
        let last = w.last();
        assert(0 <= last < n && !d.contains(last)) by {
            assert(last == w[w.len() - 1]);
        }
        let k0 = lemma_pending_witness(e, last, d);
        let k = choose|k: int| 0 <= k < e.len() && e[k].1 == w.last() && !d.contains(e[k].0 as int);
        let w2 = back_walk(e, d, v0, len);
        assert(w2 == w.push(e[k].0 as int));
        assert(e[k].0 < n);
        assert forall|i: int| 0 <= i < len - 1 implies id_edge(e, w2[i + 1], #[trigger] w2[i]) by {
            if i < len - 2 {
                assert(w2[i] == w[i] && w2[i + 1] == w[i + 1]);
            } else {
                assert(w2[i] == last);
                assert(e[k].0 == w2[i + 1] && e[k].1 == w2[i]);
            }
        }
    }
}

/// If every node outside `d` (and there is one) has an incoming edge from
/// outside `d`, the graph has a cycle.
pub proof fn lemma_stuck_has_cycle(e: Seq<(usize, usize)>, d: Set<int>, n: int, v0: int)
    requires
        edges_below(e, n as nat),
        0 <= v0 < n,
        !d.contains(v0),
        forall|v: int| 0 <= v < n && !d.contains(v) ==> pending_in(e, v, d) >= 1,
    ensures
        id_has_cycle(e),
{
    let len = (n + 1) as nat;
    lemma_back_walk(e, d, n, v0, len);
    let w = back_walk(e, d, v0, len);
    let (i, j) = lemma_pigeonhole(w, n);
    let p = Seq::new((j - i + 1) as nat, |t: int| w[j - t]);
    assert forall|t: int| 0 <= t < p.len() - 1 implies id_edge(e, #[trigger] p[t], p[t + 1]) by {
        let m = j - t - 1;
        assert(0 <= m < len - 1);
        assert(id_edge(e, w[m + 1], w[m]));
    }
    assert(id_walk(e, p));
    assert(p[0] == w[j]);
    assert(p.last() == w[i]);
}

/// A topological order of all `n` nodes means the graph has no cycle.
pub proof fn lemma_complete_order_acyclic(e: Seq<(usize, usize)>, order: Seq<usize>, n: int)
    requires
        edges_below(e, n as nat),
        id_topological(e, order),
        order.len() == n,
        forall|i: int| 0 <= i < order.len() ==> #[trigger] order[i] < n,
    ensures
        !id_has_cycle(e),
{
    if id_has_cycle(e) {
        let p = choose|p: Seq<int>| id_walk(e, p) && p[0] == p.last();
        // position of each walk node in the order
        assert forall|t: int| 0 <= t < p.len() implies 0 <= #[trigger] p[t] < n by {
            if t < p.len() - 1 {
                assert(id_edge(e, p[t], p[t + 1]));
                let k = choose|k: int| 0 <= k < e.len() && e[k].0 == p[t] && e[k].1 == p[t + 1];
                assert(e[k].0 < n);
            } else {
                assert(id_edge(e, p[t - 1], p[t]));
                let k = choose|k: int| 0 <= k < e.len() && e[k].0 == p[t - 1] && e[k].1 == p[t];
                assert(e[k].1 < n);
            }
        }
        let pos = |x: int| choose|i: int| 0 <= i < order.len() && order[i] as int == x;
        assert forall|t: int| 0 <= t < p.len() implies 0 <= #[trigger] pos(p[t]) < order.len()
            && order[pos(p[t])] as int == p[t] by {
            lemma_covers(order, n, p[t]);
        }
        assert forall|t: int| 0 <= t < p.len() - 1 implies #[trigger] pos(p[t]) < pos(p[t + 1]) by {
            assert(id_edge(e, p[t], p[t + 1]));
            assert(order[pos(p[t])] as int == p[t]);
            assert(order[pos(p[t + 1])] as int == p[t + 1]);
        }
        lemma_increasing(p, pos, (p.len() - 1) as int);
        assert(pos(p[0]) < pos(p[p.len() - 1]));
    }
}

proof fn lemma_increasing(p: Seq<int>, pos: spec_fn(int) -> int, m: int)
    requires
        1 <= m < p.len(),
        forall|t: int| 0 <= t < p.len() - 1 ==> #[trigger] pos(p[t]) < pos(p[t + 1]),
    ensures
        pos(p[0]) < pos(p[m]),
    decreases m,
{
    if m > 1 {
        lemma_increasing(p, pos, m - 1);
        assert(pos(p[m - 1]) < pos(p[m]));
    }
}

// ---------------------------------------------------------------------------
// Kahn's algorithm
// ---------------------------------------------------------------------------

/// Lexicographic order of character sequences by character code, the order
/// of `String`.
pub open spec fn lex_lt(a: Seq<char>, b: Seq<char>) -> bool
    decreases a.len(),
{
    if b.len() == 0 {
        false
    } else if a.len() == 0 {
        true
    } else if a[0] != b[0] {
        (a[0] as u32) < (b[0] as u32)
    } else {
        lex_lt(a.drop_first(), b.drop_first())
    }
}

/// Compares two names in the order of `String`.
pub fn chars_lt(a: &Vec<char>, b: &Vec<char>) -> (r: bool)
    ensures
        r == lex_lt(a@, b@),
{
    let mut i: usize = 0;
    assert(a@.skip(0) =~= a@);
    assert(b@.skip(0) =~= b@);
    while i < a.len() && i < b.len() && a[i] == b[i]
        invariant
            i <= a.len(),
            i <= b.len(),
            forall|j: int| 0 <= j < i ==> a@[j] == b@[j],
            lex_lt(a@, b@) == lex_lt(a@.skip(i as int), b@.skip(i as int)),
        decreases a.len() - i,
    {
        assert(a@.skip(i as int).drop_first() =~= a@.skip(i + 1));
        assert(b@.skip(i as int).drop_first() =~= b@.skip(i + 1));
        i += 1;
    }
    if i == b.len() {
        false
    } else if i == a.len() {
        true
    } else {
        assert(a@.skip(i as int)[0] == a@[i as int]);
        assert(b@.skip(i as int)[0] == b@[i as int]);
        (a[i] as u32) < (b[i] as u32)
    }
}

proof fn lemma_pending_bound(e: Seq<(usize, usize)>, v: int, d: Set<int>)
    ensures
        pending_in(e, v, d) <= e.len(),
    decreases e.len(),
{
    if e.len() > 0 {
        lemma_pending_bound(e.drop_last(), v, d);
    }
}

/// Distinct numbers below `n` are at most `n` of them.
proof fn lemma_distinct_bound(s: Seq<usize>, n: int)
    requires
        0 <= n,
        s.no_duplicates(),
        forall|i: int| 0 <= i < s.len() ==> #[trigger] s[i] < n,
    ensures
        s.len() <= n,
{
    if s.len() > n {
        let t = s.map_values(|x: usize| x as int);
        let (i, j) = lemma_pigeonhole(t, n);
        assert(s[i] == s[j]);
    }
}

/// The queue holds exactly the nodes below `n` that are not done and have no
/// pending incoming edge.
pub open spec fn queue_matches(q: Seq<usize>, n: nat, done: Set<int>, indeg: Seq<usize>) -> bool {
    forall|v: int| #[trigger] lists(q, v) <==> (0 <= v < n && !done.contains(v) && indeg[v] == 0)
}

/// The in-degrees of all nodes, counting every edge.
fn in_degrees(n: usize, e: &Vec<(usize, usize)>) -> (indeg: Vec<usize>)
    requires
        edges_below(e@, n as nat),
    ensures
        indeg.len() == n,
        forall|v: int| 0 <= v < n ==> indeg@[v] == pending_in(e@, v, Set::<int>::empty()),
{
    let mut indeg: Vec<usize> = Vec::new();
    let mut i: usize = 0;
    while i < n
        invariant
            i <= n,
            indeg.len() == i,
            forall|v: int| 0 <= v < i ==> indeg@[v] == 0,
        decreases n - i,
    {
        indeg.push(0);
        i += 1;
    }
    let mut k: usize = 0;
    while k < e.len()
        invariant
            k <= e.len(),
            indeg.len() == n,
            edges_below(e@, n as nat),
            forall|v: int|
                0 <= v < n ==> indeg@[v] == pending_in(e@.take(k as int), v, Set::<int>::empty()),
        decreases e.len() - k,
    {
        let w = e[k].1;
        assert(e@.take(k + 1).drop_last() =~= e@.take(k as int));
        assert(e@[k as int].1 < n);
        proof {
            lemma_pending_bound(e@.take(k as int), w as int, Set::<int>::empty());
        }
        indeg.set(w, indeg[w] + 1);
        k += 1;
    }
    assert(e@.take(e.len() as int) =~= e@);
    indeg
}

/// The nodes without incoming edges, in ascending order of their names.
fn ready_nodes(n: usize, indeg: &Vec<usize>, names: &Vec<Vec<char>>) -> (q: Vec<usize>)
    requires
        indeg.len() == n,
        names.len() == n,
    ensures
        q@.no_duplicates(),
        forall|v: int| lists(q@, v) <==> (0 <= v < n && indeg@[v] == 0),
{
    let mut q: Vec<usize> = Vec::new();
    let mut v: usize = 0;
    while v < n
        invariant
            v <= n,
            indeg.len() == n,
            names.len() == n,
            q@.no_duplicates(),
            forall|x: int| lists(q@, x) <==> (0 <= x < v && indeg@[x] == 0),
        decreases n - v,
    {
        if indeg[v] == 0 {
            let mut pos: usize = 0;
            while pos < q.len() && q[pos] < n && chars_lt(&names[q[pos]], &names[v])
                invariant
                    pos <= q.len(),
                    names.len() == n,
                    v < n,
                decreases q.len() - pos,
            {
                pos += 1;
            }
            let ghost old_q = q@;
            q.insert(pos, v);
            assert(q@ == old_q.insert(pos as int, v));
            assert forall|x: int| lists(q@, x) <==> (0 <= x < v + 1 && indeg@[x] == 0) by {
                if lists(q@, x) {
                    let i = choose|i: int| 0 <= i < q@.len() && q@[i] as int == x;
                    if i < pos {
                        assert(old_q[i] == q@[i]);
                        assert(lists(old_q, x));
                    } else if i > pos {
                        assert(old_q[i - 1] == q@[i]);
                        assert(lists(old_q, x));
                    }
                }
                if 0 <= x < v && indeg@[x] == 0 {
                    let i = choose|i: int| 0 <= i < old_q.len() && old_q[i] as int == x;
                    if i < pos {
                        assert(q@[i] == old_q[i]);
                    } else {
                        assert(q@[i + 1] == old_q[i]);
                    }
                }
                if x == v {
                    assert(q@[pos as int] == v);
                }
            }
            assert forall|i: int, j: int|
                0 <= i < q@.len() && 0 <= j < q@.len() && i != j implies q@[i] != q@[j] by {
                if q@[i] == v && i != pos {
                    let ii = if i < pos { i } else { i - 1 };
                    assert(old_q[ii] == v);
                    assert(lists(old_q, v as int));
                }
                if q@[j] == v && j != pos {
                    let jj = if j < pos { j } else { j - 1 };
                    assert(old_q[jj] == v);
                    assert(lists(old_q, v as int));
                }
                if i != pos && j != pos {
                    let ii = if i < pos { i } else { i - 1 };
                    let jj = if j < pos { j } else { j - 1 };
                    assert(old_q[ii] == q@[i]);
                    assert(old_q[jj] == q@[j]);
                }
            }
        } else {
            assert forall|x: int| lists(q@, x) <==> (0 <= x < v + 1 && indeg@[x] == 0) by {}
        }
        v += 1;
    }
    q
}

/// Orders the nodes `0..n` so that every edge goes from an earlier node to a
/// later one: nodes without pending incoming edges are taken one at a time,
/// the first ones in descending order of their names, then last-found first.
/// All `n` nodes are ordered exactly when the graph has no cycle.
pub fn kahn_order(n: usize, e: &Vec<(usize, usize)>, names: &Vec<Vec<char>>) -> (out: Vec<usize>)
    requires
        edges_below(e@, n as nat),
        names.len() == n,
    ensures
        id_topological(e@, out@),
        forall|i: int| 0 <= i < out.len() ==> #[trigger] out@[i] < n,
        out.len() == n <==> !id_has_cycle(e@),
{
    let mut indeg = in_degrees(n, e);
    let mut queue = ready_nodes(n, &indeg, names);
    let mut out: Vec<usize> = Vec::new();
    let ghost mut done: Set<int> = Set::empty();
    while queue.len() > 0
        invariant
            edges_below(e@, n as nat),
            names.len() == n,
            indeg.len() == n,
            out.len() <= n,
            forall|v: int| #[trigger] done.contains(v) <==> lists(out@, v),
            forall|i: int| 0 <= i < out.len() ==> #[trigger] out@[i] < n,
            forall|v: int| 0 <= v < n ==> indeg@[v] == pending_in(e@, v, done),
            forall|v: int| done.contains(v) ==> pending_in(e@, v, done) == 0,
            queue@.no_duplicates(),
            queue_matches(queue@, n as nat, done, indeg@),
            id_topological(e@, out@),
        decreases n - out.len(),
    {
        let ghost old_queue = queue@;
        let u = queue.pop().unwrap();
        let ghost old_done = done;
        let ghost old_out = out@;
        assert(old_queue == queue@.push(u));
        assert(old_queue[old_queue.len() - 1] == u);
        assert(lists(old_queue, u as int));
        assert(u < n);
        assert(!old_done.contains(u as int));
        assert(indeg@[u as int] == 0);
        assert(!lists(queue@, u as int)) by {
            if lists(queue@, u as int) {
                let i = choose|i: int| 0 <= i < queue@.len() && queue@[i] as int == u as int;
                assert(old_queue[i] == u);
                assert(old_queue[old_queue.len() - 1] == u);
            }
        }
        assert forall|v: int|
            lists(queue@, v) <==> (lists(old_queue, v) && v != u as int) by {
            if lists(queue@, v) {
                let i = choose|i: int| 0 <= i < queue@.len() && queue@[i] as int == v;
                assert(old_queue[i] == queue@[i]);
            }
            if lists(old_queue, v) && v != u as int {
                let i = choose|i: int| 0 <= i < old_queue.len() && old_queue[i] as int == v;
                assert(i < queue@.len());
                assert(queue@[i] == old_queue[i]);
            }
        }
        out.push(u);
        proof {
            done = done.insert(u as int);
            assert forall|v: int| #[trigger] pending_in(e@, v, old_done) == pending_in(e@, v, done)
                + count_uv(e@, u as int, v) by {
                lemma_pending_split(e@, v, old_done, u as int);
            }
            assert(e@.take(0) =~= Seq::<(usize, usize)>::empty());
            assert forall|v: int| 0 <= v < n implies count_uv(e@.take(0), u as int, v) <= count_uv(
                e@,
                u as int,
                v,
            ) by {
                lemma_count_mono(e@, 0, u as int, v);
            }
            assert forall|v: int| done.contains(v) <==> lists(out@, v) by {
                if lists(out@, v) {
                    let i = choose|i: int| 0 <= i < out@.len() && out@[i] as int == v;
                    if i < old_out.len() {
                        assert(old_out[i] == out@[i]);
                        assert(lists(old_out, v));
                    }
                }
                if old_done.contains(v) {
                    assert(lists(old_out, v));
                    let i = choose|i: int| 0 <= i < old_out.len() && old_out[i] as int == v;
                    assert(out@[i] == old_out[i]);
                }
                if v == u as int {
                    assert(out@[old_out.len() as int] == u);
                }
            }
            assert(out@.no_duplicates()) by {
                assert forall|i: int, j: int|
                    0 <= i < out@.len() && 0 <= j < out@.len() && i != j implies out@[i]
                    != out@[j] by {
                    if i < old_out.len() && j < old_out.len() {
                        assert(out@[i] == old_out[i] && out@[j] == old_out[j]);
                    } else if i < old_out.len() {
                        assert(out@[i] == old_out[i]);
                        assert(out@[j] == u);
                        if old_out[i] == u {
                            assert(lists(old_out, u as int));
                        }
                    } else if j < old_out.len() {
                        assert(out@[j] == old_out[j]);
                        assert(out@[i] == u);
                        if old_out[j] == u {
                            assert(lists(old_out, u as int));
                        }
                    }
                }
            }
            lemma_distinct_bound(out@, n as int);
            assert forall|v: int|
                #[trigger] lists(queue@, v) <==> (0 <= v < n && !done.contains(v) && indeg@[v]
                    == 0) by {
                if 0 <= v < n && !done.contains(v) && indeg@[v] == 0 {
                    assert(!old_done.contains(v));
                    assert(lists(old_queue, v));
                }
                if lists(queue@, v) {
                    assert(lists(old_queue, v));
                }
            }
        }
        // release the edges leaving `u`
        let mut k: usize = 0;
        while k < e.len()
            invariant
                edges_below(e@, n as nat),
                indeg.len() == n,
                k <= e.len(),
                u < n,
                !old_done.contains(u as int),
                done == old_done.insert(u as int),
                count_uv(e@, u as int, u as int) == 0,
                forall|v: int| old_done.contains(v) ==> pending_in(e@, v, old_done) == 0,
                forall|v: int|
                    0 <= v < n ==> indeg@[v] + count_uv(e@.take(k as int), u as int, v)
                        == pending_in(e@, v, done) + count_uv(e@, u as int, v),
                forall|v: int| 0 <= v < n ==> count_uv(e@.take(k as int), u as int, v) <= count_uv(
                    e@,
                    u as int,
                    v,
                ),
                queue@.no_duplicates(),
                queue_matches(queue@, n as nat, done, indeg@),
            decreases e.len() - k,
        {
            let (from, to) = e[k];
            assert(from < n && to < n) by {
                assert(e@[k as int].0 < n && e@[k as int].1 < n);
            }
            proof {
                assert forall|v: int| 0 <= v < n implies count_uv(e@.take(k + 1), u as int, v)
                    <= count_uv(e@, u as int, v) by {
                    lemma_count_mono(e@, k + 1, u as int, v);
                }
                assert forall|v: int| 0 <= v < n implies #[trigger] count_uv(
                    e@.take(k + 1),
                    u as int,
                    v,
                ) == count_uv(e@.take(k as int), u as int, v) + if e@[k as int].0 == u
                    && e@[k as int].1 == v {
                    1nat
                } else {
                    0nat
                } by {
                    lemma_count_prefix(e@, k as int, u as int, v);
                }
            }
            if from == u {
                let w = to;
                assert(indeg@[w as int] >= 1);
                assert(w != u);
                assert(!old_done.contains(w as int)) by {
                    if old_done.contains(w as int) {
                        lemma_pending_zero(e@, w as int, old_done, k as int);
                    }
                }
                let ghost q0 = queue@;
                assert(!lists(q0, w as int));
                let ghost indeg0 = indeg@;
                indeg.set(w, indeg[w] - 1);
                assert forall|v: int| 0 <= v < n && v != w implies indeg@[v] == indeg0[v] by {}
                if indeg[w] == 0 {
                    queue.push(w);
                    assert(queue@ == q0.push(w));
                    assert forall|v: int|
                        #[trigger] lists(queue@, v) <==> (0 <= v < n && !done.contains(v) && indeg@[v]
                            == 0) by {
                        if lists(queue@, v) {
                            let i = choose|i: int| 0 <= i < queue@.len() && queue@[i] as int == v;
                            if i < q0.len() {
                                assert(q0[i] == queue@[i]);
                                assert(lists(q0, v));
                            }
                        }
                        if lists(q0, v) {
                            let i = choose|i: int| 0 <= i < q0.len() && q0[i] as int == v;
                            assert(queue@[i] == q0[i]);
                        }
                        if v == w as int {
                            assert(queue@[q0.len() as int] == w);
                        }
                        if 0 <= v < n && !done.contains(v) && indeg@[v] == 0 && v != w as int {
                            assert(indeg0[v] == 0);
                            assert(lists(q0, v));
                        }
                    }
                    assert(queue_matches(queue@, n as nat, done, indeg@));
                    assert forall|i: int, j: int|
                        0 <= i < queue@.len() && 0 <= j < queue@.len() && i != j implies queue@[i]
                        != queue@[j] by {
                        if i < q0.len() && j < q0.len() {
                            assert(queue@[i] == q0[i] && queue@[j] == q0[j]);
                        } else if i < q0.len() {
                            assert(queue@[i] == q0[i]);
                            if q0[i] == w {
                                assert(lists(q0, w as int));
                            }
                        } else if j < q0.len() {
                            assert(queue@[j] == q0[j]);
                            if q0[j] == w {
                                assert(lists(q0, w as int));
                            }
                        }
                    }
                } else {
                    assert forall|v: int|
                        #[trigger] lists(queue@, v) <==> (0 <= v < n && !done.contains(v)
                            && indeg@[v] == 0) by {
                        if v != w as int && 0 <= v < n {
                            assert(indeg@[v] == indeg0[v]);
                        }
                        if lists(queue@, v) {
                            assert(lists(q0, v));
                        }
                    }
                    assert(queue_matches(queue@, n as nat, done, indeg@));
                }
            }
            k += 1;
        }
        proof {
            assert(e@.take(e.len() as int) =~= e@);
            assert forall|v: int| done.contains(v) implies pending_in(e@, v, done) == 0 by {
                if v != u as int {
                    lemma_pending_split(e@, v, old_done, u as int);
                }
            }
            assert forall|i: int, j: int|
                0 <= i < out@.len() && 0 <= j < out@.len() && id_edge(
                    e@,
                    #[trigger] out@[i] as int,
                    #[trigger] out@[j] as int,
                ) implies i < j by {
                let kk = choose|kk: int|
                    0 <= kk < e@.len() && e@[kk].0 == out@[i] as int && e@[kk].1 == out@[j] as int;
                let last = old_out.len() as int;
                if i < last && j < last {
                    assert(out@[i] == old_out[i] && out@[j] == old_out[j]);
                } else if j == last && i == last {
                    lemma_count_pos(e@, kk, u as int, u as int);
                    lemma_count_mono(e@, kk + 1, u as int, u as int);
                } else if i == last {
                    assert(out@[j] == old_out[j]);
                    assert(lists(old_out, out@[j] as int));
                    assert(old_done.contains(out@[j] as int));
                    lemma_pending_zero(e@, out@[j] as int, old_done, kk);
                }
            }
        }
    }
    proof {
        if out.len() < n {
            let v0 = lemma_missing(out@, n as int);
            assert forall|v: int| 0 <= v < n && !done.contains(v) implies pending_in(e@, v, done)
                >= 1 by {
                if indeg@[v] == 0 {
                    assert(lists(queue@, v));
                    let i = choose|i: int| 0 <= i < queue@.len() && queue@[i] as int == v;
                }
            }
            lemma_stuck_has_cycle(e@, done, n as int, v0);
        } else {
            lemma_complete_order_acyclic(e@, out@, n as int);
        }
    }
    out
}

} // verus!
