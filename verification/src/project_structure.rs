//! Project structure: naming rules for modules, the dependency graph between
//! plugins (cycle detection and build order), and file size limits.
use vstd::prelude::*;
use crate::text::{chars_of, chars_eq, string_of};
use crate::graph::{
    id_edge, id_has_cycle, id_topological, id_walk, edges_below, kahn_order, lists, lemma_covers,
};

pub mod rules;

verus! {

/// There is an edge from `a` to `b`: `b` depends on `a`.
pub open spec fn has_edge(e: Seq<(Seq<char>, Seq<char>)>, a: Seq<char>, b: Seq<char>) -> bool {
    exists|k: int| 0 <= k < e.len() && e[k].0 == a && e[k].1 == b
}

/// `p` follows the edges, at least one of them.
pub open spec fn is_walk(e: Seq<(Seq<char>, Seq<char>)>, p: Seq<Seq<char>>) -> bool {
    &&& p.len() >= 2
    &&& forall|i: int| 0 <= i < p.len() - 1 ==> has_edge(e, #[trigger] p[i], p[i + 1])
}

/// Some module depends, directly or through others, on itself.
pub open spec fn has_cycle(e: Seq<(Seq<char>, Seq<char>)>) -> bool {
    exists|p: Seq<Seq<char>>| is_walk(e, p) && p[0] == p.last()
}

/// `x` is a module of the graph: it depends on something or something depends on it.
pub open spec fn is_module(e: Seq<(Seq<char>, Seq<char>)>, x: Seq<char>) -> bool {
    exists|k: int| 0 <= k < e.len() && (e[k].0 == x || e[k].1 == x)
}

/// `order` lists every module once, each after everything it depends on.
pub open spec fn is_build_order(e: Seq<(Seq<char>, Seq<char>)>, order: Seq<Seq<char>>) -> bool {
    &&& order.no_duplicates()
    &&& forall|x: Seq<char>| #[trigger] order.contains(x) <==> is_module(e, x)
    &&& forall|i: int, j: int|
        0 <= i < order.len() && 0 <= j < order.len() && has_edge(e, #[trigger] order[i], #[trigger] order[j])
            ==> i < j
}

/// The views of a sequence of strings.
pub open spec fn string_views(s: Seq<String>) -> Seq<Seq<char>> {
    s.map_values(|x: String| x@)
}

/// Plugin dependency graph: each entry is `(depends_on, module)`.
#[derive(Debug, Default)]
pub struct DependencyGraph {
    edges: Vec<(String, String)>,
}

impl View for DependencyGraph {
    type V = Seq<(Seq<char>, Seq<char>)>;

    closed spec fn view(&self) -> Seq<(Seq<char>, Seq<char>)> {
        self.edges@.map_values(|p: (String, String)| (p.0@, p.1@))
    }
}

/// The module names of a graph, numbered, and its edges between the numbers.
struct Interned {
    names: Vec<Vec<char>>,
    ids: Vec<(usize, usize)>,
}

/// `it` numbers the modules of `e` without repetition and carries its edges over.
spec fn interned_ok(it: Interned, e: Seq<(Seq<char>, Seq<char>)>) -> bool {
    let n = it.names.len();
    &&& forall|i: int, j: int|
        0 <= i < n && 0 <= j < n && i != j ==> (#[trigger] it.names@[i])@ != (
        #[trigger] it.names@[j])@
    &&& it.ids.len() == e.len()
    &&& edges_below(it.ids@, n as nat)
    &&& forall|k: int|
        0 <= k < e.len() ==> it.names@[(#[trigger] it.ids@[k]).0 as int]@ == e[k].0
            && it.names@[it.ids@[k].1 as int]@ == e[k].1
    &&& forall|i: int| 0 <= i < n ==> is_module(e, (#[trigger] it.names@[i])@)
}

fn find_name(names: &Vec<Vec<char>>, x: &Vec<char>) -> (r: Option<usize>)
    ensures
        match r {
            Some(i) => i < names.len() && names@[i as int]@ == x@,
            None => forall|i: int| 0 <= i < names.len() ==> (#[trigger] names@[i])@ != x@,
        },
{
    let mut i: usize = 0;
    while i < names.len()
        invariant
            i <= names.len(),
            forall|j: int| 0 <= j < i ==> (#[trigger] names@[j])@ != x@,
        decreases names.len() - i,
    {
        if chars_eq(&names[i], x) {
            return Some(i);
        }
        i += 1;
    }
    None
}

impl DependencyGraph {
    pub fn new() -> (g: Self)
        ensures
            g@ == Seq::<(Seq<char>, Seq<char>)>::empty(),
    {
        let g = Self { edges: Vec::new() };
        assert(g@ =~= Seq::<(Seq<char>, Seq<char>)>::empty());
        g
    }

    /// Records that `module` depends on `depends_on`.
    pub fn add_dependency(&mut self, module: &str, depends_on: &str)
        ensures
            final(self)@ == old(self)@.push((depends_on@, module@)),
    {
        let a = string_of(&chars_of(depends_on));
        let b = string_of(&chars_of(module));
        self.edges.push((a, b));
        assert(self@ =~= old(self)@.push((depends_on@, module@)));
    }

    fn intern(&self) -> (it: Interned)
        ensures
            interned_ok(it, self@),
    {
        let mut names: Vec<Vec<char>> = Vec::new();
        let mut ids: Vec<(usize, usize)> = Vec::new();
        let mut k: usize = 0;
        while k < self.edges.len()
            invariant
                k <= self.edges.len(),
                ids.len() == k,
                interned_ok(Interned { names, ids }, self@.take(k as int)),
            decreases self.edges.len() - k,
        {
            let ghost e = self@;
            let ghost old_names = names@;
            let a = chars_of(self.edges[k].0.as_str());
            let b = chars_of(self.edges[k].1.as_str());
            assert(a@ == e[k as int].0 && b@ == e[k as int].1);
            let ia = match find_name(&names, &a) {
                Some(i) => i,
                None => {
                    names.push(a);
                    names.len() - 1
                },
            };
            let ghost mid_names = names@;
            let ib = match find_name(&names, &b) {
                Some(i) => i,
                None => {
                    names.push(b);
                    names.len() - 1
                },
            };
            let ghost old_ids = ids@;
            ids.push((ia, ib));
            proof {
                let t = e.take(k + 1);
                assert(e.take(k as int) =~= t.drop_last());
                assert forall|i: int| 0 <= i < old_names.len() implies names@[i] == old_names[i] by {
                    assert(mid_names[i] == old_names[i]);
                }
                assert forall|i: int, j: int|
                    0 <= i < names.len() && 0 <= j < names.len() && i != j implies (
                    #[trigger] names@[i])@ != (#[trigger] names@[j])@ by {
                    if i < old_names.len() && j < old_names.len() {
                        assert(names@[i] == old_names[i] && names@[j] == old_names[j]);
                    } else if i < mid_names.len() && j < mid_names.len() {
                        assert(names@[i] == mid_names[i] && names@[j] == mid_names[j]);
                    }
                }
                assert forall|kk: int| 0 <= kk < t.len() implies names@[(
                #[trigger] ids@[kk]).0 as int]@ == t[kk].0 && names@[ids@[kk].1 as int]@
                    == t[kk].1 by {
                    if kk < k {
                        assert(t[kk] == e.take(k as int)[kk]);
                        assert(ids@[kk] == old_ids[kk]);
                    }
                }
                assert forall|i: int| 0 <= i < names.len() implies is_module(
                    t,
                    (#[trigger] names@[i])@,
                ) by {
                    if i < old_names.len() {
                        let kk = choose|kk: int|
                            0 <= kk < t.len() - 1 && (t.drop_last()[kk].0 == old_names[i]@
                                || t.drop_last()[kk].1 == old_names[i]@);
                        assert(t[kk] == t.drop_last()[kk]);
                    } else {
                        assert(t[k as int].0 == a@ && t[k as int].1 == b@);
                    }
                }
            }
            k += 1;
        }
        assert(self@.take(self.edges.len() as int) =~= self@);
        Interned { names, ids }
    }

    /// Whether some module depends, directly or through others, on itself.
    pub fn has_cycle(&self) -> (r: bool)
        ensures
            r == has_cycle(self@),
    {
        let it = self.intern();
        let n = it.names.len();
        let out = kahn_order(n, &it.ids, &it.names);
        proof {
            lemma_cycle_lift(self@, it);
        }
        out.len() != n
    }

    /// The modules in an order where each comes after everything it depends
    /// on, or an error when some module depends on itself.
    pub fn build_order(&self) -> (r: Result<Vec<String>, String>)
        ensures
            match r {
                Ok(order) => !has_cycle(self@) && is_build_order(self@, string_views(order@)),
                Err(msg) => has_cycle(self@) && msg@ == "Cannot build order: cycle detected"@,
            },
    {
        if self.has_cycle() {
            return Err(string_of(&chars_of("Cannot build order: cycle detected")));
        }
        let it = self.intern();
        let n = it.names.len();
        let out = kahn_order(n, &it.ids, &it.names);
        proof {
            lemma_cycle_lift(self@, it);
        }
        if out.len() != n {
            return Err(string_of(&chars_of("Cycle detected during build order")));
        }
        let mut result: Vec<String> = Vec::new();
        let mut i: usize = 0;
        while i < out.len()
            invariant
                i <= out.len(),
                out.len() == n,
                n == it.names.len(),
                forall|j: int| 0 <= j < out.len() ==> #[trigger] out@[j] < n,
                result.len() == i,
                forall|j: int| 0 <= j < i ==> (#[trigger] result@[j])@ == it.names@[out@[j] as int]@,
            decreases out.len() - i,
        {
            result.push(string_of(&it.names[out[i]]));
            i += 1;
        }
        proof {
            lemma_order_lift(self@, it, out@, result@);
        }
        Ok(result)
    }
}

/// The graph has a cycle exactly when its numbered version has one.
proof fn lemma_cycle_lift(e: Seq<(Seq<char>, Seq<char>)>, it: Interned)
    requires
        interned_ok(it, e),
    ensures
        has_cycle(e) == id_has_cycle(it.ids@),
{
    let n = it.names.len();
    let ie = it.ids@;
    if has_cycle(e) {
        let p = choose|p: Seq<Seq<char>>| is_walk(e, p) && p[0] == p.last();
        // every node of the walk is a numbered module
        let idx = |x: Seq<char>| choose|i: int| 0 <= i < n && it.names@[i]@ == x;
        assert forall|t: int| 0 <= t < p.len() implies 0 <= #[trigger] idx(p[t]) < n
            && it.names@[idx(p[t])]@ == p[t] by {
            let kk = if t < p.len() - 1 {
                assert(has_edge(e, p[t], p[t + 1]));
                choose|kk: int| 0 <= kk < e.len() && e[kk].0 == p[t] && e[kk].1 == p[t + 1]
            } else {
                assert(has_edge(e, p[t - 1], p[t]));
                choose|kk: int| 0 <= kk < e.len() && e[kk].0 == p[t - 1] && e[kk].1 == p[t]
            };
            assert(ie[kk].0 < n && ie[kk].1 < n);
            if t < p.len() - 1 {
                assert(it.names@[ie[kk].0 as int]@ == p[t]);
            } else {
                assert(it.names@[ie[kk].1 as int]@ == p[t]);
            }
        }
        let q = Seq::new(p.len(), |t: int| idx(p[t]));
        assert forall|t: int| 0 <= t < q.len() - 1 implies id_edge(ie, #[trigger] q[t], q[t + 1]) by {
            assert(has_edge(e, p[t], p[t + 1]));
            let kk = choose|kk: int| 0 <= kk < e.len() && e[kk].0 == p[t] && e[kk].1 == p[t + 1];
            assert(ie[kk].0 < n && ie[kk].1 < n);
            assert(it.names@[ie[kk].0 as int]@ == p[t]);
            assert(it.names@[ie[kk].1 as int]@ == p[t + 1]);
            assert(idx(p[t]) == ie[kk].0 as int);
            assert(idx(p[t + 1]) == ie[kk].1 as int);
        }
        assert(id_walk(ie, q));
        assert(q[0] == q.last());
    }
    if id_has_cycle(ie) {
        let q = choose|q: Seq<int>| id_walk(ie, q) && q[0] == q.last();
        assert forall|t: int| 0 <= t < q.len() implies 0 <= #[trigger] q[t] < n by {
            if t < q.len() - 1 {
                assert(id_edge(ie, q[t], q[t + 1]));
                let kk = choose|kk: int| 0 <= kk < ie.len() && ie[kk].0 == q[t] && ie[kk].1 == q[t + 1];
                assert(ie[kk].0 < n);
            } else {
                assert(id_edge(ie, q[t - 1], q[t]));
                let kk = choose|kk: int| 0 <= kk < ie.len() && ie[kk].0 == q[t - 1] && ie[kk].1 == q[t];
                assert(ie[kk].1 < n);
            }
        }
        let p = Seq::new(q.len(), |t: int| it.names@[q[t]]@);
        assert forall|t: int| 0 <= t < p.len() - 1 implies has_edge(e, #[trigger] p[t], p[t + 1]) by {
            assert(id_edge(ie, q[t], q[t + 1]));
            let kk = choose|kk: int| 0 <= kk < ie.len() && ie[kk].0 == q[t] && ie[kk].1 == q[t + 1];
            assert(it.names@[ie[kk].0 as int]@ == e[kk].0);
        }
        assert(is_walk(e, p));
        assert(p[0] == p.last());
    }
}

/// The names of a complete topological order of the numbered graph form a
/// build order of the graph.
proof fn lemma_order_lift(
    e: Seq<(Seq<char>, Seq<char>)>,
    it: Interned,
    out: Seq<usize>,
    result: Seq<String>,
)
    requires
        interned_ok(it, e),
        id_topological(it.ids@, out),
        out.len() == it.names.len(),
        forall|j: int| 0 <= j < out.len() ==> #[trigger] out[j] < it.names.len(),
        result.len() == out.len(),
        forall|j: int| 0 <= j < out.len() ==> (#[trigger] result[j])@ == it.names@[out[j] as int]@,
    ensures
        is_build_order(e, string_views(result)),
{
    let n = it.names.len() as int;
    let ie = it.ids@;
    let order = string_views(result);
    assert forall|j: int| 0 <= j < order.len() implies #[trigger] order[j] == it.names@[
        out[j] as int]@ by {}
    assert forall|i: int, j: int|
        0 <= i < order.len() && 0 <= j < order.len() && i != j implies order[i] != order[j] by {
        assert(order[i] == it.names@[out[i] as int]@);
        assert(order[j] == it.names@[out[j] as int]@);
        assert(out[i] != out[j]);
    }
    assert forall|x: Seq<char>| #[trigger] order.contains(x) <==> is_module(e, x) by {
        if order.contains(x) {
            let j = choose|j: int| 0 <= j < order.len() && order[j] == x;
            assert(order[j] == it.names@[out[j] as int]@);
        }
        if is_module(e, x) {
            let kk = choose|kk: int| 0 <= kk < e.len() && (e[kk].0 == x || e[kk].1 == x);
            let id = if e[kk].0 == x { ie[kk].0 } else { ie[kk].1 };
            assert(ie[kk].0 < n && ie[kk].1 < n);
            assert(it.names@[id as int]@ == x);
            lemma_covers(out, n, id as int);
            let j = choose|j: int| 0 <= j < out.len() && out[j] as int == id as int;
            assert(order[j] == x);
        }
    }
    assert forall|i: int, j: int|
        0 <= i < order.len() && 0 <= j < order.len() && has_edge(
            e,
            #[trigger] order[i],
            #[trigger] order[j],
        ) implies i < j by {
        let kk = choose|kk: int| 0 <= kk < e.len() && e[kk].0 == order[i] && e[kk].1 == order[j];
        assert(ie[kk].0 < n && ie[kk].1 < n);
        assert(order[i] == it.names@[out[i] as int]@);
        assert(order[j] == it.names@[out[j] as int]@);
        assert(it.names@[ie[kk].0 as int]@ == order[i]);
        assert(ie[kk].0 == out[i]);
        assert(ie[kk].1 == out[j]);
        assert(id_edge(ie, out[i] as int, out[j] as int));
    }
}

/// A graph that has a build order has no cycle.
pub proof fn lemma_build_order_acyclic(e: Seq<(Seq<char>, Seq<char>)>, order: Seq<Seq<char>>)
    requires
        is_build_order(e, order),
    ensures
        !has_cycle(e),
{
    if has_cycle(e) {
        let p = choose|p: Seq<Seq<char>>| is_walk(e, p) && p[0] == p.last();
        let pos = |x: Seq<char>| choose|i: int| 0 <= i < order.len() && order[i] == x;
        assert forall|t: int| 0 <= t < p.len() implies 0 <= #[trigger] pos(p[t]) < order.len()
            && order[pos(p[t])] == p[t] by {
            if t < p.len() - 1 {
                assert(has_edge(e, p[t], p[t + 1]));
                let kk = choose|kk: int| 0 <= kk < e.len() && e[kk].0 == p[t] && e[kk].1 == p[t + 1];
                assert(is_module(e, p[t]));
            } else {
                assert(has_edge(e, p[t - 1], p[t]));
                let kk = choose|kk: int| 0 <= kk < e.len() && e[kk].0 == p[t - 1] && e[kk].1 == p[t];
                assert(is_module(e, p[t]));
            }
            assert(order.contains(p[t]));
        }
        assert forall|t: int| 0 <= t < p.len() - 1 implies #[trigger] pos(p[t]) < pos(p[t + 1]) by {
            assert(has_edge(e, p[t], p[t + 1]));
            assert(order[pos(p[t])] == p[t]);
            assert(order[pos(p[t + 1])] == p[t + 1]);
        }
        lemma_positions_increase(p, pos, (p.len() - 1) as int);
    }
}

proof fn lemma_positions_increase(p: Seq<Seq<char>>, pos: spec_fn(Seq<char>) -> int, m: int)
    requires
        1 <= m < p.len(),
        forall|t: int| 0 <= t < p.len() - 1 ==> #[trigger] pos(p[t]) < pos(p[t + 1]),
    ensures
        pos(p[0]) < pos(p[m]),
    decreases m,
{
    if m > 1 {
        lemma_positions_increase(p, pos, m - 1);
        assert(pos(p[m - 1]) < pos(p[m]));
    }
}

/// Recommended and hard limits on the length of a source file, in lines.
pub struct FileSizeRules;

/// How a file's length compares with the limits.
#[derive(Debug, PartialEq, Eq, Structural)]
pub enum FileSizeStatus {
    Good,
    Warning,
    TooLarge,
}

impl FileSizeRules {
    pub const RECOMMENDED_MAX: usize = 300;

    pub const HARD_MAX: usize = 500;

    /// Good up to the recommended limit, a warning up to the hard limit,
    /// too large beyond it.
    pub fn check(lines: usize) -> (s: FileSizeStatus)
        ensures
            s == (if lines <= 300 {
                FileSizeStatus::Good
            } else if lines <= 500 {
                FileSizeStatus::Warning
            } else {
                FileSizeStatus::TooLarge
            }),
    {
        if lines <= Self::RECOMMENDED_MAX {
            FileSizeStatus::Good
        } else if lines <= Self::HARD_MAX {
            FileSizeStatus::Warning
        } else {
            FileSizeStatus::TooLarge
        }
    }
}

} // verus!
