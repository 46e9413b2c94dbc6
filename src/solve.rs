//! Identity search: the expressions that named rulesets reach from two seeds,
//! each step followed by the always-applied ruleset.

use vstd::prelude::*;
use petgraph::graphmap::GraphMap;
use petgraph::Directed;
use crate::expression::{Expression, ExprView, canonical};
use crate::rewrite::{Rule, RuleKind, apply_ruleset, ruleset_combiner, rule_views, saturate_spec, STEP_LIMIT};

verus! {

/// petgraph's GraphMap, held opaque: what the search needs of it is stated
/// by the wrappers below over `graph_nodes` and `graph_edges`.
#[verifier::external_type_specification]
#[verifier::external_body]
#[verifier::reject_recursive_types(N)]
#[verifier::reject_recursive_types(E)]
#[verifier::reject_recursive_types(Ty)]
#[verifier::reject_recursive_types(S)]
pub struct ExGraphMap<N, E, Ty, S: core::hash::BuildHasher>(GraphMap<N, E, Ty, S>);

/// petgraph's marker for directed graphs.
#[verifier::external_type_specification]
#[verifier::external_body]
pub struct ExDirected(Directed);

/// The graph of a search: nodes are indices of expressions, edges carry the
/// name of a ruleset.
pub type StepGraph = GraphMap<usize, String, Directed>;

/// The nodes of a graph.
pub uninterp spec fn graph_nodes(g: StepGraph) -> Set<usize>;

/// The edges of a graph, each with its weight.
pub uninterp spec fn graph_edges(g: StepGraph) -> Map<(usize, usize), Seq<char>>;

/// Relies on GraphMap::new: a graph without nodes or edges.
#[verifier::external_body]
fn graph_new() -> (r: StepGraph)
    ensures
        graph_nodes(r) =~= Set::empty(),
        graph_edges(r) =~= Map::empty(),
{
    GraphMap::new()
}

/// Relies on GraphMap::add_edge: both ends become nodes (if they were not),
/// and the edge from `a` to `b` gets the weight `w` (replacing an old one).
#[verifier::external_body]
fn graph_add_edge(g: &mut StepGraph, a: usize, b: usize, w: String)
    ensures
        graph_nodes(*final(g)) == graph_nodes(*old(g)).insert(a).insert(b),
        graph_edges(*final(g)) == graph_edges(*old(g)).insert((a, b), w@),
{
    g.add_edge(a, b, w);
}

/// Relies on GraphMap::contains_node: whether `n` is a node of the graph.
#[verifier::external_body]
fn graph_contains_node(g: &StepGraph, n: usize) -> (r: bool)
    ensures
        r == graph_nodes(*g).contains(n),
{
    g.contains_node(n)
}

/// The reachability graph of a search: distinct expressions, and steps
/// between them labelled with the name of the ruleset that made them.
pub struct IdentityGraph {
    pub nodes: Vec<Expression>,
    pub graph: StepGraph,
    /// The index of the always-applied ruleset.
    pub always: usize,
}

/// Expressions are distinct and well formed; graph nodes are their indices,
/// and each edge joins two different ones and carries the name of a ruleset
/// other than the always-applied one.
pub open spec fn graph_ok(nodes: Seq<Expression>, g: StepGraph) -> bool {
    &&& forall|i: int, j: int| 0 <= i < j < nodes.len() ==> #[trigger] nodes[i]@ != #[trigger] nodes[j]@
    &&& forall|i: int| 0 <= i < nodes.len() ==> canonical(#[trigger] nodes[i]@)
    &&& forall|n: usize| #[trigger] graph_nodes(g).contains(n) ==> n < nodes.len()
    &&& forall|e: (usize, usize)|
        #[trigger] graph_edges(g).contains_key(e) ==> e.0 < nodes.len() && e.1 < nodes.len() && e.0 != e.1
            && graph_edges(g)[e] != always_name()
}

/// The rules of one step with ruleset `j`: its own, then those of the
/// always-applied ruleset `si`.
pub open spec fn step_rules(rulesets: Seq<(String, Vec<Rule>)>, j: int, si: int) -> Seq<(ExprView, ExprView, RuleKind)> {
    rule_views(rulesets[j].1@) + rule_views(rulesets[si].1@)
}

/// Every edge is a step: its weight names a ruleset, and its target is the
/// saturation of its source under that ruleset joined with ruleset `si`.
pub open spec fn steps_ok(nodes: Seq<Expression>, g: StepGraph, rulesets: Seq<(String, Vec<Rule>)>, si: int) -> bool {
    forall|e: (usize, usize)|
        #[trigger] graph_edges(g).contains_key(e) ==> e.0 < nodes.len() && e.1 < nodes.len() && exists|j: int|
            0 <= j < rulesets.len() && rulesets[j].0@ == graph_edges(g)[e] && nodes[e.1 as int]@ == saturate_spec(
                nodes[e.0 as int]@,
                step_rules(rulesets, j, si),
                STEP_LIMIT as nat,
            ).0
}

/// The name of the ruleset that is applied after every step.
pub open spec fn always_name() -> Seq<char> {
    seq!['s', 'i', 'm', 'p', 'l', 'i', 'f', 'y']
}

fn always_apply() -> (r: String)
    ensures
        r@ == always_name(),
{
    proof {
        reveal_strlit("simplify");
    }
    String::from_str("simplify")
}

/// Index of a node equal to `e`, if any.
fn find_node(nodes: &Vec<Expression>, e: &Expression) -> (r: Option<usize>)
    ensures
        match r {
            Some(i) => i < nodes@.len() && nodes@[i as int]@ == e@,
            None => forall|i: int| 0 <= i < nodes@.len() ==> #[trigger] nodes@[i]@ != e@,
        },
{
    let mut i: usize = 0;
    while i < nodes.len()
        invariant
            i <= nodes@.len(),
            forall|j: int| 0 <= j < i ==> #[trigger] nodes@[j]@ != e@,
        decreases nodes@.len() - i,
    {
        if nodes[i].same(e) {
            return Some(i);
        }
        i = i + 1;
    }
    None
}

/// Explores what the named rulesets make of `left` and `right`: from each
/// expression met, every ruleset but the always-applied one (named
/// `simplify`), joined with it, is saturated; a changed result becomes an edge.
/// `None` when no ruleset is named `simplify`. The first nodes are the seeds.
pub fn auto_identity(left: Expression, right: Expression, rulesets: &Vec<(String, Vec<Rule>)>) -> (r: Option<
    IdentityGraph,
>)
    requires
        canonical(left@),
        canonical(right@),
    ensures
        r is None <==> forall|i: int| 0 <= i < rulesets@.len() ==> (#[trigger] rulesets@[i]).0@ != always_name(),
        r matches Some(g) ==> {
            &&& graph_ok(g.nodes@, g.graph)
            &&& g.nodes@.len() >= 1
            &&& g.nodes@[0]@ == left@
            &&& left@ != right@ ==> g.nodes@.len() >= 2 && g.nodes@[1]@ == right@
        },
        r matches Some(g) ==> g.always < rulesets@.len() && rulesets@[g.always as int].0@ == always_name() && steps_ok(
            g.nodes@,
            g.graph,
            rulesets@,
            g.always as int,
        ),
{
    let simplify_name = always_apply();
    let mut s: usize = 0;
    let mut found: Option<usize> = None;
    while s < rulesets.len()
        invariant
            s <= rulesets@.len(),
            simplify_name@ == always_name(),
            match found {
                Some(i) => i < rulesets@.len() && rulesets@[i as int].0@ == always_name(),
                None => forall|i: int| 0 <= i < s ==> (#[trigger] rulesets@[i]).0@ != always_name(),
            },
        decreases rulesets@.len() - s,
    {
        if found.is_none() && rulesets[s].0 == simplify_name {
            found = Some(s);
        }
        s = s + 1;
    }
    let si = match found {
        Some(i) => i,
        None => {
            return None;
        },
    };
    let always: &Vec<Rule> = &rulesets[si].1;
    let mut nodes: Vec<Expression> = Vec::new();
    let mut graph = graph_new();
    let mut unprocessed: Vec<usize> = Vec::new();
    nodes.push(left);
    if !nodes[0].same(&right) {
        nodes.push(right);
        unprocessed.push(0);
        unprocessed.push(1);
    } else {
        unprocessed.push(0);
    }
    let ghost lv = nodes@[0]@;
    let ghost rv = right@;
    let mut steps: u64 = 0;
    while steps < STEP_LIMIT && unprocessed.len() > 0
        invariant
            graph_ok(nodes@, graph),
            nodes@.len() >= 1,
            nodes@[0]@ == lv,
            lv != rv ==> nodes@.len() >= 2 && nodes@[1]@ == rv,
            forall|k: int| 0 <= k < unprocessed@.len() ==> #[trigger] unprocessed@[k] < nodes@.len(),
            simplify_name@ == always_name(),
            si < rulesets@.len(),
            always == &rulesets@[si as int].1,
            steps_ok(nodes@, graph, rulesets@, si as int),
        decreases STEP_LIMIT - steps,
    {
        let cur = unprocessed.pop().unwrap();
        let mut j: usize = 0;
        while j < rulesets.len()
            invariant
                graph_ok(nodes@, graph),
                nodes@.len() >= 1,
                nodes@[0]@ == lv,
                lv != rv ==> nodes@.len() >= 2 && nodes@[1]@ == rv,
                cur < nodes@.len(),
                forall|k: int| 0 <= k < unprocessed@.len() ==> #[trigger] unprocessed@[k] < nodes@.len(),
                simplify_name@ == always_name(),
                si < rulesets@.len(),
                always == &rulesets@[si as int].1,
                steps_ok(nodes@, graph, rulesets@, si as int),
            decreases rulesets@.len() - j,
        {
            if !(rulesets[j].0 == simplify_name) {
                let sources: Vec<&Vec<Rule>> = vec![&rulesets[j].1, always];
                let combined = ruleset_combiner(&sources);
                let next = apply_ruleset(nodes[cur].duplicate(), &combined);
                proof {
                    let srcs = sources@;
                    assert(srcs.subrange(0, 1).subrange(0, 0) =~= Seq::<&Vec<Rule>>::empty());
                    assert(srcs.subrange(0, 2) =~= srcs);
                    assert(srcs.len() == 2);
                    assert(srcs[0] == &rulesets@[j as int].1);
                    assert(srcs[1] == always);
                    assert(crate::rewrite::all_rules(Seq::<&Vec<Rule>>::empty()) == Seq::<(ExprView, ExprView, RuleKind)>::empty());
                    assert(srcs.subrange(0, 1)[0] == srcs[0]);
                    assert(crate::rewrite::all_rules(srcs.subrange(0, 1)) == crate::rewrite::all_rules(srcs.subrange(0, 1).subrange(0, 0)) + rule_views(srcs[0]@));
                    assert(crate::rewrite::all_rules(srcs.subrange(0, 1)) =~= rule_views(rulesets@[j as int].1@));
                    assert(srcs.subrange(0, 2).subrange(0, 1) =~= srcs.subrange(0, 1));
                    assert(rule_views(combined@) =~= step_rules(rulesets@, j as int, si as int));
                }
                let ghost nv = next@;
                let ghost cv = nodes@[cur as int]@;
                let ghost old_nodes = nodes@;
                if !next.same(&nodes[cur]) {
                    let target = match find_node(&nodes, &next) {
                        Some(t) => t,
                        None => {
                            let t = nodes.len();
                            let ghost before = nodes@;
                            nodes.push(next);
                            proof {
                                assert forall|a: int, b: int| 0 <= a < b < nodes@.len() implies #[trigger] nodes@[a]@
                                    != #[trigger] nodes@[b]@ by {
                                    if b < before.len() {
                                        assert(nodes@[a] == before[a] && nodes@[b] == before[b]);
                                    } else {
                                        assert(nodes@[a] == before[a]);
                                    }
                                }
                                assert forall|a: int| 0 <= a < nodes@.len() implies canonical(#[trigger] nodes@[a]@) by {
                                    if a < before.len() {
                                        assert(nodes@[a] == before[a]);
                                    }
                                }
                            }
                            t
                        },
                    };
                    if !graph_contains_node(&graph, target) {
                        unprocessed.push(target);
                    }
                    let ghost old_graph = graph;
                    proof {
                        assert(old_nodes.len() <= nodes@.len());
                    }
                    graph_add_edge(&mut graph, cur, target, rulesets[j].0.clone());
                    proof {
                        assert(cur != target);
                        assert forall|e: (usize, usize)| #[trigger] graph_edges(graph).contains_key(e) implies e.0
                            < nodes@.len() && e.1 < nodes@.len() && e.0 != e.1 && graph_edges(graph)[e]
                            != always_name() by {
                            if e != (cur, target) {
                                assert(graph_edges(old_graph).contains_key(e));
                            }
                        }
                        assert forall|e: (usize, usize)| #[trigger] graph_edges(graph).contains_key(e) implies e.0 < nodes@.len()
                            && e.1 < nodes@.len() && exists|jj: int|
                            0 <= jj < rulesets@.len() && rulesets@[jj].0@ == graph_edges(graph)[e] && nodes@[e.1 as int]@
                                == saturate_spec(nodes@[e.0 as int]@, step_rules(rulesets@, jj, si as int), STEP_LIMIT as nat).0 by {
                            if e != (cur, target) {
                                assert(graph_edges(old_graph).contains_key(e));
                                let jj = choose|jj: int|
                                    0 <= jj < rulesets@.len() && rulesets@[jj].0@ == graph_edges(old_graph)[e] && old_nodes[e.1 as int]@
                                        == saturate_spec(old_nodes[e.0 as int]@, step_rules(rulesets@, jj, si as int), STEP_LIMIT as nat).0;
                                assert(nodes@[e.1 as int] == old_nodes[e.1 as int]);
                                assert(nodes@[e.0 as int] == old_nodes[e.0 as int]);
                            } else {
                                assert(nodes@[target as int]@ == nv);
                                assert(nodes@[cur as int]@ == cv);
                                assert(rulesets@[j as int].0@ == graph_edges(graph)[e]);
                            }
                        }
                        assert forall|n: usize| #[trigger] graph_nodes(graph).contains(n) implies n < nodes@.len() by {
                            if n != cur && n != target {
                                assert(graph_nodes(old_graph).contains(n));
                            }
                        }
                    }
                }
            }
            j = j + 1;
        }
        steps = steps + 1;
    }
    assert(0 <= si < rulesets@.len() && rulesets@[si as int].0@ == always_name() && steps_ok(nodes@, graph, rulesets@, si as int));
    assert(graph_ok(nodes@, graph));
    assert(nodes@[0]@ == lv);
    let ghost gv = graph;
    let res = IdentityGraph { nodes, graph, always: si };
    assert(res.graph == gv);
    assert(steps_ok(res.nodes@, res.graph, rulesets@, si as int));
    Some(res)
}

/// `p` goes from `from` to `to` along edges of the graph and visits no node
/// twice.
#[verifier::opaque]
pub open spec fn simple_path(edges: Map<(usize, usize), Seq<char>>, p: Seq<usize>, from: usize, to: usize) -> bool {
    &&& p.len() >= 2
    &&& p[0] == from
    &&& p[p.len() - 1] == to
    &&& forall|i: int| 0 <= i < p.len() - 1 ==> edges.contains_key((#[trigger] p[i], p[i + 1]))
    &&& forall|i: int, j: int| 0 <= i < j < p.len() ==> #[trigger] p[i] != #[trigger] p[j]
}

/// Relies on petgraph::algo::all_simple_paths, with no bound on the number of
/// intermediate nodes: it yields every simple path from `from` to `to`, each
/// as its list of nodes.
#[verifier::external_body]
fn simple_paths(g: &StepGraph, from: usize, to: usize) -> (r: Vec<Vec<usize>>)
    requires
        graph_nodes(*g).contains(from),
    ensures
        forall|i: int| 0 <= i < r@.len() ==> simple_path(graph_edges(*g), (#[trigger] r@[i])@, from, to),
        forall|p: Seq<usize>|
            #[trigger] simple_path(graph_edges(*g), p, from, to) ==> exists|i: int| 0 <= i < r@.len() && r@[i]@ == p,
{
    petgraph::algo::all_simple_paths::<Vec<usize>, _, std::hash::RandomState>(g, from, to, 0, None).collect()
}

/// The shortest simple paths from `from` to `to`, at most `max` of them,
/// shortest first, and the number of simple paths in all. A path left out is
/// no shorter than the last one kept.
#[verifier::rlimit(60)]
pub fn shortest_paths(g: &StepGraph, from: usize, to: usize, max: usize) -> (r: (Vec<Vec<usize>>, usize))
    ensures
        r.0@.len() <= max,
        r.0@.len() <= r.1,
        forall|i: int| 0 <= i < r.0@.len() ==> simple_path(graph_edges(*g), (#[trigger] r.0@[i])@, from, to),
        forall|i: int, j: int| 0 <= i < j < r.0@.len() ==> (#[trigger] r.0@[i])@.len() <= (#[trigger] r.0@[j])@.len(),
        graph_nodes(*g).contains(from) ==> forall|p: Seq<usize>|
            #[trigger] simple_path(graph_edges(*g), p, from, to) && (r.0@.len() < max || (r.0@.len() > 0 && p.len()
                < r.0@[r.0@.len() - 1]@.len())) ==> exists|i: int| 0 <= i < r.0@.len() && r.0@[i]@ == p,
{
    let ghost edges = graph_edges(*g);
    if !graph_contains_node(g, from) {
        return (Vec::new(), 0);
    }
    let all = simple_paths(g, from, to);
    let total = all.len();
    let ghost av = all@;
    let mut rest = all;
    let mut sorted: Vec<Vec<usize>> = Vec::new();
    while rest.len() > 0
        invariant
            rest@ == av.subrange(0, rest@.len() as int),
            sorted@.len() + rest@.len() == av.len(),
            forall|a: int, b: int| 0 <= a < b < sorted@.len() ==> (#[trigger] sorted@[a])@.len() <= (#[trigger] sorted@[b])@.len(),
            forall|k: int| 0 <= k < sorted@.len() ==> simple_path(edges, (#[trigger] sorted@[k])@, from, to),
            forall|k: int| 0 <= k < av.len() ==> simple_path(edges, (#[trigger] av[k])@, from, to),
            forall|k: int| rest@.len() <= k < av.len() ==> exists|m: int| 0 <= m < sorted@.len() && (#[trigger] sorted@[m])@ == (#[trigger] av[k])@,
        decreases rest@.len(),
    {
        let ghost k0 = rest@.len() - 1;
        let p = rest.pop().unwrap();
        assert(p == av[k0]);
        assert(rest@ =~= av.subrange(0, rest@.len() as int));
        let n = p.len();
        let mut j: usize = 0;
        while j < sorted.len() && sorted[j].len() <= n
            invariant
                j <= sorted@.len(),
                forall|m: int| 0 <= m < j ==> (#[trigger] sorted@[m])@.len() <= n,
                n == p@.len(),
            decreases sorted@.len() - j,
        {
            j = j + 1;
        }
        let ghost old_sorted = sorted@;
        sorted.insert(j, p);
        proof {
            assert forall|a: int, b: int| 0 <= a < b < sorted@.len() implies (#[trigger] sorted@[a])@.len() <= (
            #[trigger] sorted@[b])@.len() by {
                if b < j {
                    assert(sorted@[a] == old_sorted[a] && sorted@[b] == old_sorted[b]);
                } else if b == j {
                    assert(sorted@[a] == old_sorted[a]);
                } else if a == j {
                    assert(sorted@[b] == old_sorted[b - 1]);
                    if j < old_sorted.len() {
                        assert(old_sorted[j as int]@.len() > n);
                        if b - 1 > j {
                            assert(old_sorted[j as int]@.len() <= old_sorted[b - 1]@.len());
                        }
                    }
                } else if a < j {
                    assert(sorted@[a] == old_sorted[a] && sorted@[b] == old_sorted[b - 1]);
                } else {
                    assert(sorted@[a] == old_sorted[a - 1] && sorted@[b] == old_sorted[b - 1]);
                }
            }
            assert forall|k: int| 0 <= k < sorted@.len() implies simple_path(edges, (#[trigger] sorted@[k])@, from, to) by {
                if k < j {
                    assert(sorted@[k] == old_sorted[k]);
                } else if k > j {
                    assert(sorted@[k] == old_sorted[k - 1]);
                }
            }
            assert forall|k: int| rest@.len() <= k < av.len() implies exists|m: int| 0 <= m < sorted@.len() && (#[trigger] sorted@[m])@
                == (#[trigger] av[k])@ by {
                if k == k0 {
                    assert(sorted@[j as int] == p);
                } else {
                    let m = choose|m: int| 0 <= m < old_sorted.len() && (#[trigger] old_sorted[m])@ == av[k]@;
                    if m < j {
                        assert(sorted@[m] == old_sorted[m]);
                    } else {
                        assert(sorted@[m + 1] == old_sorted[m]);
                    }
                }
            }
        }
    }
    let ghost full = sorted@;
    if sorted.len() > max {
        sorted.truncate(max);
    }
    assert(full.len() > max ==> sorted@ == full.subrange(0, max as int));
    assert(full.len() <= max ==> sorted@ == full);
    proof {
        assert forall|p: Seq<usize>| #[trigger] simple_path(edges, p, from, to) && (sorted@.len() < max || (sorted@.len()
            > 0 && p.len() < sorted@[sorted@.len() - 1]@.len())) implies exists|i: int| 0 <= i < sorted@.len() && sorted@[i]@ == p by {
            let k = choose|k: int| 0 <= k < av.len() && av[k]@ == p;
            let m = choose|m: int| 0 <= m < full.len() && (#[trigger] full[m])@ == av[k]@;
            if m >= sorted@.len() {
                assert(full.len() > max);
                assert(sorted@ == full.subrange(0, max as int));
                assert(sorted@[max - 1] == full[max - 1]);
                assert(full[max - 1]@.len() <= full[m]@.len());
            } else {
                assert(sorted@[m] == full[m]);
            }
        }
    }
    (sorted, total)
}

/// `name` occurs in `line` as consecutive characters.
pub open spec fn occurs_in(name: Seq<char>, line: Seq<char>) -> bool {
    exists|i: int| 0 <= i && i + name.len() <= line.len() && #[trigger] line.subrange(i, i + name.len()) == name
}

/// The rules of the rulesets whose names occur in `line`, in order.
pub open spec fn named_rules(rulesets: Seq<(String, Vec<Rule>)>, line: Seq<char>) -> Seq<(ExprView, ExprView, RuleKind)>
    decreases rulesets.len(),
{
    if rulesets.len() == 0 {
        Seq::empty()
    } else {
        let init = named_rules(rulesets.subrange(0, rulesets.len() - 1), line);
        let last = rulesets[rulesets.len() - 1];
        if occurs_in(last.0@, line) {
            init + rule_views(last.1@)
        } else {
            init
        }
    }
}

/// Some ruleset's name occurs in `line`.
pub open spec fn any_named(rulesets: Seq<(String, Vec<Rule>)>, line: Seq<char>) -> bool {
    exists|i: int| 0 <= i < rulesets.len() && occurs_in(#[trigger] rulesets[i].0@, line)
}

fn occurs(name: &str, line: &str) -> (r: bool)
    ensures
        r == occurs_in(name@, line@),
{
    let n = name.unicode_len();
    let m = line.unicode_len();
    if n > m {
        return false;
    }
    let mut i: usize = 0;
    while i <= m - n
        invariant
            n == name@.len(),
            m == line@.len(),
            n <= m,
            i <= m - n + 1,
            forall|k: int| 0 <= k < i ==> #[trigger] line@.subrange(k, k + n) != name@,
        decreases m - i,
    {
        let mut j: usize = 0;
        while j < n && line.get_char(i + j) == name.get_char(j)
            invariant
                j <= n,
                i + n <= m,
                n == name@.len(),
                m == line@.len(),
                forall|t: int| 0 <= t < j ==> line@[i + t] == name@[t],
            decreases n - j,
        {
            j = j + 1;
        }
        if j == n {
            assert(line@.subrange(i as int, i + n) =~= name@);
            return true;
        }
        assert(line@.subrange(i as int, i + n)[j as int] != name@[j as int]);
        i = i + 1;
    }
    assert forall|k: int| 0 <= k && k + n <= m implies #[trigger] line@.subrange(k, k + n) != name@ by {}
    false
}

/// One line of the interactive shell: when names of rulesets occur in the
/// line, `expr` saturated under their rules joined in order; otherwise the
/// line read as a new expression.
pub fn shell_step(expr: Expression, line: &str, rulesets: &Vec<(String, Vec<Rule>)>) -> (r: Result<
    Expression,
    crate::text::LispParseError,
>)
    requires
        canonical(expr@),
    ensures
        r is Ok ==> canonical(r->Ok_0@),
        any_named(rulesets@, line@) ==> r is Ok && r->Ok_0@ == saturate_spec(
            expr@,
            named_rules(rulesets@, line@),
            STEP_LIMIT as nat,
        ).0,
        !any_named(rulesets@, line@) ==> forall|e: ExprView| #[trigger] crate::text::read_tokens(e) == crate::text::lex(line@, false)
            ==> r is Ok && r->Ok_0@ == crate::text::canon(e),
        !any_named(rulesets@, line@) ==> (r == Err::<Expression, crate::text::LispParseError>(
            crate::text::LispParseError::EmptyString,
        ) <==> crate::text::lex(line@, false).len() == 0),
{
    let mut rules: Vec<Rule> = Vec::new();
    let mut any = false;
    let mut i: usize = 0;
    assert(rulesets@.subrange(0, 0) =~= Seq::<(String, Vec<Rule>)>::empty());
    while i < rulesets.len()
        invariant
            i <= rulesets@.len(),
            rule_views(rules@) == named_rules(rulesets@.subrange(0, i as int), line@),
            any == exists|k: int| 0 <= k < i && occurs_in(#[trigger] rulesets@[k].0@, line@),
        decreases rulesets@.len() - i,
    {
        proof {
            let sub = rulesets@.subrange(0, i + 1);
            assert(sub.subrange(0, sub.len() - 1) =~= rulesets@.subrange(0, i as int));
            assert(sub[sub.len() - 1] == rulesets@[i as int]);
        }
        if occurs(rulesets[i].0.as_str(), line) {
            let src: &Vec<Rule> = &rulesets[i].1;
            let ghost base = rule_views(rules@);
            let mut j: usize = 0;
            assert(rule_views(src@).subrange(0, 0) =~= Seq::<(ExprView, ExprView, RuleKind)>::empty());
            assert(base + rule_views(src@).subrange(0, 0) =~= base);
            while j < src.len()
                invariant
                    j <= src@.len(),
                    rule_views(rules@) == base + rule_views(src@).subrange(0, j as int),
                decreases src@.len() - j,
            {
                let ghost before = rules@;
                let d = src[j].duplicate();
                assert(crate::rewrite::rule_view(d) == crate::rewrite::rule_view(src@[j as int]));
                rules.push(d);
                assert(rule_views(rules@) =~= rule_views(before).push(crate::rewrite::rule_view(src@[j as int])));
                assert(rule_views(src@).subrange(0, j + 1) =~= rule_views(src@).subrange(0, j as int).push(
                    crate::rewrite::rule_view(src@[j as int]),
                ));
                j = j + 1;
            }
            assert(rule_views(src@).subrange(0, j as int) =~= rule_views(src@));
            any = true;
        }
        i = i + 1;
    }
    assert(rulesets@.subrange(0, i as int) =~= rulesets@);
    if any {
        Ok(apply_ruleset(expr, &rules))
    } else {
        crate::text::Lisp::parse(line)
    }
}

} // verus!
