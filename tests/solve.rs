use reducer::rewrite::Rule;
use petgraph::graphmap::GraphMap;
use petgraph::Directed;
use reducer::solve::{auto_identity, shell_step, shortest_paths};
use reducer::text::Lisp;

fn rules(text: &str) -> Vec<Rule> {
    Lisp::parse_ruleset(text).unwrap()
}

#[test]
fn identity_search_finds_a_step() {
    let rulesets = vec![
        ("expand".to_string(), rules("(=> (/ (/ a)) a)")),
        ("simplify".to_string(), rules("(=> (- (- a)) a)")),
    ];
    let left = Lisp::parse("(+ (/ (/ x)) 1)").unwrap();
    let right = Lisp::parse("(+ x 1)").unwrap();

    let search = auto_identity(left.clone(), right.clone(), &rulesets).unwrap();

    assert_eq!(search.nodes[0], left);
    assert_eq!(search.nodes[1], right);
    assert_eq!(search.nodes.len(), 2);
    assert!(search.graph.contains_edge(0, 1));
    assert!(search.graph.contains_node(0));
    assert_eq!(search.graph.edge_weight(0, 1), Some(&"expand".to_string()));
    assert_eq!(search.graph.edge_count(), 1);
}

#[test]
fn identity_search_needs_simplify() {
    let rulesets = vec![("expand".to_string(), rules("(=> (- (- a)) a)"))];
    let e = Lisp::parse("(- (- q))").unwrap();
    assert!(auto_identity(e.clone(), e, &rulesets).is_none());
}

#[test]
fn identity_search_applies_simplify_after_each_step() {
    let rulesets = vec![
        ("neg".to_string(), rules("(=> (/ a) (- a))")),
        ("simplify".to_string(), rules("(=> (- (- a)) a)")),
    ];
    let left = Lisp::parse("(- (/ q))").unwrap();
    let right = Lisp::parse("q").unwrap();
    let search = auto_identity(left, right, &rulesets).unwrap();
    assert_eq!(search.nodes.len(), 2);
    assert_eq!(search.graph.edge_weight(0, 1), Some(&"neg".to_string()));
}

#[test]
fn shortest_paths_are_sorted_and_bounded() {
    let mut g: GraphMap<usize, String, Directed> = GraphMap::new();
    g.add_edge(0, 1, "a".to_string());
    g.add_edge(1, 2, "b".to_string());
    g.add_edge(0, 2, "c".to_string());
    g.add_edge(2, 3, "d".to_string());
    let (paths, total) = shortest_paths(&g, 0, 3, 5);
    assert_eq!(total, 2);
    assert_eq!(paths, vec![vec![0, 2, 3], vec![0, 1, 2, 3]]);
    let (one, total) = shortest_paths(&g, 0, 3, 1);
    assert_eq!(total, 2);
    assert_eq!(one, vec![vec![0, 2, 3]]);
    let (none, total) = shortest_paths(&g, 3, 0, 5);
    assert_eq!((none.len(), total), (0, 0));
}

#[test]
fn shell_step_saturates_or_parses() {
    let rulesets = vec![
        ("neg".to_string(), rules("(=> (- (- a)) a)")),
        ("rec".to_string(), rules("(=> (/ (/ a)) a)")),
    ];
    let e = Lisp::parse("(- (- (/ (/ q))))").unwrap();
    assert_eq!(
        shell_step(e.clone(), "neg", &rulesets),
        Ok(Lisp::parse("(/ (/ q))").unwrap())
    );
    assert_eq!(
        shell_step(e.clone(), "neg rec", &rulesets),
        Ok(Lisp::parse("q").unwrap())
    );
    assert_eq!(
        shell_step(e.clone(), "(+ 1 2)", &rulesets),
        Ok(Lisp::parse("(+ 2 1)").unwrap())
    );
    assert!(shell_step(e, "(- 1 2)", &rulesets).is_err());
}
