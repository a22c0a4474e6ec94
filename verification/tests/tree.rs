use satysfi_documents::cst::{Cst, CstText, Span};
use satysfi_documents::parse::{decode, FlatNode};
use satysfi_documents::rule::Rule;

fn leaf(rule: Rule, start: usize, end: usize) -> Cst {
    Cst::new(rule, (start, end), vec![])
}

/// preamble 0..20 [ let_stmt 0..9 [ pattern 4..5 [ var 4..5 ], expr 8..9 ],
///                  let_stmt 10..20 [ pattern 14..15 [ var 14..15 ], expr 18..20 ] ]
fn sample() -> Cst {
    let s1 = Cst::new(
        Rule::let_stmt,
        (0, 9),
        vec![Cst::new(Rule::pattern, (4, 5), vec![leaf(Rule::var, 4, 5)]), leaf(Rule::expr, 8, 9)],
    );
    let s2 = Cst::new(
        Rule::let_stmt,
        (10, 20),
        vec![
            Cst::new(Rule::pattern, (14, 15), vec![leaf(Rule::var, 14, 15)]),
            leaf(Rule::expr, 18, 20),
        ],
    );
    Cst::new(Rule::preamble, (0, 20), vec![s1, s2])
}

#[test]
fn span_includes_and_contains() {
    let s = Span { start: 2, end: 5 };
    assert!(!s.includes(1));
    assert!(s.includes(2));
    assert!(s.includes(4));
    assert!(!s.includes(5));
    assert!(s.contains(&Span { start: 2, end: 5 }));
    assert!(s.contains(&Span { start: 3, end: 4 }));
    assert!(!s.contains(&Span { start: 1, end: 4 }));
    assert!(!s.contains(&Span { start: 3, end: 6 }));
}

#[test]
fn pickup_in_pre_order_below_the_node() {
    let t = sample();
    let vars = t.pickup(Rule::var);
    assert_eq!(vars.len(), 2);
    assert_eq!(vars[0].span, Span { start: 4, end: 5 });
    assert_eq!(vars[1].span, Span { start: 14, end: 15 });
    // the node itself is not picked up
    assert!(t.pickup(Rule::preamble).is_empty());
    let stmts = t.pickup(Rule::let_stmt);
    assert_eq!(stmts.len(), 2);
    assert_eq!(stmts[0].span.start, 0);
}

#[test]
fn choose_child_takes_the_first_holding_child() {
    let t = sample();
    assert_eq!(t.choose_child(12).map(|c| c.span), Some(Span { start: 10, end: 20 }));
    assert!(t.choose_child(9).is_none());
}

#[test]
fn dig_lists_deepest_first_with_chosen_children_twice() {
    let t = sample();
    let d = t.dig(4);
    let rules: Vec<Rule> = d.iter().map(|c| c.rule).collect();
    assert_eq!(
        rules,
        vec![
            Rule::var,
            Rule::var,
            Rule::pattern,
            Rule::pattern,
            Rule::let_stmt,
            Rule::let_stmt,
            Rule::preamble
        ]
    );
    // a position outside the tree
    assert!(t.dig(25).is_empty());
}

#[test]
fn get_parent_finds_the_enclosing_node() {
    let t = sample();
    let var = t.pickup(Rule::var)[1];
    let parent = t.get_parent(var).expect("the var has a parent");
    assert_eq!(parent.rule, Rule::let_stmt);
    assert_eq!(parent.span, Span { start: 10, end: 20 });
    let stmt = t.pickup(Rule::let_stmt)[0];
    assert_eq!(t.get_parent(stmt).map(|p| p.rule), Some(Rule::preamble));
    // the root itself has none
    let root = sample();
    assert!(t.get_parent(&root).is_none());
}

#[test]
fn csttext_new_checks_spans() {
    let text = "let x = 1 let y = 22".to_string();
    assert!(CstText::new(text.clone(), sample()).is_some());
    // a span beyond the end of the text
    let long = Cst::new(Rule::preamble, (0, 30), vec![]);
    assert!(CstText::new(text.clone(), long).is_none());
    // a span whose start comes after its end
    let reversed = Cst::new(Rule::preamble, (5, 3), vec![]);
    assert!(CstText::new(text.clone(), reversed).is_none());
    // a `let` statement without the pattern the extraction reads
    let bare = Cst::new(Rule::let_stmt, (0, 9), vec![]);
    assert!(CstText::new(text, bare).is_none());
}

#[test]
fn csttext_new_checks_nesting() {
    let text = "let x = 1 let y = 22".to_string();
    // a child whose span reaches beyond its parent's
    let outside = Cst::new(Rule::preamble, (0, 9), vec![leaf(Rule::var, 4, 12)]);
    assert!(CstText::new(text.clone(), outside).is_none());
    // a `let` statement whose pattern is empty
    let empty = Cst::new(
        Rule::preamble,
        (0, 9),
        vec![Cst::new(Rule::let_stmt, (0, 9), vec![leaf(Rule::pattern, 4, 4)])],
    );
    assert!(CstText::new(text.clone(), empty).is_none());
    let nested = Cst::new(
        Rule::preamble,
        (0, 9),
        vec![Cst::new(Rule::let_stmt, (0, 9), vec![leaf(Rule::pattern, 4, 5)])],
    );
    assert!(CstText::new(text, nested).is_some());
}

#[test]
fn csttext_new_checks_character_boundaries() {
    // "é" takes two bytes
    let text = "é".to_string();
    assert!(CstText::new(text.clone(), Cst::new(Rule::misc, (0, 2), vec![])).is_some());
    assert!(CstText::new(text.clone(), Cst::new(Rule::misc, (0, 1), vec![])).is_none());
    assert!(CstText::new(text, Cst::new(Rule::misc, (1, 2), vec![])).is_none());
}

#[test]
fn get_text_cuts_by_bytes() {
    let text = "aé b".to_string();
    let t = Cst::new(Rule::misc, (0, 5), vec![leaf(Rule::var, 1, 3), leaf(Rule::var, 4, 5)]);
    let ct = CstText::new(text, t).expect("spans fit");
    let vars = ct.cst().pickup(Rule::var);
    assert_eq!(ct.get_text(vars[0]), "é");
    assert_eq!(ct.get_text(vars[1]), "b");
}

#[test]
fn rule_indices() {
    assert_eq!(Rule::from_index(0), Some(Rule::misc));
    assert_eq!(Rule::from_index(9), Some(Rule::let_stmt));
    assert_eq!(Rule::from_index(123), Some(Rule::dummy_modvar_incomplete));
    assert_eq!(Rule::from_index(Rule::COUNT), None);
    assert_eq!(Rule::COUNT, 124);
}

fn node(rule: u16, start: usize, end: usize, children: usize) -> FlatNode {
    FlatNode { rule, start, end, children }
}

#[test]
fn decode_rebuilds_the_listed_tree() {
    // preamble(3) [ let_stmt(9) [ var(77) ], expr(49) ]
    let nodes = vec![node(3, 0, 10, 2), node(9, 0, 5, 1), node(77, 4, 5, 0), node(49, 6, 10, 0)];
    let t = decode(&nodes).expect("a tree is listed");
    assert_eq!(t.rule, Rule::preamble);
    assert_eq!(t.inner.len(), 2);
    assert_eq!(t.inner[0].rule, Rule::let_stmt);
    assert_eq!(t.inner[0].inner[0].rule, Rule::var);
    assert_eq!(t.inner[0].inner[0].span, Span { start: 4, end: 5 });
    assert_eq!(t.inner[1].rule, Rule::expr);
}

#[test]
fn decode_rejects_what_lists_no_tree() {
    // too few nodes for the announced children
    assert!(decode(&vec![node(3, 0, 10, 2), node(9, 0, 5, 0)]).is_none());
    // nodes left over after the tree
    assert!(decode(&vec![node(9, 0, 5, 0), node(9, 0, 5, 0)]).is_none());
    // a rule the grammar does not have
    assert!(decode(&vec![node(500, 0, 5, 0)]).is_none());
    // nothing at all
    assert!(decode(&vec![]).is_none());
}
