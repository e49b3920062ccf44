use bongo::grammar::nullables::calculate_nullables;
use bongo::grammar::nullables::NullableError;
use bongo::grammar::BaseElementTypes;
use bongo::grammar::Element;
use bongo::grammar::Grammar;
use bongo::grammar::NonTerminal;
use bongo::grammar::Production;
use bongo::grammar::ProductionElement;
use bongo::grammar::Rule;
use bongo::grammar::Terminal;
use bongo::utils::Name;
use bongo::utils::Identified;
use bongo::NullableGrammar;

type Elem = ProductionElement<BaseElementTypes>;

fn term(name: &str) -> Elem {
    ProductionElement::new_empty(Element::Term(Terminal::new(name)))
}

fn nonterm(name: &str) -> Elem {
    ProductionElement::new_empty(Element::NonTerm(NonTerminal::new(name)))
}

fn named_nonterm(binding: &str, name: &str) -> Elem {
    ProductionElement::new_with_name(Name::new(binding), Element::NonTerm(NonTerminal::new(name)))
}

fn prod(action: &str, elements: Vec<Elem>) -> Production<BaseElementTypes> {
    Production::new(Name::new(action), elements)
}

fn rule(head: &str, prods: Vec<Production<BaseElementTypes>>) -> Rule<BaseElementTypes> {
    Rule::new(NonTerminal::new(head), prods)
}

fn actions(keys: &[&str]) -> Vec<(Name, ())> {
    keys.iter().map(|key| (Name::new(key), ())).collect()
}

fn contains(set: &[NonTerminal], name: &str) -> bool {
    set.iter().any(|nt| nt.matches(&NonTerminal::new(name)))
}

/// x -> A x A | A
fn make_simple() -> Grammar<BaseElementTypes> {
    Grammar::new(
        NonTerminal::new("x"),
        vec![rule(
            "x",
            vec![
                prod("Recursive", vec![term("A"), nonterm("x"), term("A")]),
                prod("Base", vec![term("A")]),
            ],
        )],
        actions(&["Recursive", "Base"]),
    )
    .unwrap()
}

/// start -> a; a -> b; b -> c; c -> (nothing)
fn make_simple_nullable() -> Grammar<BaseElementTypes> {
    Grammar::new(
        NonTerminal::new("start"),
        vec![
            rule("start", vec![prod("start", vec![named_nonterm("a", "a")])]),
            rule("a", vec![prod("a_prod", vec![named_nonterm("b", "b")])]),
            rule("b", vec![prod("b_prod", vec![named_nonterm("c", "c")])]),
            rule("c", vec![prod("c_prod", vec![])]),
        ],
        actions(&["start", "a_prod", "b_prod", "c_prod"]),
    )
    .unwrap()
}

/// start -> expr; expr_list -> (nothing) | expr expr_list; expr -> ( expr_list )
fn make_paren() -> Grammar<BaseElementTypes> {
    Grammar::new(
        NonTerminal::new("start"),
        vec![
            rule("start", vec![prod("start", vec![named_nonterm("expr", "expr")])]),
            rule(
                "expr_list",
                vec![
                    prod("list_empty", vec![]),
                    prod(
                        "list_cons",
                        vec![named_nonterm("head", "expr"), named_nonterm("tail", "expr_list")],
                    ),
                ],
            ),
            rule(
                "expr",
                vec![prod(
                    "parens",
                    vec![term("("), named_nonterm("inner", "expr_list"), term(")")],
                )],
            ),
        ],
        actions(&["start", "list_empty", "list_cons", "parens"]),
    )
    .unwrap()
}

/// start -> a | b; a -> (nothing); b -> (nothing)
fn make_ambiguous_nullable() -> Grammar<BaseElementTypes> {
    Grammar::new(
        NonTerminal::new("start"),
        vec![
            rule(
                "start",
                vec![
                    prod("via_a", vec![named_nonterm("a", "a")]),
                    prod("via_b", vec![named_nonterm("b", "b")]),
                ],
            ),
            rule("a", vec![prod("a_empty", vec![])]),
            rule("b", vec![prod("b_empty", vec![])]),
        ],
        actions(&["via_a", "via_b", "a_empty", "b_empty"]),
    )
    .unwrap()
}

/// x -> A x A | (nothing)
fn make_recursive_or_empty() -> Grammar<BaseElementTypes> {
    Grammar::new(
        NonTerminal::new("x"),
        vec![rule(
            "x",
            vec![
                prod("Recursive", vec![term("A"), nonterm("x"), term("A")]),
                prod("Empty", vec![]),
            ],
        )],
        actions(&["Recursive", "Empty"]),
    )
    .unwrap()
}

#[test]
fn test_simple_grammar() {
    let g = make_simple();
    let nullables = calculate_nullables(&g).unwrap();
    assert!(nullables.get_nullable_set().is_empty());
}

#[test]
fn test_simple_nullable_grammar() {
    let g = make_simple_nullable();
    let nullables = calculate_nullables(&g).unwrap();
    let nullable_set = nullables.get_nullable_set();
    assert!(contains(&nullable_set, "start"));
    assert!(contains(&nullable_set, "a"));
    assert!(contains(&nullable_set, "b"));
    assert!(contains(&nullable_set, "c"));
}

#[test]
fn test_paren_grammar() {
    let g = make_paren();
    let nullables = calculate_nullables(&g).unwrap();
    assert!(nullables.get_nullable_info(&NonTerminal::new("expr_list")).is_some());
    assert!(nullables.get_nullable_info(&NonTerminal::new("expr")).is_none());
    assert!(nullables.get_nullable_info(&NonTerminal::new("start")).is_none());
}

#[test]
fn test_ambiguous_nullable_grammar() {
    let g = make_ambiguous_nullable();
    let nullable_error = calculate_nullables(&g).unwrap_err();
    assert_eq!(nullable_error, NullableError::NullableAmbiguity);
}

#[test]
fn test_grammar_print() {
    let g = make_recursive_or_empty();
    let nt_x = NonTerminal::new("x");
    let ng = NullableGrammar::new(g).unwrap();
    assert!(ng.is_nullable(&nt_x));
}

#[test]
fn simple_nullable_set_is_exactly_the_four_nonterminals() {
    let g = make_simple_nullable();
    let nullables = calculate_nullables(&g).unwrap();
    assert_eq!(nullables.get_nullable_set().len(), 4);
    assert_eq!(nullables.nonterm_info().len(), 4);
}

#[test]
fn simple_nullable_witnesses_chain_through_named_children() {
    let g = make_simple_nullable();
    let nullables = calculate_nullables(&g).unwrap();

    let start = nullables.get_nullable_info(&NonTerminal::new("start")).unwrap().nullable_action();
    assert!(start.action().head().matches(&NonTerminal::new("start")));
    assert!(start.action().action_key().matches(&Name::new("start")));
    assert_eq!(start.fields().len(), 1);

    let a = start.get(&Name::new("a")).unwrap();
    assert!(a.action().head().matches(&NonTerminal::new("a")));
    assert!(a.action().action_key().matches(&Name::new("a_prod")));

    let b = a.get(&Name::new("b")).unwrap();
    assert!(b.action().action_key().matches(&Name::new("b_prod")));

    let c = b.get(&Name::new("c")).unwrap();
    assert!(c.action().head().matches(&NonTerminal::new("c")));
    assert!(c.action().action_key().matches(&Name::new("c_prod")));
    assert!(c.fields().is_empty());
    assert!(c.get(&Name::new("a")).is_none());
}

#[test]
fn recursive_or_empty_witness_is_the_empty_production() {
    let g = make_recursive_or_empty();
    let nullables = calculate_nullables(&g).unwrap();
    let set = nullables.get_nullable_set();
    assert_eq!(set.len(), 1);
    assert!(contains(&set, "x"));
    let tree = nullables.get_nullable_info(&NonTerminal::new("x")).unwrap().nullable_action();
    assert!(tree.action().head().matches(&NonTerminal::new("x")));
    assert!(tree.action().action_key().matches(&Name::new("Empty")));
    assert!(tree.fields().is_empty());
}

#[test]
fn recursion_between_terminals_beside_an_empty_production() {
    // S -> a S a | (nothing)
    let g = Grammar::new(
        NonTerminal::new("S"),
        vec![rule(
            "S",
            vec![prod("wrap", vec![term("a"), named_nonterm("inner", "S"), term("a")]), prod("empty", vec![])],
        )],
        actions(&["wrap", "empty"]),
    )
    .unwrap();
    let nullables = calculate_nullables(&g).unwrap();
    let set = nullables.get_nullable_set();
    assert_eq!(set.len(), 1);
    assert!(contains(&set, "S"));
    let tree = nullables.get_nullable_info(&NonTerminal::new("S")).unwrap().nullable_action();
    assert!(tree.action().head().matches(&NonTerminal::new("S")));
    assert!(tree.action().action_key().matches(&Name::new("empty")));
    assert!(tree.fields().is_empty());
}

#[test]
fn paren_nullable_set_is_only_the_list() {
    let g = make_paren();
    let nullables = calculate_nullables(&g).unwrap();
    let set = nullables.get_nullable_set();
    assert_eq!(set.len(), 1);
    assert!(contains(&set, "expr_list"));
    assert!(nullables.is_nullable(&NonTerminal::new("expr_list")));
    assert!(!nullables.is_nullable(&NonTerminal::new("expr")));
    assert!(!nullables.is_nullable(&NonTerminal::new("start")));
    let tree =
        nullables.get_nullable_info(&NonTerminal::new("expr_list")).unwrap().nullable_action();
    assert!(tree.action().action_key().matches(&Name::new("list_empty")));
}

#[test]
fn a_copy_of_a_nullable_grammar_answers_alike() {
    let ng = NullableGrammar::new(make_simple_nullable()).unwrap();
    let copy = ng.clone();
    for name in ["start", "a", "b", "c", "other"] {
        let nt = NonTerminal::new(name);
        assert_eq!(copy.is_nullable(&nt), ng.is_nullable(&nt));
    }
    assert!(copy.is_nullable(&NonTerminal::new("start")));
    assert!(!copy.is_nullable(&NonTerminal::new("other")));
    assert_eq!(copy.grammar().rule_set().len(), 4);
    assert_eq!(copy.nullables().get_nullable_set().len(), 4);
}

#[test]
fn the_nullable_table_is_sorted_and_does_not_depend_on_the_order_of_the_rules() {
    let rules_in_order = |order: &[usize]| {
        let all = [
            ("start", "start", Some(("a", "a"))),
            ("a", "a_prod", Some(("b", "b"))),
            ("b", "b_prod", Some(("c", "c"))),
            ("c", "c_prod", None),
        ];
        order
            .iter()
            .map(|&i| {
                let (head, action, child) = all[i];
                let elements = match child {
                    Some((binding, name)) => vec![named_nonterm(binding, name)],
                    None => vec![],
                };
                rule(head, vec![prod(action, elements)])
            })
            .collect::<Vec<_>>()
    };
    let names = ["start", "a_prod", "b_prod", "c_prod"];
    for order in [[0, 1, 2, 3], [3, 2, 1, 0], [2, 0, 3, 1], [1, 3, 0, 2]] {
        let g = Grammar::new(NonTerminal::new("start"), rules_in_order(&order), actions(&names))
            .unwrap();
        let nullables = calculate_nullables(&g).unwrap();
        let set: Vec<String> = nullables
            .get_nullable_set()
            .iter()
            .map(|nt| nt.name().str().to_string())
            .collect();
        assert_eq!(set, vec!["a", "b", "c", "start"]);
        let entries: Vec<String> = nullables
            .nonterm_info()
            .iter()
            .map(|(nt, info)| {
                format!("{}:{}", nt.name().str(), info.nullable_action().action().action_key().str())
            })
            .collect();
        assert_eq!(entries, vec!["a:a_prod", "b:b_prod", "c:c_prod", "start:start"]);
    }
}

#[test]
fn children_of_a_witness_are_sorted_by_name() {
    // s -> zed:e mid:e abe:e; e -> (nothing)
    let g = Grammar::new(
        NonTerminal::new("s"),
        vec![
            rule(
                "s",
                vec![prod(
                    "all",
                    vec![
                        named_nonterm("zed", "e"),
                        named_nonterm("mid", "e"),
                        named_nonterm("abe", "e"),
                    ],
                )],
            ),
            rule("e", vec![prod("none", vec![])]),
        ],
        actions(&["all", "none"]),
    )
    .unwrap();
    let nullables = calculate_nullables(&g).unwrap();
    let tree = nullables.get_nullable_info(&NonTerminal::new("s")).unwrap().nullable_action();
    let names: Vec<String> = tree.fields().iter().map(|(name, _)| name.str().to_string()).collect();
    assert_eq!(names, vec!["abe", "mid", "zed"]);
}

#[test]
fn the_productions_found_for_a_nonterminal_are_kept_in_the_order_of_its_rule() {
    // x -> y | (nothing); y -> (nothing). The empty production of x is found
    // in the first pass, the other one only in the second.
    let g = Grammar::new(
        NonTerminal::new("x"),
        vec![
            rule("y", vec![prod("y_none", vec![])]),
            rule("x", vec![prod("via_y", vec![nonterm("y")]), prod("x_none", vec![])]),
        ],
        actions(&["via_y", "x_none", "y_none"]),
    )
    .unwrap();
    let table = bongo::grammar::nullables::inner_calculate_nullables(&g);
    let found: Vec<(String, Vec<String>)> = table
        .iter()
        .map(|(nt, info)| {
            (
                nt.name().str().to_string(),
                info.nullable_actions()
                    .iter()
                    .map(|prod| prod.action_key().str().to_string())
                    .collect(),
            )
        })
        .collect();
    assert_eq!(
        found,
        vec![
            ("x".to_string(), vec!["via_y".to_string(), "x_none".to_string()]),
            ("y".to_string(), vec!["y_none".to_string()]),
        ]
    );
    assert!(calculate_nullables(&g).is_err());
}

#[test]
fn ambiguity_yields_no_table() {
    let g = make_ambiguous_nullable();
    assert!(calculate_nullables(&g).is_err());
    assert!(NullableGrammar::new(make_ambiguous_nullable()).is_err());
    assert_eq!(
        NullableError::NullableAmbiguity.message(),
        "found nullable ambiguities in grammar"
    );
}

#[test]
fn ambiguity_between_two_nullable_alternatives() {
    // x -> y | z; y -> (nothing); z -> (nothing)
    let g = Grammar::new(
        NonTerminal::new("x"),
        vec![
            rule("x", vec![prod("xy", vec![nonterm("y")]), prod("xz", vec![nonterm("z")])]),
            rule("y", vec![prod("y_empty", vec![])]),
            rule("z", vec![prod("z_empty", vec![])]),
        ],
        actions(&["xy", "xz", "y_empty", "z_empty"]),
    )
    .unwrap();
    assert_eq!(calculate_nullables(&g).unwrap_err(), NullableError::NullableAmbiguity);
}

#[test]
fn two_identical_empty_productions_are_ambiguous() {
    let g = Grammar::new(
        NonTerminal::new("x"),
        vec![rule("x", vec![prod("one", vec![]), prod("one", vec![])])],
        actions(&["one"]),
    )
    .unwrap();
    assert!(calculate_nullables(&g).is_err());
}

#[test]
fn running_twice_gives_the_same_table() {
    let g = make_simple_nullable();
    let first = calculate_nullables(&g).unwrap();
    let second = calculate_nullables(&g).unwrap();
    let a = first.get_nullable_set();
    let b = second.get_nullable_set();
    assert_eq!(a, b);
    for nt in &a {
        let x = first.get_nullable_info(nt).unwrap().nullable_action();
        let y = second.get_nullable_info(nt).unwrap().nullable_action();
        assert!(x.action().matches(y.action()));
        assert_eq!(x.fields().len(), y.fields().len());
    }
}

#[test]
fn unnamed_children_leave_no_subtree() {
    // s -> e e; e -> (nothing)
    let g = Grammar::new(
        NonTerminal::new("s"),
        vec![
            rule("s", vec![prod("pair", vec![nonterm("e"), named_nonterm("right", "e")])]),
            rule("e", vec![prod("none", vec![])]),
        ],
        actions(&["pair", "none"]),
    )
    .unwrap();
    let nullables = calculate_nullables(&g).unwrap();
    let tree = nullables.get_nullable_info(&NonTerminal::new("s")).unwrap().nullable_action();
    assert_eq!(tree.fields().len(), 1);
    let right = tree.get(&Name::new("right")).unwrap();
    assert!(right.action().action_key().matches(&Name::new("none")));
}

#[test]
fn of_two_children_with_one_name_the_later_is_reached() {
    // s -> v:p v:q; p -> (nothing); q -> (nothing)
    let g = Grammar::new(
        NonTerminal::new("s"),
        vec![
            rule("s", vec![prod("both", vec![named_nonterm("v", "p"), named_nonterm("v", "q")])]),
            rule("p", vec![prod("p_none", vec![])]),
            rule("q", vec![prod("q_none", vec![])]),
        ],
        actions(&["both", "p_none", "q_none"]),
    )
    .unwrap();
    let nullables = calculate_nullables(&g).unwrap();
    let tree = nullables.get_nullable_info(&NonTerminal::new("s")).unwrap().nullable_action();
    let v = tree.get(&Name::new("v")).unwrap();
    assert!(v.action().head().matches(&NonTerminal::new("q")));
    assert_eq!(tree.fields().len(), 1);
}

#[test]
fn a_production_that_needs_itself_is_ambiguous_beside_the_empty_one() {
    // a -> a | (nothing)
    let g = Grammar::new(
        NonTerminal::new("a"),
        vec![rule("a", vec![prod("again", vec![nonterm("a")]), prod("none", vec![])])],
        actions(&["again", "none"]),
    )
    .unwrap();
    assert_eq!(calculate_nullables(&g).unwrap_err(), NullableError::NullableAmbiguity);
}

#[test]
fn a_cycle_without_an_empty_production_is_not_nullable() {
    // a -> b; b -> a
    let g = Grammar::new(
        NonTerminal::new("a"),
        vec![
            rule("a", vec![prod("to_b", vec![nonterm("b")])]),
            rule("b", vec![prod("to_a", vec![nonterm("a")])]),
        ],
        actions(&["to_b", "to_a"]),
    )
    .unwrap();
    let nullables = calculate_nullables(&g).unwrap();
    assert!(nullables.get_nullable_set().is_empty());
    assert!(nullables.nonterm_info().is_empty());
}

#[test]
fn parents_before_children_in_the_rule_list_are_found_in_later_passes() {
    // top -> mid mid; mid -> low; low -> (nothing) | T
    let g = Grammar::new(
        NonTerminal::new("top"),
        vec![
            rule(
                "top",
                vec![prod("pair", vec![named_nonterm("l", "mid"), named_nonterm("r", "mid")])],
            ),
            rule("mid", vec![prod("down", vec![named_nonterm("d", "low")])]),
            rule("low", vec![prod("none", vec![]), prod("tok", vec![term("T")])]),
        ],
        actions(&["pair", "down", "none", "tok"]),
    )
    .unwrap();
    let nullables = calculate_nullables(&g).unwrap();
    assert_eq!(nullables.get_nullable_set().len(), 3);
    let top = nullables.get_nullable_info(&NonTerminal::new("top")).unwrap().nullable_action();
    assert_eq!(top.fields().len(), 2);
    let left = top.get(&Name::new("l")).unwrap();
    let right = top.get(&Name::new("r")).unwrap();
    assert!(left.action().matches(right.action()));
    assert!(left.action().action_key().matches(&Name::new("down")));
    let low = left.get(&Name::new("d")).unwrap();
    assert!(low.action().action_key().matches(&Name::new("none")));
    assert!(low.fields().is_empty());
    let table = nullables.clone();
    assert_eq!(table.get_nullable_set(), nullables.get_nullable_set());
}

#[test]
fn production_views_report_nullability() {
    let g = make_paren();
    let nullables = calculate_nullables(&g).unwrap();
    let prods = g.prods();
    assert_eq!(prods.len(), 4);
    let verdicts: Vec<bool> = prods.iter().map(|p| nullables.is_prod_nullable(p)).collect();
    // The productions come rule after rule, the rules by ascending head:
    // expr, expr_list, start. Only the empty production of the list is made
    // of nullable nonterminals alone.
    assert_eq!(verdicts, vec![false, true, false, false]);
}

#[test]
fn a_start_that_expands_to_a_nullable_list_is_nullable() {
    // start -> expr_list; expr_list -> (nothing) | expr expr_list; expr -> ( expr_list )
    let g = Grammar::new(
        NonTerminal::new("start"),
        vec![
            rule("start", vec![prod("start", vec![named_nonterm("list", "expr_list")])]),
            rule(
                "expr_list",
                vec![
                    prod("list_empty", vec![]),
                    prod(
                        "list_cons",
                        vec![named_nonterm("head", "expr"), named_nonterm("tail", "expr_list")],
                    ),
                ],
            ),
            rule(
                "expr",
                vec![prod(
                    "parens",
                    vec![term("("), named_nonterm("inner", "expr_list"), term(")")],
                )],
            ),
        ],
        actions(&["start", "list_empty", "list_cons", "parens"]),
    )
    .unwrap();
    let nullables = calculate_nullables(&g).unwrap();
    let set = nullables.get_nullable_set();
    assert_eq!(set.len(), 2);
    assert!(contains(&set, "expr_list"));
    assert!(contains(&set, "start"));
    assert!(!contains(&set, "expr"));
    let tree = nullables.get_nullable_info(&NonTerminal::new("start")).unwrap().nullable_action();
    let list = tree.get(&Name::new("list")).unwrap();
    assert!(list.action().action_key().matches(&Name::new("list_empty")));
    // The productions come rule after rule, the rules by ascending head:
    // expr, expr_list, start.
    let verdicts: Vec<bool> = g.prods().iter().map(|p| nullables.is_prod_nullable(p)).collect();
    assert_eq!(verdicts, vec![false, true, false, true]);
}
