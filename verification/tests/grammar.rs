use bongo::grammar::BaseElementTypes;
use bongo::grammar::Element;
use bongo::grammar::Grammar;
use bongo::grammar::NonTerminal;
use bongo::grammar::Production;
use bongo::grammar::ProductionElement;
use bongo::grammar::Rule;
use bongo::grammar::Terminal;
use bongo::utils::Name;
use bongo::utils::Identified;
use bongo::utils::Ordered;

type Elem = ProductionElement<BaseElementTypes>;

fn t(name: &str) -> Elem {
    ProductionElement::new_empty(Element::Term(Terminal::new(name)))
}

fn n(name: &str) -> Elem {
    ProductionElement::new_empty(Element::NonTerm(NonTerminal::new(name)))
}

fn p(action: &str, elements: Vec<Elem>) -> Production<BaseElementTypes> {
    Production::new(Name::new(action), elements)
}

fn r(head: &str, prods: Vec<Production<BaseElementTypes>>) -> Rule<BaseElementTypes> {
    Rule::new(NonTerminal::new(head), prods)
}

fn names(nts: &[NonTerminal]) -> Vec<String> {
    let mut out: Vec<String> = nts.iter().map(|nt| nt.name().str().to_string()).collect();
    out.sort();
    out
}

#[test]
fn names_with_equal_text_match() {
    let a = NonTerminal::new("a");
    let b = NonTerminal::new("a");
    let c = NonTerminal::new("c");
    assert!(a.matches(&b));
    assert!(!a.matches(&c));
    assert!(a.duplicate().matches(&a));
    assert_eq!(a.name().str(), "a");
    assert!(Terminal::new("x").matches(&Terminal::new("x")));
    assert!(!Terminal::new("x").matches(&Terminal::new("y")));
    assert_eq!(Terminal::new("x").name().str(), "x");
    assert!(Name::new("k").matches(&Name::new("k")));
    assert!(!Name::new("k").matches(&Name::new("l")));
}

#[test]
fn elements_tell_terminals_from_nonterminals() {
    let term: Element<BaseElementTypes> = Element::Term(Terminal::new("A"));
    let nonterm: Element<BaseElementTypes> = Element::NonTerm(NonTerminal::new("x"));
    assert!(term.as_term().unwrap().matches(&Terminal::new("A")));
    assert!(term.as_nonterm().is_none());
    assert!(nonterm.as_nonterm().unwrap().matches(&NonTerminal::new("x")));
    assert!(nonterm.as_term().is_none());
    assert_eq!(term.duplicate(), term);
}

#[test]
fn production_elements_keep_name_and_symbol() {
    let named: Elem =
        ProductionElement::new_with_name(Name::new("lhs"), Element::Term(Terminal::new("A")));
    assert!(named.id().unwrap().matches(&Name::new("lhs")));
    assert!(named.elem().as_term().is_some());
    let bare: Elem = ProductionElement::new_empty(Element::NonTerm(NonTerminal::new("x")));
    assert!(bare.id().is_none());
    let optional: Elem = ProductionElement::new(None, Element::Term(Terminal::new("A")));
    assert!(optional.id().is_none());
    let given: Elem =
        ProductionElement::new(Some(Name::new("n")), Element::Term(Terminal::new("A")));
    assert!(given.id().unwrap().matches(&Name::new("n")));
}

#[test]
fn productions_expose_their_elements_in_order() {
    let production = p("act", vec![t("A"), n("x"), t("B")]);
    assert!(production.action_key().matches(&Name::new("act")));
    assert_eq!(production.prod_elements().len(), 3);
    let symbols = production.elements_iter();
    assert_eq!(symbols.len(), 3);
    assert!(symbols[0].as_term().unwrap().matches(&Terminal::new("A")));
    assert!(symbols[1].as_nonterm().unwrap().matches(&NonTerminal::new("x")));
    assert!(symbols[2].as_term().unwrap().matches(&Terminal::new("B")));
    assert!(production.element_at(1).unwrap().as_nonterm().is_some());
    assert!(production.element_at(3).is_none());
}

#[test]
fn productions_are_equal_when_key_and_elements_are() {
    let a = p("act", vec![t("A"), n("x")]);
    let same = p("act", vec![t("A"), n("x")]);
    let other_key = p("other", vec![t("A"), n("x")]);
    let other_symbol = p("act", vec![t("A"), n("y")]);
    let other_kind = p("act", vec![t("A"), t("x")]);
    let shorter = p("act", vec![t("A")]);
    let named = Production::new(
        Name::new("act"),
        vec![
            t("A"),
            ProductionElement::new_with_name(
                Name::new("v"),
                Element::NonTerm(NonTerminal::new("x")),
            ),
        ],
    );
    assert!(a.matches(&same));
    assert!(a.matches(&a.duplicate()));
    assert!(!a.matches(&other_key));
    assert!(!a.matches(&other_symbol));
    assert!(!a.matches(&other_kind));
    assert!(!a.matches(&shorter));
    assert!(!a.matches(&named));
    assert_eq!(a, same);

    let rule = r("s", vec![p("one", vec![t("A")]), p("two", vec![])]);
    assert!(rule.matches(&r("s", vec![p("one", vec![t("A")]), p("two", vec![])])));
    assert!(rule.matches(&rule.duplicate()));
    assert!(!rule.matches(&r("u", vec![p("one", vec![t("A")]), p("two", vec![])])));
    assert!(!rule.matches(&r("s", vec![p("two", vec![]), p("one", vec![t("A")])])));
    assert!(!rule.matches(&r("s", vec![p("one", vec![t("A")])])));
}

#[test]
fn valid_grammar_is_constructed_and_read_back() {
    let g = Grammar::new(
        NonTerminal::new("s"),
        vec![r("s", vec![p("one", vec![t("A"), n("u")])]), r("u", vec![p("two", vec![t("B")])])],
        vec![(Name::new("one"), ()), (Name::new("two"), ())],
    )
    .unwrap();
    assert!(g.start_nt().matches(&NonTerminal::new("s")));
    assert_eq!(g.rule_set().len(), 2);
    let rule = g.get_rule(&NonTerminal::new("u")).unwrap();
    assert!(rule.head().matches(&NonTerminal::new("u")));
    assert_eq!(rule.prods().len(), 1);
    assert!(g.get_rule(&NonTerminal::new("missing")).is_none());
    assert!(g.action_value(&Name::new("one")).is_some());
    assert!(g.action_value(&Name::new("three")).is_none());
}

#[test]
fn prod_and_heads_lists_every_production_with_its_head() {
    let g = Grammar::new(
        NonTerminal::new("s"),
        vec![
            r("s", vec![p("one", vec![n("u")]), p("two", vec![t("A")])]),
            r("u", vec![p("three", vec![t("B")])]),
        ],
        vec![],
    )
    .unwrap();
    let listed = g.prod_and_heads();
    assert_eq!(listed.len(), 3);
    assert!(listed[0].head().matches(&NonTerminal::new("s")));
    assert!(listed[0].prod().action_key().matches(&Name::new("one")));
    assert!(listed[1].key().action_key().matches(&Name::new("two")));
    assert!(listed[2].key().head().matches(&NonTerminal::new("u")));
    let table = g.get_action_map();
    assert_eq!(table.len(), 3);
    assert!(table[2].0.action_key().matches(&Name::new("three")));
    assert!(table[2].1.head().matches(&NonTerminal::new("u")));
}

#[test]
fn nonterminal_without_rule_is_reported() {
    let errors = Grammar::new(
        NonTerminal::new("s"),
        vec![r("s", vec![p("one", vec![n("Q")])])],
        vec![(Name::new("one"), ())],
    )
    .unwrap_err();
    assert_eq!(names(errors.nonterms_without_rules()), vec!["Q".to_string()]);
    assert!(errors.unreachable_nonterms().is_empty());
    assert!(errors.rules_without_prods().is_empty());
}

#[test]
fn rule_without_productions_is_reported() {
    let errors = Grammar::new(
        NonTerminal::new("s"),
        vec![r("s", vec![p("one", vec![n("e")])]), r("e", vec![])],
        vec![],
    )
    .unwrap_err();
    assert_eq!(names(errors.rules_without_prods()), vec!["e".to_string()]);
    assert!(errors.nonterms_without_rules().is_empty());
    assert!(errors.unreachable_nonterms().is_empty());
}

#[test]
fn unreachable_nonterminals_are_reported() {
    // `island` has a rule that nothing leads to, and its rule uses `shore`.
    let errors = Grammar::new(
        NonTerminal::new("s"),
        vec![
            r("s", vec![p("one", vec![t("A")])]),
            r("island", vec![p("two", vec![n("shore")])]),
            r("shore", vec![p("three", vec![t("B")])]),
        ],
        vec![],
    )
    .unwrap_err();
    assert_eq!(
        names(errors.unreachable_nonterms()),
        vec!["island".to_string(), "shore".to_string()]
    );
    assert!(errors.nonterms_without_rules().is_empty());
    assert!(errors.rules_without_prods().is_empty());
}

#[test]
fn all_defects_are_reported_together() {
    let errors = Grammar::new(
        NonTerminal::new("s"),
        vec![
            r("s", vec![p("one", vec![n("gone"), n("hollow"), n("gone")])]),
            r("hollow", vec![]),
            r("void", vec![]),
            r("far", vec![p("two", vec![n("lost"), n("far")])]),
        ],
        vec![],
    )
    .unwrap_err();
    assert_eq!(
        names(errors.nonterms_without_rules()),
        vec!["gone".to_string(), "lost".to_string()]
    );
    assert_eq!(
        names(errors.rules_without_prods()),
        vec!["hollow".to_string(), "void".to_string()]
    );
    assert_eq!(
        names(errors.unreachable_nonterms()),
        vec!["far".to_string(), "lost".to_string(), "void".to_string()]
    );
}

#[test]
fn of_two_rules_with_one_head_the_later_counts() {
    let g = Grammar::new(
        NonTerminal::new("s"),
        vec![
            r("s", vec![p("old", vec![n("nowhere")])]),
            r("u", vec![p("leaf", vec![t("B")])]),
            r("s", vec![p("new", vec![n("u")])]),
        ],
        vec![],
    )
    .unwrap();
    assert_eq!(g.rule_set().len(), 2);
    let rule = g.get_rule(&NonTerminal::new("s")).unwrap();
    assert_eq!(rule.prods().len(), 1);
    assert!(rule.prods()[0].action_key().matches(&Name::new("new")));
    assert!(g.rule_set()[0].head().matches(&NonTerminal::new("s")));
    assert!(g.rule_set()[1].head().matches(&NonTerminal::new("u")));
}

fn heads(g: &Grammar<BaseElementTypes>) -> Vec<String> {
    g.rule_set().iter().map(|rule| rule.head().name().str().to_string()).collect()
}

#[test]
fn rules_stand_in_ascending_order_however_they_are_given() {
    // B -> A; A -> (nothing)
    let one = Grammar::new(
        NonTerminal::new("B"),
        vec![r("B", vec![p("b", vec![n("A")])]), r("A", vec![p("a", vec![])])],
        vec![(Name::new("a"), ()), (Name::new("b"), ())],
    )
    .unwrap();
    let other = Grammar::new(
        NonTerminal::new("B"),
        vec![r("A", vec![p("a", vec![])]), r("B", vec![p("b", vec![n("A")])])],
        vec![(Name::new("b"), ()), (Name::new("a"), ())],
    )
    .unwrap();
    assert_eq!(heads(&one), vec!["A".to_string(), "B".to_string()]);
    assert_eq!(heads(&other), vec!["A".to_string(), "B".to_string()]);
    for g in [&one, &other] {
        let listed = g.prod_and_heads();
        assert_eq!(listed.len(), 2);
        assert!(listed[0].head().matches(&NonTerminal::new("A")));
        assert!(listed[0].prod().action_key().matches(&Name::new("a")));
        assert!(listed[1].head().matches(&NonTerminal::new("B")));
        assert!(listed[1].prod().action_key().matches(&Name::new("b")));
        let rules = g.rules();
        assert!(rules[0].head().matches(&NonTerminal::new("A")));
        assert!(rules[1].head().matches(&NonTerminal::new("B")));
        let prods = g.prods();
        assert!(prods[0].head().matches(&NonTerminal::new("A")));
        assert!(prods[1].head().matches(&NonTerminal::new("B")));
        let table = g.get_action_map();
        assert!(table[0].0.head().matches(&NonTerminal::new("A")));
        assert!(table[1].0.head().matches(&NonTerminal::new("B")));
    }
    for (x, y) in one.rule_set().iter().zip(other.rule_set().iter()) {
        assert!(x.matches(y));
    }
}

#[test]
fn many_rules_are_sorted_by_head() {
    let g = Grammar::new(
        NonTerminal::new("m"),
        vec![
            r("m", vec![p("1", vec![n("z"), n("a"), n("mm"), n("b"), n("")])]),
            r("z", vec![p("2", vec![])]),
            r("a", vec![p("3", vec![])]),
            r("mm", vec![p("4", vec![])]),
            r("b", vec![p("5", vec![])]),
            r("", vec![p("6", vec![])]),
        ],
        vec![],
    )
    .unwrap();
    assert_eq!(
        heads(&g),
        vec!["".to_string(), "a".to_string(), "b".to_string(), "m".to_string(), "mm".to_string(), "z".to_string()]
    );
}

#[test]
fn the_table_of_productions_is_sorted_by_head_and_action_key() {
    let g = Grammar::new(
        NonTerminal::new("t"),
        vec![
            r("t", vec![p("zeta", vec![n("s")]), p("alpha", vec![]), p("mid", vec![t("A")])]),
            r("s", vec![p("two", vec![]), p("one", vec![t("B")])]),
        ],
        vec![],
    )
    .unwrap();
    assert!(g.has_distinct_prod_keys());
    let table = g.get_action_map();
    let keys: Vec<(String, String)> = table
        .iter()
        .map(|(key, _)| {
            (key.head().name().str().to_string(), key.action_key().str().to_string())
        })
        .collect();
    let expected: Vec<(String, String)> =
        [("s", "one"), ("s", "two"), ("t", "alpha"), ("t", "mid"), ("t", "zeta")]
            .iter()
            .map(|(h, k)| (h.to_string(), k.to_string()))
            .collect();
    assert_eq!(keys, expected);
    for (key, entry) in &table {
        assert!(key.head().matches(entry.head()));
        assert!(key.action_key().matches(entry.prod().action_key()));
    }
    // The productions themselves keep the order of their rule.
    let listed = g.prod_and_heads();
    assert!(listed[0].prod().action_key().matches(&Name::new("two")));
    assert!(listed[2].prod().action_key().matches(&Name::new("zeta")));
}

#[test]
fn defects_are_listed_in_ascending_order() {
    let errors = Grammar::new(
        NonTerminal::new("s"),
        vec![
            r("s", vec![p("one", vec![n("zz"), n("mm"), n("aa"), n("mm")])]),
            r("y", vec![]),
            r("c", vec![]),
            r("k", vec![p("two", vec![n("y"), n("c"), n("b")])]),
        ],
        vec![],
    )
    .unwrap_err();
    let plain = |nts: &Vec<NonTerminal>| -> Vec<String> {
        nts.iter().map(|nt| nt.name().str().to_string()).collect()
    };
    assert_eq!(plain(errors.nonterms_without_rules()), vec!["aa", "b", "mm", "zz"]);
    assert_eq!(plain(errors.rules_without_prods()), vec!["c", "y"]);
    assert_eq!(plain(errors.unreachable_nonterms()), vec!["b", "c", "k", "y"]);
}

#[test]
fn names_are_ordered_as_in_a_dictionary() {
    let before = |a: &str, b: &str| Name::new(a).precedes(&Name::new(b));
    assert!(before("", "a"));
    assert!(!before("a", ""));
    assert!(!before("", ""));
    assert!(before("a", "b"));
    assert!(!before("b", "a"));
    assert!(!before("abc", "abc"));
    assert!(before("ab", "abc"));
    assert!(!before("abc", "ab"));
    assert!(before("abc", "abd"));
    assert!(before("B", "a"));
    assert!(before("expr", "expr_list"));
    assert!(before("z", "é"));
    assert!(before("é", "日本"));
    assert!(!before("日本", "日"));
    for (a, b) in [("", "a"), ("ab", "abc"), ("z", "é"), ("start", "expr"), ("x", "x")] {
        assert_eq!(before(a, b), a < b);
        assert_eq!(before(b, a), b < a);
        assert_eq!(NonTerminal::new(a).precedes(&NonTerminal::new(b)), a < b);
        assert_eq!(Terminal::new(a).precedes(&Terminal::new(b)), a < b);
        assert_eq!(Name::new(a).precedes(&Name::new(b)), Name::new(a) < Name::new(b));
    }
}

#[test]
fn production_keys_are_ordered_by_head_then_action_key() {
    let key = |h: &str, k: &str| bongo::grammar::ProdKey::<BaseElementTypes>::new(
        NonTerminal::new(h),
        Name::new(k),
    );
    assert!(key("a", "z").precedes(&key("b", "a")));
    assert!(!key("b", "a").precedes(&key("a", "z")));
    assert!(key("a", "x").precedes(&key("a", "y")));
    assert!(!key("a", "y").precedes(&key("a", "x")));
    assert!(!key("a", "x").precedes(&key("a", "x")));
    assert!(key("a", "x").matches(&key("a", "x")));
}

#[test]
fn action_values_are_complete_or_not() {
    let complete = Grammar::new(
        NonTerminal::new("s"),
        vec![r("s", vec![p("one", vec![t("A")]), p("two", vec![])])],
        vec![(Name::new("two"), ()), (Name::new("one"), ())],
    )
    .unwrap();
    assert!(complete.has_action_values());
    assert!(complete.prods().iter().all(|prod| prod.has_action_value()));
    let partial = Grammar::new(
        NonTerminal::new("s"),
        vec![r("s", vec![p("one", vec![t("A")]), p("two", vec![])])],
        vec![(Name::new("one"), ())],
    )
    .unwrap();
    assert!(!partial.has_action_values());
    let views = partial.prods();
    assert!(views[0].has_action_value());
    assert!(!views[1].has_action_value());
}

#[test]
fn keys_of_productions_may_repeat_or_not() {
    let distinct = Grammar::new(
        NonTerminal::new("s"),
        vec![r("s", vec![p("one", vec![n("u")])]), r("u", vec![p("one", vec![t("A")])])],
        vec![],
    )
    .unwrap();
    assert!(distinct.has_distinct_prod_keys());
    assert_eq!(distinct.get_action_map().len(), 2);
    let repeated = Grammar::new(
        NonTerminal::new("s"),
        vec![r("s", vec![p("one", vec![t("A")]), p("two", vec![]), p("one", vec![t("B")])])],
        vec![],
    )
    .unwrap();
    assert!(!repeated.has_distinct_prod_keys());
}

#[test]
fn copies_of_grammars_and_errors_say_the_same() {
    let g = Grammar::new(
        NonTerminal::new("s"),
        vec![r("s", vec![p("one", vec![t("A")])])],
        vec![(Name::new("one"), ())],
    )
    .unwrap();
    let copy = g.clone();
    assert!(copy.start_nt().matches(g.start_nt()));
    assert_eq!(copy.rule_set().len(), 1);
    assert!(copy.action_value(&Name::new("one")).is_some());
    let errors = Grammar::new(
        NonTerminal::new("s"),
        vec![r("s", vec![p("one", vec![n("Q")])])],
        vec![],
    )
    .unwrap_err();
    let again = errors.clone();
    assert_eq!(names(again.nonterms_without_rules()), vec!["Q".to_string()]);
    assert!(again.into_result().is_err());
}

#[test]
fn elements_convert_between_families_and_into_production_elements() {
    let term: Element<BaseElementTypes> = Element::Term(Terminal::new("A"));
    let other: Element<Tagged> = term.clone_as_other();
    assert!(other.as_term().unwrap().matches(&Terminal::new("A")));
    let named: Elem =
        ProductionElement::new_with_name(Name::new("lhs"), Element::NonTerm(NonTerminal::new("x")));
    let moved: ProductionElement<Tagged> = named.clone_as_other();
    assert!(moved.id().unwrap().matches(&Name::new("lhs")));
    assert!(moved.elem().as_nonterm().unwrap().matches(&NonTerminal::new("x")));
    let bare: Elem = ProductionElement::from(Element::Term(Terminal::new("B")));
    assert!(bare.id().is_none());
    assert!(bare.elem().as_term().unwrap().matches(&Terminal::new("B")));
    assert!(named.duplicate().id().unwrap().matches(&Name::new("lhs")));
}

#[test]
fn grammar_without_rules_is_valid() {
    let g: Grammar<BaseElementTypes> =
        Grammar::new(NonTerminal::new("s"), vec![], vec![]).unwrap();
    assert!(g.rule_set().is_empty());
    assert!(g.prods().is_empty());
    assert!(g.get_rule(&NonTerminal::new("s")).is_none());
}

#[test]
fn views_of_rules_and_productions() {
    let g = Grammar::new(
        NonTerminal::new("s"),
        vec![
            r("s", vec![p("one", vec![t("A"), n("u")]), p("two", vec![])]),
            r("u", vec![p("three", vec![t("B")])]),
        ],
        vec![(Name::new("one"), ()), (Name::new("two"), ()), (Name::new("three"), ())],
    )
    .unwrap();
    assert!(g.has_action_values());
    let rules = g.rules();
    assert_eq!(rules.len(), 2);
    assert!(rules[0].head().matches(&NonTerminal::new("s")));
    assert!(rules[0].same(&rules[0]));
    assert!(!rules[0].same(&rules[1]));
    assert!(rules[0].precedes(&rules[1]));
    assert!(!rules[1].precedes(&rules[0]));

    let of_s = rules[0].prods();
    assert_eq!(of_s.len(), 2);
    assert!(of_s[0].head().matches(&NonTerminal::new("s")));
    assert!(of_s[0].action_key().matches(&Name::new("one")));
    assert!(of_s[0].prod_key().head().matches(&NonTerminal::new("s")));
    assert!(of_s[0].prod_key().action_key().matches(&Name::new("one")));
    assert_eq!(of_s[0].prod_elements().len(), 2);
    assert_eq!(of_s[0].elements_iter().len(), 2);
    assert!(of_s[0].element_at(0).unwrap().as_term().is_some());
    assert!(of_s[0].element_at(2).is_none());
    assert!(of_s[0].has_action_value());
    assert_eq!(of_s[0].action_value(), &());
    assert_eq!(of_s[1].action_value(), &());

    let all = g.prods();
    assert_eq!(all.len(), 3);
    assert!(all[0].same(&of_s[0]));
    assert!(!all[0].same(&all[1]));
    assert!(all[0].precedes(&all[1]));
    assert!(all[1].precedes(&all[2]));
    assert!(!all[2].precedes(&all[0]));
    assert!(!all[1].precedes(&all[1]));
    let copy = all[2];
    assert!(copy.same(&all[2]));
    assert!(all[2].has_action_value());
}

#[test]
fn of_two_action_entries_with_one_key_the_later_counts() {
    let g: Grammar<Tagged> = Grammar::new(
        NonTerminal::new("s"),
        vec![Rule::new(
            NonTerminal::new("s"),
            vec![Production::new(Name::new("k"), vec![])],
        )],
        vec![(Name::new("k"), 1), (Name::new("other"), 2), (Name::new("k"), 3)],
    )
    .unwrap();
    assert_eq!(g.action_value(&Name::new("k")), Some(&3));
    assert_eq!(g.action_value(&Name::new("other")), Some(&2));
    assert!(g.has_action_values());
    assert_eq!(g.prods()[0].action_value(), &3);
    assert_eq!(g.rules()[0].prods()[0].action_value(), &3);
}

#[derive(Copy, Clone, Eq, PartialEq, Ord, PartialOrd, Debug)]
struct Tagged;

impl bongo::grammar::ElementTypes for Tagged {
    type Term = Terminal;
    type NonTerm = NonTerminal;
    type ActionKey = Name;
    type ActionValue = u32;
}
