//! The validation made when a grammar is constructed: it finds nonterminals
//! that are used without a rule, rules without productions, and nonterminals
//! that the start nonterminal does not reach.

use vstd::prelude::*;
use crate::grammar::model::has_head;
use crate::grammar::model::heads_of;
use crate::grammar::model::nonterms_in;
use crate::grammar::model::nt_before;
use crate::grammar::model::rank_of;
use crate::grammar::model::sorted_rules;
use crate::grammar::model::with_rule;
use crate::grammar::model::rule_symbols;
use crate::grammar::model::symbols_by_prod;
use crate::grammar::model::symbols_by_rule;
use crate::grammar::model::symbols_of;
use crate::grammar::model::ElementSpec;
use crate::grammar::model::GrammarSpec;
use crate::grammar::model::NonTermId;
use crate::grammar::model::RuleSpec;
use crate::grammar::Element;
use crate::grammar::ElementTypes;
use crate::grammar::GrammarErrors;
use crate::grammar::Rule;
use crate::utils::ascending;
use crate::utils::insert_new;
use crate::utils::insert_sorted;
use crate::utils::lemma_ascending_distinct;
use crate::utils::lemma_ascending_insert;
use crate::utils::Ordered;
use crate::utils::lemma_distinct_bounded;
use crate::utils::lemma_flatten_contains;
use crate::utils::lemma_push_contains;
use crate::utils::position;
use crate::utils::views;
use crate::utils::Identified;

verus! {

/// A symbol occurs among the symbols of a rule exactly when it stands at
/// some position of one of its right-hand sides.
pub proof fn lemma_rule_symbols<E: ElementTypes>(r: RuleSpec<E>, e: ElementSpec<E>)
    ensures
        rule_symbols(r).contains(e) <==> exists|j: int, k: int|
            0 <= j < r.prods.len() && 0 <= k < r.prods[j].elements.len() && (
            #[trigger] r.prods[j].elements[k]).element == e,
{
    let parts = symbols_by_prod(r.prods);
    lemma_flatten_contains(parts, e);
    if rule_symbols(r).contains(e) {
        let (a, b) = choose|a: int, b: int|
            0 <= a < parts.len() && 0 <= b < parts[a].len() && #[trigger] parts[a][b] == e;
        assert(r.prods[a].elements[b].element == e);
    }
    if exists|j: int, k: int|
        0 <= j < r.prods.len() && 0 <= k < r.prods[j].elements.len() && (
        #[trigger] r.prods[j].elements[k]).element == e {
        let (j, k) = choose|j: int, k: int|
            0 <= j < r.prods.len() && 0 <= k < r.prods[j].elements.len() && (
            #[trigger] r.prods[j].elements[k]).element == e;
        assert(parts[j][k] == e);
    }
}

/// A symbol occurs among the symbols of a grammar exactly when it stands at
/// some position of a right-hand side.
pub proof fn lemma_symbols<E: ElementTypes>(g: GrammarSpec<E>, e: ElementSpec<E>)
    ensures
        g.symbols().contains(e) <==> exists|i: int, j: int, k: int|
            #[trigger] g.is_elem(i, j, k) && g.elem(i, j, k) == e,
{
    let parts = symbols_by_rule(g.rules);
    lemma_flatten_contains(parts, e);
    if g.symbols().contains(e) {
        let (a, b) = choose|a: int, b: int|
            0 <= a < parts.len() && 0 <= b < parts[a].len() && #[trigger] parts[a][b] == e;
        assert(rule_symbols(g.rules[a]).contains(e));
        lemma_rule_symbols(g.rules[a], e);
        let (j, k) = choose|j: int, k: int|
            0 <= j < g.rules[a].prods.len() && 0 <= k < g.rules[a].prods[j].elements.len() && (
            #[trigger] g.rules[a].prods[j].elements[k]).element == e;
        assert(g.is_elem(a, j, k) && g.elem(a, j, k) == e);
    }
    if exists|i: int, j: int, k: int| #[trigger] g.is_elem(i, j, k) && g.elem(i, j, k) == e {
        let (i, j, k) = choose|i: int, j: int, k: int|
            #[trigger] g.is_elem(i, j, k) && g.elem(i, j, k) == e;
        assert(g.rules[i].prods[j].elements[k].element == e);
        lemma_rule_symbols(g.rules[i], e);
        let q = choose|q: int| 0 <= q < parts[i].len() && parts[i][q] == e;
        assert(parts[i][q] == e);
    }
}

/// A nonterminal is used on a right-hand side exactly when it occurs among
/// the symbols of the grammar.
pub proof fn lemma_mentions<E: ElementTypes>(g: GrammarSpec<E>, nt: NonTermId<E>)
    ensures
        g.mentions(nt) <==> g.symbols().contains(ElementSpec::<E>::NonTerm(nt)),
{
    let e = ElementSpec::<E>::NonTerm(nt);
    lemma_symbols(g, e);
    if g.mentions(nt) {
        let (i, j, k) = choose|i: int, j: int, k: int| g.nonterm_at(nt, i, j, k);
        assert(g.is_elem(i, j, k) && g.elem(i, j, k) == e);
    }
    if g.symbols().contains(e) {
        let (i, j, k) = choose|i: int, j: int, k: int|
            #[trigger] g.is_elem(i, j, k) && g.elem(i, j, k) == e;
        assert(g.nonterm_at(nt, i, j, k));
    }
}

/// The position of the rule of `nt` in `rules`, if it has one.
pub fn find_rule<E: ElementTypes>(rules: &Vec<Rule<E>>, nt: &E::NonTerm) -> (found: Option<usize>)
    ensures
        match found {
            Some(i) => i < rules.len() && rules[i as int]@.head == nt@ && forall|j: int|
                0 <= j < i ==> (#[trigger] rules[j])@.head != nt@,
            None => forall|j: int| 0 <= j < rules.len() ==> (#[trigger] rules[j])@.head != nt@,
        },
        found is Some <==> has_head(views(rules@), nt@),
{
    let mut i: usize = 0;
    while i < rules.len()
        invariant
            i <= rules.len(),
            forall|j: int| 0 <= j < i ==> (#[trigger] rules[j])@.head != nt@,
        decreases rules.len() - i,
    {
        if rules[i].head().matches(nt) {
            assert(views(rules@)[i as int].head == nt@);
            return Some(i);
        }
        i += 1;
    }
    assert forall|j: int| 0 <= j < views(rules@).len() implies (#[trigger] views(rules@)[j]).head
        != nt@ by {
        assert(rules[j]@.head != nt@);
    }
    None
}

/// The symbols on the right-hand sides of a rule, production after production.
pub fn rule_elements<'a, E: ElementTypes>(rule: &'a Rule<E>) -> (out: Vec<&'a Element<E>>)
    ensures
        views(out@) == rule_symbols(rule@),
{
    let prods = rule.prods();
    let mut out: Vec<&'a Element<E>> = Vec::new();
    let mut j: usize = 0;
    assert(symbols_by_prod(rule@.prods.take(0)) =~= Seq::empty());
    assert(views(out@) =~= Seq::<Seq<ElementSpec<E>>>::empty().flatten());
    while j < prods.len()
        invariant
            j <= prods.len(),
            views(prods@) == rule@.prods,
            views(out@) == symbols_by_prod(rule@.prods.take(j as int)).flatten(),
        decreases prods.len() - j,
    {
        let mut symbols = prods[j].elements_iter();
        let ghost before = out@;
        let ghost added = symbols@;
        out.append(&mut symbols);
        proof {
            let done = symbols_by_prod(rule@.prods.take(j as int));
            let this = symbols_by_prod(rule@.prods)[j as int];
            assert(views(added) == this);
            assert(views(before + added) =~= views(before) + views(added));
            assert(symbols_by_prod(rule@.prods.take(j + 1)) =~= done.push(this));
            done.lemma_flatten_push(this);
        }
        j += 1;
    }
    assert(rule@.prods.take(j as int) =~= rule@.prods);
    out
}

/// All right-hand-side symbols of the rules, rule after rule.
pub fn get_elements<'a, E: ElementTypes>(rules: &'a Vec<Rule<E>>) -> (out: Vec<&'a Element<E>>)
    ensures
        views(out@) == symbols_of(views(rules@)),
{
    let mut out: Vec<&'a Element<E>> = Vec::new();
    let mut i: usize = 0;
    assert(symbols_by_rule(views(rules@).take(0)) =~= Seq::empty());
    assert(views(out@) =~= Seq::<Seq<ElementSpec<E>>>::empty().flatten());
    while i < rules.len()
        invariant
            i <= rules.len(),
            views(out@) == symbols_of(views(rules@).take(i as int)),
        decreases rules.len() - i,
    {
        let mut symbols = rule_elements(&rules[i]);
        let ghost before = out@;
        let ghost added = symbols@;
        out.append(&mut symbols);
        proof {
            let done = symbols_by_rule(views(rules@).take(i as int));
            let this = symbols_by_rule(views(rules@))[i as int];
            assert(views(added) == this);
            assert(views(before + added) =~= views(before) + views(added));
            assert(symbols_by_rule(views(rules@).take(i + 1)) =~= done.push(this));
            done.lemma_flatten_push(this);
        }
        i += 1;
    }
    assert(views(rules@).take(i as int) =~= views(rules@));
    out
}

/// The nonterminals among some symbols, in the order of the symbols and as
/// often as they occur.
pub fn nonterminals_among<'a, E: ElementTypes>(symbols: &Vec<&'a Element<E>>) -> (out: Vec<
    &'a E::NonTerm,
>)
    ensures
        views(out@) == nonterms_in(views(symbols@)),
        out.len() <= symbols.len(),
        forall|nt: NonTermId<E>|
            views(out@).contains(nt) <==> views(symbols@).contains(ElementSpec::<E>::NonTerm(nt)),
{
    let mut out: Vec<&'a E::NonTerm> = Vec::new();
    let mut q: usize = 0;
    proof {
        assert(views(symbols@).take(0) =~= Seq::empty());
        assert(views(out@) =~= nonterms_in(views(symbols@).take(0)));
    }
    while q < symbols.len()
        invariant
            q <= symbols.len(),
            out.len() <= q,
            views(out@) == nonterms_in(views(symbols@).take(q as int)),
            forall|nt: NonTermId<E>|
                views(out@).contains(nt) <==> views(symbols@).take(q as int).contains(
                    ElementSpec::<E>::NonTerm(nt),
                ),
        decreases symbols.len() - q,
    {
        let ghost before = views(out@);
        let ghost seen = views(symbols@).take(q as int);
        let ghost this = views(symbols@)[q as int];
        proof {
            assert(views(symbols@).take(q + 1) =~= seen.push(this));
            assert(seen.push(this).drop_last() =~= seen);
            assert(seen.push(this).last() == this);
            assert(this == symbols[q as int]@);
        }
        match symbols[q] {
            Element::NonTerm(nt) => {
                out.push(nt);
                proof {
                    assert(views(out@) =~= before.push(nt@));
                    assert forall|x: NonTermId<E>|
                        views(out@).contains(x) <==> seen.push(this).contains(
                            ElementSpec::<E>::NonTerm(x),
                        ) by {
                        lemma_push_contains(before, nt@, x);
                        lemma_push_contains(seen, this, ElementSpec::<E>::NonTerm(x));
                    }
                }
            },
            Element::Term(_) => {
                proof {
                    assert forall|x: NonTermId<E>|
                        views(out@).contains(x) <==> seen.push(this).contains(
                            ElementSpec::<E>::NonTerm(x),
                        ) by {
                        lemma_push_contains(seen, this, ElementSpec::<E>::NonTerm(x));
                    }
                }
            },
        }
        q += 1;
    }
    assert(views(symbols@).take(q as int) =~= views(symbols@));
    out
}

/// Whatever one expansion yields from a reachable nonterminal is reachable.
pub proof fn lemma_reachable_step<E: ElementTypes>(
    g: GrammarSpec<E>,
    from: NonTermId<E>,
    to: NonTermId<E>,
)
    requires
        g.reachable(from),
        g.expands_to(from, to),
    ensures
        g.reachable(to),
{
    let n = choose|n: nat| g.reachable_within(from, n);
    assert(g.reachable_within(to, n + 1));
}

/// The reachable nonterminals lie in every set that holds the start
/// nonterminal and is closed under expansion.
pub proof fn lemma_reachable_least<E: ElementTypes>(
    g: GrammarSpec<E>,
    s: Set<NonTermId<E>>,
    nt: NonTermId<E>,
    n: nat,
)
    requires
        s.contains(g.start),
        forall|from: NonTermId<E>, to: NonTermId<E>|
            s.contains(from) && #[trigger] g.expands_to(from, to) ==> s.contains(to),
        g.reachable_within(nt, n),
    ensures
        s.contains(nt),
    decreases n,
{
    if n > 0 {
        if g.reachable_within(nt, (n - 1) as nat) {
            lemma_reachable_least(g, s, nt, (n - 1) as nat);
        } else {
            let from = choose|from: NonTermId<E>|
                g.reachable_within(from, (n - 1) as nat) && #[trigger] g.expands_to(from, nt);
            lemma_reachable_least(g, s, from, (n - 1) as nat);
        }
    }
}

/// Grammars with the same start nonterminal and the same rules reach the
/// same nonterminals within the same number of expansions.
proof fn lemma_same_reach<E: ElementTypes>(a: GrammarSpec<E>, b: GrammarSpec<E>, n: nat)
    requires
        a.start == b.start,
        a.rules == b.rules,
    ensures
        forall|nt: NonTermId<E>| a.reachable_within(nt, n) ==> b.reachable_within(nt, n),
    decreases n,
{
    if n > 0 {
        lemma_same_reach(a, b, (n - 1) as nat);
        assert forall|nt: NonTermId<E>| a.reachable_within(nt, n) implies b.reachable_within(
            nt,
            n,
        ) by {
            if !a.reachable_within(nt, (n - 1) as nat) {
                let from = choose|from: NonTermId<E>|
                    a.reachable_within(from, (n - 1) as nat) && #[trigger] a.expands_to(from, nt);
                let (i, j, k) = choose|i: int, j: int, k: int| a.edge_at(from, nt, i, j, k);
                assert(b.edge_at(from, nt, i, j, k));
                assert(b.reachable_within(from, (n - 1) as nat) && b.expands_to(from, nt));
            }
        }
    }
}

/// The structural defects of a grammar depend on its start nonterminal and
/// its rules alone.
pub proof fn lemma_same_rules<E: ElementTypes>(a: GrammarSpec<E>, b: GrammarSpec<E>)
    requires
        a.start == b.start,
        a.rules == b.rules,
    ensures
        a.structural_errors() == b.structural_errors(),
        a.distinct_heads() == b.distinct_heads(),
        a.sorted_heads() == b.sorted_heads(),
        a.well_formed() == b.well_formed(),
{
    assert forall|nt: NonTermId<E>| a.reachable(nt) == b.reachable(nt) by {
        if a.reachable(nt) {
            let n = choose|n: nat| a.reachable_within(nt, n);
            lemma_same_reach(a, b, n);
            assert(b.reachable_within(nt, n));
        }
        if b.reachable(nt) {
            let n = choose|n: nat| b.reachable_within(nt, n);
            lemma_same_reach(b, a, n);
            assert(a.reachable_within(nt, n));
        }
    }
    assert forall|nt: NonTermId<E>| a.mentions(nt) == b.mentions(nt) by {
        lemma_mentions(a, nt);
        lemma_mentions(b, nt);
    }
    assert forall|nt: NonTermId<E>| a.lacks_prods(nt) == b.lacks_prods(nt) by {
        if a.lacks_prods(nt) {
            let i = choose|i: int| a.empty_rule_at(nt, i);
            assert(b.empty_rule_at(nt, i));
        }
        if b.lacks_prods(nt) {
            let i = choose|i: int| b.empty_rule_at(nt, i);
            assert(a.empty_rule_at(nt, i));
        }
    }
    assert(a.unreachable_nonterms() =~= b.unreachable_nonterms());
    assert(a.nonterms_without_rules() =~= b.nonterms_without_rules());
    assert(a.rules_without_prods() =~= b.rules_without_prods());
    if a.distinct_heads() {
        assert forall|x: int, y: int| b.is_rule(x) && b.is_rule(y) && x != y implies (
        #[trigger] b.rules[x]).head != (#[trigger] b.rules[y]).head by {
            assert(a.is_rule(x) && a.is_rule(y));
        }
    }
    if b.distinct_heads() {
        assert forall|x: int, y: int| a.is_rule(x) && a.is_rule(y) && x != y implies (
        #[trigger] a.rules[x]).head != (#[trigger] a.rules[y]).head by {
            assert(b.is_rule(x) && b.is_rule(y));
        }
    }
}

/// Distinct nonterminals that are the start nonterminal or used on a
/// right-hand side are at most one more than there are symbols.
proof fn lemma_candidates_bounded<E: ElementTypes>(g: GrammarSpec<E>, seen: Seq<NonTermId<E>>)
    requires
        seen.no_duplicates(),
        forall|q: int|
            0 <= q < seen.len() ==> (#[trigger] seen[q]) == g.start || g.symbols().contains(
                ElementSpec::<E>::NonTerm(seen[q]),
            ),
    ensures
        seen.len() <= 1 + g.symbols().len(),
{
    let items = seen.map_values(|nt: NonTermId<E>| ElementSpec::<E>::NonTerm(nt));
    let universe = seq![ElementSpec::<E>::NonTerm(g.start)] + g.symbols();
    assert forall|q: int| 0 <= q < items.len() implies universe.contains(#[trigger] items[q]) by {
        if seen[q] == g.start {
            assert(universe[0] == items[q]);
        } else {
            let at = choose|at: int|
                0 <= at < g.symbols().len() && g.symbols()[at] == ElementSpec::<E>::NonTerm(seen[q]);
            assert(universe[at + 1] == items[q]);
        }
    }
    assert forall|a: int, b: int| 0 <= a < items.len() && 0 <= b < items.len() && a != b implies items[a]
        != items[b] by {
        assert(seen[a] != seen[b]);
    }
    lemma_distinct_bounded(items, universe);
}

/// The rule at `i` is the only rule of its head, so what its head expands to
/// are the nonterminals among its symbols.
proof fn lemma_expands_by_rule<E: ElementTypes>(g: GrammarSpec<E>, i: int, to: NonTermId<E>)
    requires
        g.distinct_heads(),
        g.is_rule(i),
    ensures
        g.expands_to(g.rules[i].head, to) <==> rule_symbols(g.rules[i]).contains(
            ElementSpec::<E>::NonTerm(to),
        ),
{
    let from = g.rules[i].head;
    let e = ElementSpec::<E>::NonTerm(to);
    lemma_rule_symbols(g.rules[i], e);
    if g.expands_to(from, to) {
        let (a, j, k) = choose|a: int, j: int, k: int| g.edge_at(from, to, a, j, k);
        assert(a == i);
        assert(g.rules[i].prods[j].elements[k].element == e);
    }
    if rule_symbols(g.rules[i]).contains(e) {
        let (j, k) = choose|j: int, k: int|
            0 <= j < g.rules[i].prods.len() && 0 <= k < g.rules[i].prods[j].elements.len() && (
            #[trigger] g.rules[i].prods[j].elements[k]).element == e;
        assert(g.edge_at(from, to, i, j, k));
    }
}

/// The nonterminals that repeated expansion reaches from `start`, each once,
/// in the order of a breadth-first search.
pub(crate) fn reachable_nonterms<E: ElementTypes>(
    start: &E::NonTerm,
    rules: &Vec<Rule<E>>,
    Ghost(g): Ghost<GrammarSpec<E>>,
) -> (seen: Vec<E::NonTerm>)
    requires
        g.start == start@,
        g.rules == views(rules@),
        g.distinct_heads(),
    ensures
        views(seen@).no_duplicates(),
        forall|nt: NonTermId<E>| views(seen@).contains(nt) <==> g.reachable(nt),
{
    let mut seen: Vec<E::NonTerm> = Vec::new();
    seen.push(start.duplicate());
    let mut next: usize = 0;
    let ghost mut done: Set<NonTermId<E>> = Set::empty();
    proof {
        assert(g.reachable_within(g.start, 0));
        assert(views(seen@) =~= seq![g.start]);
        assert(views(seen@)[0] == g.start);
    }
    while next < seen.len()
        invariant
            g.start == start@,
            g.rules == views(rules@),
            g.distinct_heads(),
            next <= seen.len(),
            views(seen@).no_duplicates(),
            views(seen@).contains(g.start),
            forall|nt: NonTermId<E>| views(seen@).contains(nt) ==> g.reachable(nt),
            forall|nt: NonTermId<E>|
                views(seen@).contains(nt) ==> nt == g.start || g.symbols().contains(
                    ElementSpec::<E>::NonTerm(nt),
                ),
            forall|q: int| 0 <= q < next ==> done.contains(#[trigger] views(seen@)[q]),
            forall|from: NonTermId<E>, to: NonTermId<E>|
                done.contains(from) && #[trigger] g.expands_to(from, to) ==> views(seen@).contains(
                    to,
                ),
        decreases 1 + g.symbols().len() - next,
    {
        proof {
            assert forall|q: int| 0 <= q < views(seen@).len() implies (#[trigger] views(seen@)[q])
                == g.start || g.symbols().contains(ElementSpec::<E>::NonTerm(views(seen@)[q])) by {
                assert(views(seen@).contains(views(seen@)[q]));
            }
            lemma_candidates_bounded(g, views(seen@));
        }
        let node = seen[next].duplicate();
        let ghost from = node@;
        assert(views(seen@)[next as int] == from);
        assert(views(seen@).contains(from));
        match find_rule(rules, &node) {
            Some(i) => {
                let symbols = rule_elements(&rules[i]);
                let ghost before = views(seen@);
                let mut k: usize = 0;
                while k < symbols.len()
                    invariant
                        k <= symbols.len(),
                        g.rules == views(rules@),
                        i < rules.len(),
                        g.rules[i as int].head == from,
                        g.distinct_heads(),
                        views(symbols@) == rule_symbols(g.rules[i as int]),
                        g.reachable(from),
                        next < before.len() <= seen.len(),
                        views(seen@).take(before.len() as int) == before,
                        forall|nt: NonTermId<E>| before.contains(nt) ==> views(seen@).contains(nt),
                        views(seen@).no_duplicates(),
                        forall|nt: NonTermId<E>| views(seen@).contains(nt) ==> g.reachable(nt),
                        forall|nt: NonTermId<E>|
                            views(seen@).contains(nt) ==> nt == g.start || g.symbols().contains(
                                ElementSpec::<E>::NonTerm(nt),
                            ),
                        forall|q: int|
                            0 <= q < k ==> match #[trigger] views(symbols@)[q] {
                                ElementSpec::NonTerm(nt) => views(seen@).contains(nt),
                                ElementSpec::Term(_) => true,
                            },
                    decreases symbols.len() - k,
                {
                    match symbols[k] {
                        Element::NonTerm(to) => {
                            let ghost old_seen = views(seen@);
                            let added = insert_new(&mut seen, to);
                            proof {
                                let e = ElementSpec::<E>::NonTerm(to@);
                                assert(views(symbols@)[k as int] == e);
                                assert(rule_symbols(g.rules[i as int]).contains(e));
                                lemma_expands_by_rule(g, i as int, to@);
                                lemma_reachable_step(g, from, to@);
                                lemma_rule_symbols(g.rules[i as int], e);
                                let (j, kk) = choose|j: int, kk: int|
                                    0 <= j < g.rules[i as int].prods.len() && 0 <= kk
                                        < g.rules[i as int].prods[j].elements.len() && (
                                    #[trigger] g.rules[i as int].prods[j].elements[kk]).element
                                        == e;
                                assert(g.nonterm_at(to@, i as int, j, kk));
                                lemma_mentions(g, to@);
                                assert forall|nt: NonTermId<E>| #[trigger]
                                    views(seen@).contains(nt) <==> old_seen.contains(nt) || nt
                                        == to@ by {
                                    assert(views(seen@).to_set().contains(nt) <==> old_seen.to_set().insert(
                                        to@,
                                    ).contains(nt));
                                }
                                assert(views(seen@).take(before.len() as int) =~= before);
                            }
                        },
                        Element::Term(_) => {},
                    }
                    k += 1;
                }
                proof {
                    assert forall|to: NonTermId<E>| #[trigger]
                        g.expands_to(from, to) implies views(seen@).contains(to) by {
                        lemma_expands_by_rule(g, i as int, to);
                        let e = ElementSpec::<E>::NonTerm(to);
                        let q = choose|q: int|
                            0 <= q < views(symbols@).len() && views(symbols@)[q] == e;
                        assert(views(symbols@)[q] == e);
                    }
                    assert forall|q: int| 0 <= q <= next implies #[trigger] views(seen@)[q]
                        == before[q] by {
                        assert(views(seen@).take(before.len() as int)[q] == views(seen@)[q]);
                    }
                }
            },
            None => {
                proof {
                    assert forall|to: NonTermId<E>| !#[trigger] g.expands_to(from, to) by {
                        if g.expands_to(from, to) {
                            let (a, j, k) = choose|a: int, j: int, k: int|
                                g.edge_at(from, to, a, j, k);
                            assert(rules[a]@.head == from);
                        }
                    }
                }
            },
        }
        proof {
            done = done.insert(from);
        }
        next += 1;
    }
    proof {
        let s = views(seen@).to_set();
        assert forall|from: NonTermId<E>, to: NonTermId<E>|
            s.contains(from) && #[trigger] g.expands_to(from, to) implies s.contains(to) by {
            let q = choose|q: int| 0 <= q < views(seen@).len() && views(seen@)[q] == from;
            assert(done.contains(views(seen@)[q]));
        }
        assert forall|nt: NonTermId<E>| g.reachable(nt) implies views(seen@).contains(nt) by {
            let n = choose|n: nat| g.reachable_within(nt, n);
            lemma_reachable_least(g, s, nt, n);
        }
    }
    seen
}

/// What heads a sequence of rules has after one more rule was appended.
pub proof fn lemma_push_has_head<E: ElementTypes>(
    rules: Seq<RuleSpec<E>>,
    last: RuleSpec<E>,
    head: NonTermId<E>,
)
    ensures
        has_head(rules.push(last), head) <==> has_head(rules, head) || last.head == head,
{
    if has_head(rules, head) {
        let i = choose|i: int| 0 <= i < rules.len() && (#[trigger] rules[i]).head == head;
        assert(rules.push(last)[i].head == head);
    }
    if last.head == head {
        assert(rules.push(last)[rules.len() as int].head == head);
    }
}

/// Rules in ascending order of their heads have pairwise different heads.
pub proof fn lemma_sorted_heads_distinct<E: ElementTypes>(g: GrammarSpec<E>)
    requires
        g.sorted_heads(),
    ensures
        g.distinct_heads(),
{
    lemma_ascending_distinct::<E::NonTerm>(heads_of(g.rules));
    assert forall|a: int, b: int| g.is_rule(a) && g.is_rule(b) && a != b implies (
    #[trigger] g.rules[a]).head != (#[trigger] g.rules[b]).head by {
        assert(heads_of(g.rules)[a] != heads_of(g.rules)[b]);
    }
}

/// Where the heads before a place come before `head` and the heads from the
/// place on do not, the place is the rank of `head`.
pub proof fn lemma_rank_of<E: ElementTypes>(rules: Seq<RuleSpec<E>>, head: NonTermId<E>, p: int)
    requires
        0 <= p <= rules.len(),
        forall|i: int| 0 <= i < p ==> nt_before::<E>((#[trigger] rules[i]).head, head),
        forall|i: int| p <= i < rules.len() ==> !nt_before::<E>((#[trigger] rules[i]).head, head),
    ensures
        rank_of(rules, head) == p,
    decreases rules.len(),
{
    if rules.len() > 0 {
        let front = rules.drop_last();
        if p == rules.len() {
            assert forall|i: int| 0 <= i < p - 1 implies nt_before::<E>(
                (#[trigger] front[i]).head,
                head,
            ) by {
                assert(front[i] == rules[i]);
            }
            lemma_rank_of(front, head, p - 1);
            assert(nt_before::<E>(rules[p - 1].head, head));
        } else {
            assert forall|i: int| 0 <= i < p implies nt_before::<E>((#[trigger] front[i]).head, head) by {
                assert(front[i] == rules[i]);
            }
            assert forall|i: int| p <= i < front.len() implies !nt_before::<E>(
                (#[trigger] front[i]).head,
                head,
            ) by {
                assert(front[i] == rules[i]);
            }
            lemma_rank_of(front, head, p);
            assert(!nt_before::<E>(rules[rules.len() - 1].head, head));
        }
    }
}

/// In rules that are in ascending order of their heads there is a place
/// before which all heads come before `head` and from which on none does.
pub proof fn lemma_place_exists<E: ElementTypes>(rules: Seq<RuleSpec<E>>, head: NonTermId<E>) -> (p:
    int)
    requires
        ascending::<E::NonTerm>(heads_of(rules)),
    ensures
        0 <= p <= rules.len(),
        forall|i: int| 0 <= i < p ==> nt_before::<E>((#[trigger] rules[i]).head, head),
        forall|i: int| p <= i < rules.len() ==> !nt_before::<E>((#[trigger] rules[i]).head, head),
        rank_of(rules, head) == p,
    decreases rules.len(),
{
    let heads = heads_of(rules);
    let p = if rules.len() == 0 {
        0
    } else {
        let front = rules.drop_last();
        let last = rules.len() - 1;
        assert forall|a: int, b: int| 0 <= a < b < front.len() implies <E::NonTerm as Ordered>::before(
            #[trigger] heads_of(front)[a],
            #[trigger] heads_of(front)[b],
        ) by {
            assert(<E::NonTerm as Ordered>::before(heads[a], heads[b]));
        }
        let q = lemma_place_exists(front, head);
        if q < front.len() {
            assert(front[q] == rules[q]);
            if nt_before::<E>(rules[last].head, head) {
                assert(<E::NonTerm as Ordered>::before(heads[q], heads[last]));
                <E::NonTerm as Ordered>::lemma_before_transitive(heads[q], heads[last], head);
            }
            q
        } else if nt_before::<E>(rules[last].head, head) {
            last + 1
        } else {
            last
        }
    };
    assert forall|i: int| 0 <= i < p implies nt_before::<E>((#[trigger] rules[i]).head, head) by {
        if i < rules.len() - 1 {
            assert(rules.drop_last()[i] == rules[i]);
        }
    }
    assert forall|i: int| p <= i < rules.len() implies !nt_before::<E>(
        (#[trigger] rules[i]).head,
        head,
    ) by {
        if i < rules.len() - 1 {
            assert(rules.drop_last()[i] == rules[i]);
        }
    }
    lemma_rank_of(rules, head, p);
    p
}

/// Putting a rule into rules that are in ascending order of their heads
/// leaves them so; the result holds the rule and, of the rules that were
/// there, those with another head.
pub proof fn lemma_with_rule<E: ElementTypes>(rules: Seq<RuleSpec<E>>, rule: RuleSpec<E>)
    requires
        ascending::<E::NonTerm>(heads_of(rules)),
    ensures
        ascending::<E::NonTerm>(heads_of(with_rule(rules, rule))),
        forall|x: RuleSpec<E>|
            #[trigger] with_rule(rules, rule).contains(x) <==> x == rule || (rules.contains(x)
                && x.head != rule.head),
{
    let p = lemma_place_exists(rules, rule.head);
    let heads = heads_of(rules);
    let out = with_rule(rules, rule);
    lemma_ascending_distinct::<E::NonTerm>(heads);
    if p < rules.len() && rules[p].head == rule.head {
        assert(heads_of(out) =~= heads);
        assert forall|x: RuleSpec<E>| #[trigger]
            out.contains(x) <==> x == rule || (rules.contains(x) && x.head != rule.head) by {
            if out.contains(x) {
                let i = choose|i: int| 0 <= i < out.len() && out[i] == x;
                if i != p {
                    assert(rules[i] == x);
                    assert(heads[i] != heads[p]);
                }
            }
            if rules.contains(x) && x.head != rule.head {
                let i = choose|i: int| 0 <= i < rules.len() && rules[i] == x;
                assert(out[i] == x);
            }
            if x == rule {
                assert(out[p] == x);
            }
        }
    } else {
        if p < rules.len() {
            <E::NonTerm as Ordered>::lemma_before_total(rule.head, heads[p]);
            assert(heads[p] == rules[p].head);
        }
        assert forall|i: int| 0 <= i < p implies <E::NonTerm as Ordered>::before(
            #[trigger] heads[i],
            rule.head,
        ) by {
            assert(heads[i] == rules[i].head);
        }
        lemma_ascending_insert::<E::NonTerm>(heads, p, rule.head);
        assert(heads_of(out) =~= heads.insert(p, rule.head));
        assert forall|x: RuleSpec<E>| #[trigger]
            out.contains(x) <==> x == rule || (rules.contains(x) && x.head != rule.head) by {
            if out.contains(x) {
                let i = choose|i: int| 0 <= i < out.len() && out[i] == x;
                if i < p {
                    assert(rules[i] == x);
                    assert(heads[i] == x.head);
                    assert(heads.contains(x.head));
                } else if i > p {
                    assert(rules[i - 1] == x);
                    assert(heads[i - 1] == x.head);
                    assert(heads.contains(x.head));
                }
            }
            if rules.contains(x) && x.head != rule.head {
                let i = choose|i: int| 0 <= i < rules.len() && rules[i] == x;
                if i < p {
                    assert(out[i] == x);
                } else {
                    assert(out[i + 1] == x);
                }
            }
            if x == rule {
                assert(out[p] == x);
            }
        }
    }
}

/// `x` is among `rules`, and no rule after it has its head.
pub open spec fn is_last_of_head<E: ElementTypes>(rules: Seq<RuleSpec<E>>, x: RuleSpec<E>) -> bool {
    exists|i: int|
        0 <= i < rules.len() && #[trigger] rules[i] == x && forall|j: int|
            i < j < rules.len() ==> (#[trigger] rules[j]).head != x.head
}

/// The rule set that some rules make is in ascending order of its heads and
/// holds, for each head, the last rule that was given for it, and nothing
/// else.
pub proof fn lemma_sorted_rules<E: ElementTypes>(rules: Seq<RuleSpec<E>>)
    ensures
        ascending::<E::NonTerm>(heads_of(sorted_rules(rules))),
        forall|x: RuleSpec<E>| #[trigger] sorted_rules(rules).contains(x) <==> is_last_of_head(rules, x),
    decreases rules.len(),
{
    if rules.len() == 0 {
        assert(heads_of(sorted_rules(rules)) =~= Seq::empty());
    } else {
        let front = rules.drop_last();
        let last = rules.last();
        lemma_sorted_rules(front);
        lemma_with_rule(sorted_rules(front), last);
        assert forall|x: RuleSpec<E>| #[trigger]
            sorted_rules(rules).contains(x) <==> is_last_of_head(rules, x) by {
            if is_last_of_head(rules, x) {
                let i = choose|i: int|
                    0 <= i < rules.len() && #[trigger] rules[i] == x && forall|j: int|
                        i < j < rules.len() ==> (#[trigger] rules[j]).head != x.head;
                if i < rules.len() - 1 {
                    assert(rules[rules.len() - 1].head != x.head);
                    assert(front[i] == x);
                    assert forall|j: int| i < j < front.len() implies (#[trigger] front[j]).head
                        != x.head by {
                        assert(front[j] == rules[j]);
                    }
                    assert(is_last_of_head(front, x));
                }
            }
            if sorted_rules(rules).contains(x) {
                if x == last {
                    assert(rules[rules.len() - 1] == x);
                } else {
                    assert(is_last_of_head(front, x));
                    let i = choose|i: int|
                        0 <= i < front.len() && #[trigger] front[i] == x && forall|j: int|
                            i < j < front.len() ==> (#[trigger] front[j]).head != x.head;
                    assert(rules[i] == x);
                    assert forall|j: int| i < j < rules.len() implies (#[trigger] rules[j]).head
                        != x.head by {
                        if j < front.len() {
                            assert(front[j] == rules[j]);
                        }
                    }
                }
            }
        }
    }
}

/// Rules in ascending order of their heads are determined by which rules
/// they are.
pub proof fn lemma_ascending_rules_unique<E: ElementTypes>(a: Seq<RuleSpec<E>>, b: Seq<RuleSpec<E>>)
    requires
        ascending::<E::NonTerm>(heads_of(a)),
        ascending::<E::NonTerm>(heads_of(b)),
        forall|x: RuleSpec<E>| a.contains(x) <==> b.contains(x),
    ensures
        a == b,
    decreases a.len(),
{
    if a.len() == 0 {
        if b.len() > 0 {
            assert(b.contains(b[0]));
        }
        assert(a =~= b);
    } else if b.len() == 0 {
        assert(a.contains(a[0]));
    } else {
        let la = a.last();
        let lb = b.last();
        assert(a.contains(la));
        assert(b.contains(lb));
        let ia = choose|i: int| 0 <= i < a.len() && a[i] == lb;
        let ib = choose|i: int| 0 <= i < b.len() && b[i] == la;
        <E::NonTerm as Ordered>::lemma_before_irreflexive(la.head);
        if ia < a.len() - 1 && ib < b.len() - 1 {
            assert(<E::NonTerm as Ordered>::before(heads_of(a)[ia], heads_of(a)[a.len() - 1]));
            assert(<E::NonTerm as Ordered>::before(heads_of(b)[ib], heads_of(b)[b.len() - 1]));
            <E::NonTerm as Ordered>::lemma_before_transitive(la.head, lb.head, la.head);
        }
        if ia < a.len() - 1 && ib == b.len() - 1 {
            assert(<E::NonTerm as Ordered>::before(heads_of(a)[ia], heads_of(a)[a.len() - 1]));
        }
        if ib < b.len() - 1 && ia == a.len() - 1 {
            assert(<E::NonTerm as Ordered>::before(heads_of(b)[ib], heads_of(b)[b.len() - 1]));
        }
        assert(la == lb);
        let fa = a.drop_last();
        let fb = b.drop_last();
        lemma_ascending_distinct::<E::NonTerm>(heads_of(a));
        lemma_ascending_distinct::<E::NonTerm>(heads_of(b));
        assert forall|x: int, y: int| 0 <= x < y < fa.len() implies <E::NonTerm as Ordered>::before(
            #[trigger] heads_of(fa)[x],
            #[trigger] heads_of(fa)[y],
        ) by {
            assert(<E::NonTerm as Ordered>::before(heads_of(a)[x], heads_of(a)[y]));
        }
        assert forall|x: int, y: int| 0 <= x < y < fb.len() implies <E::NonTerm as Ordered>::before(
            #[trigger] heads_of(fb)[x],
            #[trigger] heads_of(fb)[y],
        ) by {
            assert(<E::NonTerm as Ordered>::before(heads_of(b)[x], heads_of(b)[y]));
        }
        assert forall|x: RuleSpec<E>| fa.contains(x) <==> fb.contains(x) by {
            if fa.contains(x) {
                let i = choose|i: int| 0 <= i < fa.len() && fa[i] == x;
                assert(a[i] == x);
                assert(heads_of(a)[i] != heads_of(a)[a.len() - 1]);
                assert(b.contains(x));
                let k = choose|k: int| 0 <= k < b.len() && b[k] == x;
                assert(fb[k] == x);
            }
            if fb.contains(x) {
                let i = choose|i: int| 0 <= i < fb.len() && fb[i] == x;
                assert(b[i] == x);
                assert(heads_of(b)[i] != heads_of(b)[b.len() - 1]);
                assert(a.contains(x));
                let k = choose|k: int| 0 <= k < a.len() && a[k] == x;
                assert(fa[k] == x);
            }
        }
        lemma_ascending_rules_unique(fa, fb);
        assert(a =~= fa.push(la));
        assert(b =~= fb.push(lb));
    }
}

/// The rule set that some rules make does not depend on the order in which
/// they are given, as long as the same rule is the last of its head.
pub proof fn lemma_rule_order_irrelevant<E: ElementTypes>(a: Seq<RuleSpec<E>>, b: Seq<RuleSpec<E>>)
    requires
        forall|x: RuleSpec<E>| is_last_of_head(a, x) <==> is_last_of_head(b, x),
    ensures
        sorted_rules(a) == sorted_rules(b),
{
    lemma_sorted_rules(a);
    lemma_sorted_rules(b);
    assert forall|x: RuleSpec<E>| sorted_rules(a).contains(x) <==> sorted_rules(b).contains(x) by {
        assert(sorted_rules(a).contains(x) <==> is_last_of_head(a, x));
        assert(sorted_rules(b).contains(x) <==> is_last_of_head(b, x));
    }
    lemma_ascending_rules_unique(sorted_rules(a), sorted_rules(b));
}

/// The same rules with pairwise different heads make the same rule set in
/// whatever order they are given.
pub proof fn lemma_rule_set_of_permutation<E: ElementTypes>(a: Seq<RuleSpec<E>>, b: Seq<RuleSpec<E>>)
    requires
        heads_of(a).no_duplicates(),
        heads_of(b).no_duplicates(),
        forall|x: RuleSpec<E>| a.contains(x) <==> b.contains(x),
    ensures
        sorted_rules(a) == sorted_rules(b),
{
    assert forall|x: RuleSpec<E>| is_last_of_head(a, x) <==> is_last_of_head(b, x) by {
        lemma_last_where_distinct(a, x);
        lemma_last_where_distinct(b, x);
    }
    lemma_rule_order_irrelevant(a, b);
}

/// Among rules with pairwise different heads every rule is the last of its
/// head.
proof fn lemma_last_where_distinct<E: ElementTypes>(rules: Seq<RuleSpec<E>>, x: RuleSpec<E>)
    requires
        heads_of(rules).no_duplicates(),
    ensures
        is_last_of_head(rules, x) <==> rules.contains(x),
{
    if rules.contains(x) {
        let i = choose|i: int| 0 <= i < rules.len() && rules[i] == x;
        assert forall|j: int| i < j < rules.len() implies (#[trigger] rules[j]).head != x.head by {
            assert(heads_of(rules)[j] != heads_of(rules)[i]);
        }
        assert(rules[i] == x);
    }
}

/// Puts a rule into a rule set that is in ascending order of its heads: the
/// rule takes the place of the rule with the same head if there is one, and
/// else stands at the place of its head.
pub fn put_rule<E: ElementTypes>(rules: &mut Vec<Rule<E>>, rule: Rule<E>)
    requires
        ascending::<E::NonTerm>(heads_of(views(old(rules)@))),
    ensures
        ascending::<E::NonTerm>(heads_of(views(final(rules)@))),
        views(final(rules)@) == with_rule(views(old(rules)@), rule@),
{
    let ghost before = views(rules@);
    let ghost heads = heads_of(before);
    let ghost head = rule@.head;
    let mut p: usize = 0;
    while p < rules.len() && rules[p].head().precedes(rule.head())
        invariant
            p <= rules.len(),
            before == views(rules@),
            heads == heads_of(before),
            head == rule@.head,
            forall|i: int| 0 <= i < p ==> nt_before::<E>(#[trigger] heads[i], head),
        decreases rules.len() - p,
    {
        assert(heads[p as int] == rules[p as int]@.head);
        p += 1;
    }
    proof {
        if p < rules.len() {
            assert(heads[p as int] == rules[p as int]@.head);
            assert(!nt_before::<E>(heads[p as int], head));
        }
        assert forall|i: int| 0 <= i < p implies nt_before::<E>((#[trigger] before[i]).head, head) by {
            assert(heads[i] == before[i].head);
        }
        assert forall|i: int| p <= i < before.len() implies !nt_before::<E>(
            (#[trigger] before[i]).head,
            head,
        ) by {
            assert(heads[i] == before[i].head);
            if p < i && nt_before::<E>(heads[i], head) {
                assert(nt_before::<E>(heads[p as int], heads[i]));
                <E::NonTerm as Ordered>::lemma_before_transitive(heads[p as int], heads[i], head);
            }
        }
        lemma_rank_of(before, head, p as int);
    }
    if p < rules.len() && rules[p].head().matches(rule.head()) {
        rules[p] = rule;
        proof {
            assert(views(rules@) =~= before.update(p as int, rule@));
            assert(heads_of(views(rules@)) =~= heads);
        }
    } else {
        proof {
            if p < rules.len() {
                <E::NonTerm as Ordered>::lemma_before_total(head, heads[p as int]);
            }
            lemma_ascending_insert::<E::NonTerm>(heads, p as int, head);
        }
        rules.insert(p, rule);
        proof {
            assert(views(rules@) =~= before.insert(p as int, rule@));
            assert(heads_of(views(rules@)) =~= heads.insert(p as int, head));
        }
    }
}

/// The rule set that the given rules make: they are put in one after
/// another, each at the place of its head.
pub fn collect_rules<E: ElementTypes>(rule_set: Vec<Rule<E>>) -> (rules: Vec<Rule<E>>)
    ensures
        views(rules@) == sorted_rules(views(rule_set@)),
        ascending::<E::NonTerm>(heads_of(views(rules@))),
{
    let ghost given = views(rule_set@);
    let mut rules: Vec<Rule<E>> = Vec::new();
    proof {
        assert(given.take(0) =~= Seq::empty());
        assert(views(rules@) =~= sorted_rules(given.take(0)));
        assert(heads_of(views(rules@)) =~= Seq::empty());
    }
    for rule in it: rule_set
        invariant
            views(it.seq()) == given,
            ascending::<E::NonTerm>(heads_of(views(rules@))),
            views(rules@) == sorted_rules(given.take(it.index())),
    {
        proof {
            assert(given[it.index()] == rule@);
            assert(given.take(it.index() + 1).drop_last() =~= given.take(it.index()));
            assert(given.take(it.index() + 1).last() == rule@);
        }
        put_rule(&mut rules, rule);
    }
    proof {
        assert(given.take(given.len() as int) =~= given);
    }
    rules
}

/// The nonterminals that are used on a right-hand side and have no rule,
/// each once, in ascending order.
pub(crate) fn nonterminals_without_rules<E: ElementTypes>(
    rules: &Vec<Rule<E>>,
    Ghost(g): Ghost<GrammarSpec<E>>,
) -> (out: Vec<E::NonTerm>)
    requires
        g.rules == views(rules@),
    ensures
        ascending::<E::NonTerm>(views(out@)),
        views(out@).to_set() == g.nonterms_without_rules(),
{
    let symbols = get_elements(rules);
    let nts = nonterminals_among(&symbols);
    let mut out: Vec<E::NonTerm> = Vec::new();
    assert(views(out@) =~= Seq::<NonTermId<E>>::empty());
    let mut q: usize = 0;
    while q < nts.len()
        invariant
            q <= nts.len(),
            g.rules == views(rules@),
            ascending::<E::NonTerm>(views(out@)),
            forall|nt: NonTermId<E>| #[trigger]
                views(out@).contains(nt) <==> views(nts@).take(q as int).contains(nt)
                    && !g.has_rule(nt),
        decreases nts.len() - q,
    {
        let ghost before = views(out@);
        let ghost this = views(nts@)[q as int];
        proof {
            assert(views(nts@).take(q + 1) =~= views(nts@).take(q as int).push(this));
        }
        if find_rule(rules, nts[q]).is_none() {
            insert_sorted(&mut out, nts[q]);
            proof {
                assert forall|nt: NonTermId<E>| #[trigger]
                    views(out@).contains(nt) <==> views(nts@).take(q + 1).contains(nt)
                        && !g.has_rule(nt) by {
                    lemma_push_contains(views(nts@).take(q as int), this, nt);
                    assert(views(out@).to_set().contains(nt) <==> before.to_set().insert(
                        this,
                    ).contains(nt));
                    assert(before.contains(nt) <==> views(nts@).take(q as int).contains(nt)
                        && !g.has_rule(nt));
                }
            }
        } else {
            proof {
                assert forall|nt: NonTermId<E>| #[trigger]
                    views(out@).contains(nt) <==> views(nts@).take(q + 1).contains(nt)
                        && !g.has_rule(nt) by {
                    lemma_push_contains(views(nts@).take(q as int), this, nt);
                }
            }
        }
        q += 1;
    }
    proof {
        assert(views(nts@).take(q as int) =~= views(nts@));
        assert forall|nt: NonTermId<E>|
            views(out@).to_set().contains(nt) <==> g.nonterms_without_rules().contains(nt) by {
            lemma_mentions(g, nt);
            assert(views(out@).contains(nt) <==> views(nts@).contains(nt) && !g.has_rule(nt));
        }
        assert(views(out@).to_set() =~= g.nonterms_without_rules());
    }
    out
}

/// The heads of the rules that have no productions, each once, in ascending
/// order.
pub(crate) fn rules_without_prods<E: ElementTypes>(
    rules: &Vec<Rule<E>>,
    Ghost(g): Ghost<GrammarSpec<E>>,
) -> (out: Vec<E::NonTerm>)
    requires
        g.rules == views(rules@),
    ensures
        ascending::<E::NonTerm>(views(out@)),
        views(out@).to_set() == g.rules_without_prods(),
{
    let mut out: Vec<E::NonTerm> = Vec::new();
    assert(views(out@) =~= Seq::<NonTermId<E>>::empty());
    let mut i: usize = 0;
    while i < rules.len()
        invariant
            i <= rules.len(),
            g.rules == views(rules@),
            ascending::<E::NonTerm>(views(out@)),
            forall|nt: NonTermId<E>| #[trigger]
                views(out@).contains(nt) <==> exists|a: int| 0 <= a < i && g.empty_rule_at(nt, a),
        decreases rules.len() - i,
    {
        let ghost before = views(out@);
        let ghost head = rules[i as int]@.head;
        assert(g.rules[i as int] == rules[i as int]@);
        if rules[i].prods().len() == 0 {
            insert_sorted(&mut out, rules[i].head());
            proof {
                assert(g.empty_rule_at(head, i as int));
                assert forall|nt: NonTermId<E>| #[trigger]
                    views(out@).contains(nt) <==> exists|a: int|
                        0 <= a < i + 1 && g.empty_rule_at(nt, a) by {
                    assert(views(out@).to_set().contains(nt) <==> before.to_set().insert(
                        head,
                    ).contains(nt));
                    assert(before.contains(nt) <==> exists|a: int|
                        0 <= a < i && g.empty_rule_at(nt, a));
                    if exists|a: int| 0 <= a < i + 1 && g.empty_rule_at(nt, a) {
                        let a = choose|a: int| 0 <= a < i + 1 && g.empty_rule_at(nt, a);
                        if a < i {
                            assert(g.empty_rule_at(nt, a));
                        }
                    }
                }
            }
        } else {
            proof {
                assert forall|nt: NonTermId<E>| #[trigger]
                    views(out@).contains(nt) <==> exists|a: int|
                        0 <= a < i + 1 && g.empty_rule_at(nt, a) by {
                    if exists|a: int| 0 <= a < i + 1 && g.empty_rule_at(nt, a) {
                        let a = choose|a: int| 0 <= a < i + 1 && g.empty_rule_at(nt, a);
                        assert(a < i);
                    }
                }
            }
        }
        i += 1;
    }
    proof {
        assert forall|nt: NonTermId<E>|
            views(out@).to_set().contains(nt) <==> g.rules_without_prods().contains(nt) by {
            assert(views(out@).contains(nt) <==> exists|a: int|
                0 <= a < i && g.empty_rule_at(nt, a));
            if g.lacks_prods(nt) {
                let a = choose|a: int| g.empty_rule_at(nt, a);
                assert(0 <= a < i && g.empty_rule_at(nt, a));
            }
        }
        assert(views(out@).to_set() =~= g.rules_without_prods());
    }
    out
}

/// The nonterminals of the grammar that the start nonterminal does not
/// reach, each once, in ascending order.
pub(crate) fn unreachable_nonterms<E: ElementTypes>(
    start: &E::NonTerm,
    rules: &Vec<Rule<E>>,
    Ghost(g): Ghost<GrammarSpec<E>>,
) -> (out: Vec<E::NonTerm>)
    requires
        g.start == start@,
        g.rules == views(rules@),
        g.distinct_heads(),
    ensures
        ascending::<E::NonTerm>(views(out@)),
        views(out@).to_set() == g.unreachable_nonterms(),
{
    let reachable = reachable_nonterms(start, rules, Ghost(g));
    let mut out: Vec<E::NonTerm> = Vec::new();
    assert(views(out@) =~= Seq::<NonTermId<E>>::empty());
    let mut i: usize = 0;
    while i < rules.len()
        invariant
            i <= rules.len(),
            g.rules == views(rules@),
            ascending::<E::NonTerm>(views(out@)),
            forall|nt: NonTermId<E>| views(reachable@).contains(nt) <==> g.reachable(nt),
            forall|nt: NonTermId<E>| #[trigger]
                views(out@).contains(nt) <==> has_head(views(rules@).take(i as int), nt)
                    && !g.reachable(nt),
        decreases rules.len() - i,
    {
        let ghost before = views(out@);
        let ghost this = views(rules@)[i as int];
        proof {
            assert(views(rules@).take(i + 1) =~= views(rules@).take(i as int).push(this));
        }
        if position(&reachable, rules[i].head()).is_none() {
            insert_sorted(&mut out, rules[i].head());
            proof {
                assert forall|nt: NonTermId<E>| #[trigger]
                    views(out@).contains(nt) <==> has_head(views(rules@).take(i + 1), nt)
                        && !g.reachable(nt) by {
                    lemma_push_has_head(views(rules@).take(i as int), this, nt);
                    assert(views(out@).to_set().contains(nt) <==> before.to_set().insert(
                        this.head,
                    ).contains(nt));
                    assert(before.contains(nt) <==> has_head(views(rules@).take(i as int), nt)
                        && !g.reachable(nt));
                }
            }
        } else {
            proof {
                assert forall|nt: NonTermId<E>| #[trigger]
                    views(out@).contains(nt) <==> has_head(views(rules@).take(i + 1), nt)
                        && !g.reachable(nt) by {
                    lemma_push_has_head(views(rules@).take(i as int), this, nt);
                }
            }
        }
        i += 1;
    }
    proof {
        assert(views(rules@).take(i as int) =~= views(rules@));
    }
    let symbols = get_elements(rules);
    let nts = nonterminals_among(&symbols);
    let mut q: usize = 0;
    while q < nts.len()
        invariant
            q <= nts.len(),
            g.rules == views(rules@),
            ascending::<E::NonTerm>(views(out@)),
            forall|nt: NonTermId<E>| views(reachable@).contains(nt) <==> g.reachable(nt),
            forall|nt: NonTermId<E>| #[trigger]
                views(out@).contains(nt) <==> (g.has_rule(nt) || views(nts@).take(q as int).contains(
                    nt,
                )) && !g.reachable(nt),
        decreases nts.len() - q,
    {
        let ghost before = views(out@);
        let ghost this = views(nts@)[q as int];
        proof {
            assert(views(nts@).take(q + 1) =~= views(nts@).take(q as int).push(this));
        }
        if position(&reachable, nts[q]).is_none() {
            insert_sorted(&mut out, nts[q]);
            proof {
                assert forall|nt: NonTermId<E>| #[trigger]
                    views(out@).contains(nt) <==> (g.has_rule(nt) || views(nts@).take(
                        q + 1,
                    ).contains(nt)) && !g.reachable(nt) by {
                    lemma_push_contains(views(nts@).take(q as int), this, nt);
                    assert(views(out@).to_set().contains(nt) <==> before.to_set().insert(
                        this,
                    ).contains(nt));
                    assert(before.contains(nt) <==> (g.has_rule(nt) || views(nts@).take(
                        q as int,
                    ).contains(nt)) && !g.reachable(nt));
                }
            }
        } else {
            proof {
                assert forall|nt: NonTermId<E>| #[trigger]
                    views(out@).contains(nt) <==> (g.has_rule(nt) || views(nts@).take(
                        q + 1,
                    ).contains(nt)) && !g.reachable(nt) by {
                    lemma_push_contains(views(nts@).take(q as int), this, nt);
                }
            }
        }
        q += 1;
    }
    proof {
        assert(views(nts@).take(q as int) =~= views(nts@));
        assert forall|nt: NonTermId<E>|
            views(out@).to_set().contains(nt) <==> g.unreachable_nonterms().contains(nt) by {
            lemma_mentions(g, nt);
            assert(views(out@).contains(nt) <==> (g.has_rule(nt) || views(nts@).contains(nt))
                && !g.reachable(nt));
        }
        assert(views(out@).to_set() =~= g.unreachable_nonterms());
    }
    out
}

/// Looks for all three kinds of structural defects and reports every one found.
pub(crate) fn check_grammar<E: ElementTypes>(
    start: &E::NonTerm,
    rules: &Vec<Rule<E>>,
    Ghost(g): Ghost<GrammarSpec<E>>,
) -> (r: Result<(), GrammarErrors<E>>)
    requires
        g.start == start@,
        g.rules == views(rules@),
        g.distinct_heads(),
    ensures
        r is Ok <==> g.is_sound(),
        r matches Err(errors) ==> errors@ == g.structural_errors(),
{
    GrammarErrors::new(
        unreachable_nonterms(start, rules, Ghost(g)),
        nonterminals_without_rules(rules, Ghost(g)),
        rules_without_prods(rules, Ghost(g)),
    ).into_result()
}

} // verus!
