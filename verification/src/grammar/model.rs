//! The mathematical model of a grammar and of the notions defined on it:
//! which nonterminals have rules, which are reachable from the start symbol,
//! and which can derive the empty sequence.

use vstd::prelude::*;
use crate::grammar::ElementTypes;
use crate::utils::ascending;
use crate::utils::Ordered;
use crate::utils::TreeSpec;

verus! {

/// The identity of a terminal of the family `E`.
pub type TermId<E> = <<E as ElementTypes>::Term as View>::V;

/// The identity of a nonterminal of the family `E`.
pub type NonTermId<E> = <<E as ElementTypes>::NonTerm as View>::V;

/// The identity of an action key of the family `E`.
pub type ActionId<E> = <<E as ElementTypes>::ActionKey as View>::V;

/// A symbol: a terminal or a nonterminal.
pub enum ElementSpec<E: ElementTypes> {
    Term(TermId<E>),
    NonTerm(NonTermId<E>),
}

/// A symbol on a right-hand side, with the name it is bound to, if any.
pub struct ProdElementSpec<E: ElementTypes> {
    pub identifier: Option<Seq<char>>,
    pub element: ElementSpec<E>,
}

/// A production: its action key and its right-hand side, in match order.
pub struct ProductionSpec<E: ElementTypes> {
    pub action_key: ActionId<E>,
    pub elements: Seq<ProdElementSpec<E>>,
}

/// The pair that names one production of a grammar.
pub struct ProdKeySpec<E: ElementTypes> {
    pub head: NonTermId<E>,
    pub action_key: ActionId<E>,
}

/// A rule: a head and the productions of that head, in order.
pub struct RuleSpec<E: ElementTypes> {
    pub head: NonTermId<E>,
    pub prods: Seq<ProductionSpec<E>>,
}

/// A grammar: the start nonterminal, the rules and the action values.
pub struct GrammarSpec<E: ElementTypes> {
    pub start: NonTermId<E>,
    pub rules: Seq<RuleSpec<E>>,
    pub actions: Map<ActionId<E>, E::ActionValue>,
}

/// The structural defects of a grammar, each as the set of the nonterminals
/// that have it.
pub struct GrammarErrorsSpec<E: ElementTypes> {
    pub unreachable_nonterms: Set<NonTermId<E>>,
    pub nonterms_without_rules: Set<NonTermId<E>>,
    pub rules_without_prods: Set<NonTermId<E>>,
}

impl<E: ElementTypes> GrammarErrorsSpec<E> {
    /// No defect is recorded.
    pub open spec fn is_empty(self) -> bool {
        &&& self.unreachable_nonterms == Set::<NonTermId<E>>::empty()
        &&& self.nonterms_without_rules == Set::<NonTermId<E>>::empty()
        &&& self.rules_without_prods == Set::<NonTermId<E>>::empty()
    }
}

/// What a borrowed view of a rule denotes: a grammar and the position of one
/// of its rules.
pub struct RuleRefSpec<E: ElementTypes> {
    pub grammar: GrammarSpec<E>,
    pub rule: int,
}

impl<E: ElementTypes> RuleRefSpec<E> {
    /// The position is that of a rule of the grammar.
    pub open spec fn in_grammar(self) -> bool {
        self.grammar.is_rule(self.rule)
    }

    /// The rule that is denoted.
    pub open spec fn get(self) -> RuleSpec<E> {
        self.grammar.rules[self.rule]
    }
}

/// What a borrowed view of a production denotes: a grammar and the position
/// of one of its productions.
pub struct ProdRefSpec<E: ElementTypes> {
    pub grammar: GrammarSpec<E>,
    pub rule: int,
    pub prod: int,
}

impl<E: ElementTypes> ProdRefSpec<E> {
    /// The position is that of a production of the grammar.
    pub open spec fn in_grammar(self) -> bool {
        self.grammar.is_prod(self.rule, self.prod)
    }

    /// The production that is denoted.
    pub open spec fn get(self) -> ProductionSpec<E> {
        self.grammar.rules[self.rule].prods[self.prod]
    }

    /// The head of the rule that the production belongs to.
    pub open spec fn head(self) -> NonTermId<E> {
        self.grammar.rules[self.rule].head
    }

    /// The key that names the production.
    pub open spec fn key(self) -> ProdKeySpec<E> {
        self.grammar.prod_key(self.rule, self.prod)
    }

    /// The value of the production's action key, if the grammar gives one.
    pub open spec fn action_value(self) -> Option<E::ActionValue> {
        if self.grammar.actions.contains_key(self.get().action_key) {
            Some(self.grammar.actions[self.get().action_key])
        } else {
            None
        }
    }

    /// The production stands before `other` in the grammar: in an earlier
    /// rule, or earlier in the same rule.
    pub open spec fn precedes(self, other: Self) -> bool {
        self.rule < other.rule || (self.rule == other.rule && self.prod < other.prod)
    }
}

/// A derivation tree for the empty sequence, labelled with production keys.
pub type WitnessSpec<E> = TreeSpec<ProdKeySpec<E>>;

/// The nonterminal bound to `name` on a right-hand side: that of the last
/// element that carries this name and is a nonterminal.
pub open spec fn named_child<E: ElementTypes>(
    elements: Seq<ProdElementSpec<E>>,
    name: Seq<char>,
) -> Option<NonTermId<E>>
    decreases elements.len(),
{
    if elements.len() == 0 {
        None
    } else {
        let last = elements.last();
        match last.element {
            ElementSpec::NonTerm(nt) if last.identifier == Some(name) => Some(nt),
            _ => named_child(elements.drop_last(), name),
        }
    }
}

/// The symbols of the right-hand side of a production, in order.
pub open spec fn prod_symbols<E: ElementTypes>(p: ProductionSpec<E>) -> Seq<ElementSpec<E>> {
    p.elements.map_values(|pe: ProdElementSpec<E>| pe.element)
}

/// The right-hand sides of some productions, one sequence of symbols each.
pub open spec fn symbols_by_prod<E: ElementTypes>(prods: Seq<ProductionSpec<E>>) -> Seq<
    Seq<ElementSpec<E>>,
> {
    prods.map_values(|p: ProductionSpec<E>| prod_symbols(p))
}

/// The symbols on the right-hand sides of a rule, production after production.
pub open spec fn rule_symbols<E: ElementTypes>(r: RuleSpec<E>) -> Seq<ElementSpec<E>> {
    symbols_by_prod(r.prods).flatten()
}

/// The right-hand-side symbols of some rules, one sequence for each rule.
pub open spec fn symbols_by_rule<E: ElementTypes>(rules: Seq<RuleSpec<E>>) -> Seq<
    Seq<ElementSpec<E>>,
> {
    rules.map_values(|r: RuleSpec<E>| rule_symbols(r))
}

/// All right-hand-side symbols of some rules, rule after rule.
pub open spec fn symbols_of<E: ElementTypes>(rules: Seq<RuleSpec<E>>) -> Seq<ElementSpec<E>> {
    symbols_by_rule(rules).flatten()
}

/// The nonterminals among some symbols, in the order of the symbols and as
/// often as they occur.
pub open spec fn nonterms_in<E: ElementTypes>(symbols: Seq<ElementSpec<E>>) -> Seq<NonTermId<E>>
    decreases symbols.len(),
{
    if symbols.len() == 0 {
        Seq::empty()
    } else {
        match symbols.last() {
            ElementSpec::NonTerm(nt) => nonterms_in(symbols.drop_last()).push(nt),
            ElementSpec::Term(_) => nonterms_in(symbols.drop_last()),
        }
    }
}

/// The productions of a rule, each paired with the head of the rule.
pub open spec fn rule_prod_list<E: ElementTypes>(r: RuleSpec<E>) -> Seq<
    (NonTermId<E>, ProductionSpec<E>),
> {
    r.prods.map_values(|p: ProductionSpec<E>| (r.head, p))
}

/// The productions of some rules with their heads, one sequence for each rule.
pub open spec fn prod_lists<E: ElementTypes>(rules: Seq<RuleSpec<E>>) -> Seq<
    Seq<(NonTermId<E>, ProductionSpec<E>)>,
> {
    rules.map_values(|r: RuleSpec<E>| rule_prod_list(r))
}

/// The key that names a production with the given head.
pub open spec fn key_of<E: ElementTypes>(hp: (NonTermId<E>, ProductionSpec<E>)) -> ProdKeySpec<E> {
    ProdKeySpec { head: hp.0, action_key: hp.1.action_key }
}

/// Some rule of `rules` has the head `head`.
pub open spec fn has_head<E: ElementTypes>(rules: Seq<RuleSpec<E>>, head: NonTermId<E>) -> bool {
    exists|i: int| 0 <= i < rules.len() && (#[trigger] rules[i]).head == head
}

/// The nonterminal `a` comes before the nonterminal `b`.
pub open spec fn nt_before<E: ElementTypes>(a: NonTermId<E>, b: NonTermId<E>) -> bool {
    <E::NonTerm as Ordered>::before(a, b)
}

/// The heads of some rules, in order.
pub open spec fn heads_of<E: ElementTypes>(rules: Seq<RuleSpec<E>>) -> Seq<NonTermId<E>> {
    rules.map_values(|r: RuleSpec<E>| r.head)
}

/// How many of the rules have a head that comes before `head`: the place of
/// a rule of `head` among rules that are in ascending order of their heads.
pub open spec fn rank_of<E: ElementTypes>(rules: Seq<RuleSpec<E>>, head: NonTermId<E>) -> int
    decreases rules.len(),
{
    if rules.len() == 0 {
        0
    } else {
        rank_of(rules.drop_last(), head) + if nt_before::<E>(rules.last().head, head) {
            1int
        } else {
            0int
        }
    }
}

/// The rules with `rule` put in: it takes the place of the rule with the
/// same head if there is one, and else stands at the place of its head.
pub open spec fn with_rule<E: ElementTypes>(rules: Seq<RuleSpec<E>>, rule: RuleSpec<E>) -> Seq<
    RuleSpec<E>,
> {
    let p = rank_of(rules, rule.head);
    if p < rules.len() && rules[p].head == rule.head {
        rules.update(p, rule)
    } else {
        rules.insert(p, rule)
    }
}

/// The rule set that some rules make when they are put in one after
/// another: one rule for each head, the last that was given for it, in
/// ascending order of the heads.
pub open spec fn sorted_rules<E: ElementTypes>(rules: Seq<RuleSpec<E>>) -> Seq<RuleSpec<E>>
    decreases rules.len(),
{
    if rules.len() == 0 {
        Seq::empty()
    } else {
        with_rule(sorted_rules(rules.drop_last()), rules.last())
    }
}

impl<E: ElementTypes> GrammarSpec<E> {
    /// `i` is the position of a rule.
    pub open spec fn is_rule(self, i: int) -> bool {
        0 <= i < self.rules.len()
    }

    /// `(i, j)` is the position of a production: the `j`-th of the `i`-th rule.
    pub open spec fn is_prod(self, i: int, j: int) -> bool {
        self.is_rule(i) && 0 <= j < self.rules[i].prods.len()
    }

    /// `(i, j, k)` is the position of a right-hand-side element.
    pub open spec fn is_elem(self, i: int, j: int, k: int) -> bool {
        self.is_prod(i, j) && 0 <= k < self.rules[i].prods[j].elements.len()
    }

    /// The production at `(i, j)`.
    pub open spec fn prod(self, i: int, j: int) -> ProductionSpec<E> {
        self.rules[i].prods[j]
    }

    /// The symbol at `(i, j, k)`.
    pub open spec fn elem(self, i: int, j: int, k: int) -> ElementSpec<E> {
        self.rules[i].prods[j].elements[k].element
    }

    /// The key of the production at `(i, j)`.
    pub open spec fn prod_key(self, i: int, j: int) -> ProdKeySpec<E> {
        ProdKeySpec { head: self.rules[i].head, action_key: self.rules[i].prods[j].action_key }
    }

    /// The rules stand in ascending order of their heads.
    pub open spec fn sorted_heads(self) -> bool {
        ascending::<E::NonTerm>(heads_of(self.rules))
    }

    /// No two rules have the same head.
    pub open spec fn distinct_heads(self) -> bool {
        forall|a: int, b: int|
            self.is_rule(a) && self.is_rule(b) && a != b ==> (#[trigger] self.rules[a]).head != (
            #[trigger] self.rules[b]).head
    }

    /// `nt` is the head of the rule at `i`.
    pub open spec fn rule_at(self, nt: NonTermId<E>, i: int) -> bool {
        self.is_rule(i) && self.rules[i].head == nt
    }

    /// `nt` has a rule.
    pub open spec fn has_rule(self, nt: NonTermId<E>) -> bool {
        has_head(self.rules, nt)
    }

    /// The symbol at `(i, j, k)` is the nonterminal `nt`.
    pub open spec fn nonterm_at(self, nt: NonTermId<E>, i: int, j: int, k: int) -> bool {
        self.is_elem(i, j, k) && self.elem(i, j, k) == ElementSpec::<E>::NonTerm(nt)
    }

    /// `nt` occurs on the right-hand side of some production.
    pub open spec fn mentions(self, nt: NonTermId<E>) -> bool {
        exists|i: int, j: int, k: int| self.nonterm_at(nt, i, j, k)
    }

    /// `nt` occurs in the grammar: as the head of a rule or on a right-hand side.
    pub open spec fn is_nonterm(self, nt: NonTermId<E>) -> bool {
        self.has_rule(nt) || self.mentions(nt)
    }

    /// `to` occurs at `(i, j, k)`, on a right-hand side of the rule of `from`.
    pub open spec fn edge_at(self, from: NonTermId<E>, to: NonTermId<E>, i: int, j: int, k: int) -> bool {
        self.nonterm_at(to, i, j, k) && self.rules[i].head == from
    }

    /// Expanding `from` by one of its productions yields `to`.
    pub open spec fn expands_to(self, from: NonTermId<E>, to: NonTermId<E>) -> bool {
        exists|i: int, j: int, k: int| self.edge_at(from, to, i, j, k)
    }

    /// `nt` is reached from the start nonterminal by at most `n` expansions.
    pub open spec fn reachable_within(self, nt: NonTermId<E>, n: nat) -> bool
        decreases n,
    {
        if n == 0 {
            nt == self.start
        } else {
            self.reachable_within(nt, (n - 1) as nat) || exists|from: NonTermId<E>|
                self.reachable_within(from, (n - 1) as nat) && #[trigger] self.expands_to(from, nt)
        }
    }

    /// `nt` is reached from the start nonterminal by repeated expansion.
    pub open spec fn reachable(self, nt: NonTermId<E>) -> bool {
        exists|n: nat| self.reachable_within(nt, n)
    }

    /// What the views of the productions of the rule at `i` denote, in order.
    pub open spec fn rule_prod_refs(self, i: int) -> Seq<ProdRefSpec<E>> {
        Seq::new(
            self.rules[i].prods.len(),
            |j: int| ProdRefSpec { grammar: self, rule: i, prod: j },
        )
    }

    /// What the views of the productions of the first `n` rules denote, one
    /// sequence for each rule.
    pub open spec fn prod_refs_upto(self, n: int) -> Seq<Seq<ProdRefSpec<E>>> {
        Seq::new(n as nat, |i: int| self.rule_prod_refs(i))
    }

    /// What the views of all productions denote, rule after rule.
    pub open spec fn prod_refs(self) -> Seq<ProdRefSpec<E>> {
        self.prod_refs_upto(self.rules.len() as int).flatten()
    }

    /// Every production of the rule at `i` has a value for its action key.
    pub open spec fn rule_has_action_values(self, i: int) -> bool {
        forall|j: int| #[trigger]
            self.is_prod(i, j) ==> self.actions.contains_key(self.prod(i, j).action_key)
    }

    /// Every production of the grammar has a value for its action key.
    pub open spec fn has_action_values(self) -> bool {
        forall|i: int| self.is_rule(i) ==> #[trigger] self.rule_has_action_values(i)
    }

    /// All productions of the grammar with their heads, rule after rule.
    pub open spec fn prod_list(self) -> Seq<(NonTermId<E>, ProductionSpec<E>)> {
        prod_lists(self.rules).flatten()
    }

    /// No two productions of the grammar have the same key.
    pub open spec fn distinct_prod_keys(self) -> bool {
        forall|a: int, b: int|
            0 <= a < self.prod_list().len() && 0 <= b < self.prod_list().len() && a != b ==> key_of(
                #[trigger] self.prod_list()[a],
            ) != key_of(#[trigger] self.prod_list()[b])
    }

    /// All right-hand-side symbols of the grammar, rule after rule.
    pub open spec fn symbols(self) -> Seq<ElementSpec<E>> {
        symbols_of(self.rules)
    }

    /// `nt` is used on a right-hand side and has no rule.
    pub open spec fn lacks_rule(self, nt: NonTermId<E>) -> bool {
        self.mentions(nt) && !self.has_rule(nt)
    }

    /// The rule at `i` is a rule of `nt` without productions.
    pub open spec fn empty_rule_at(self, nt: NonTermId<E>, i: int) -> bool {
        self.rule_at(nt, i) && self.rules[i].prods.len() == 0
    }

    /// `nt` has a rule without productions.
    pub open spec fn lacks_prods(self, nt: NonTermId<E>) -> bool {
        exists|i: int| self.empty_rule_at(nt, i)
    }

    /// `nt` occurs in the grammar and is not reachable from the start.
    pub open spec fn is_unreachable(self, nt: NonTermId<E>) -> bool {
        self.is_nonterm(nt) && !self.reachable(nt)
    }

    /// The nonterminals that are used and have no rule.
    pub open spec fn nonterms_without_rules(self) -> Set<NonTermId<E>> {
        Set::new(|nt: NonTermId<E>| self.lacks_rule(nt))
    }

    /// The heads of the rules that have no productions.
    pub open spec fn rules_without_prods(self) -> Set<NonTermId<E>> {
        Set::new(|nt: NonTermId<E>| self.lacks_prods(nt))
    }

    /// The nonterminals of the grammar that the start does not reach.
    pub open spec fn unreachable_nonterms(self) -> Set<NonTermId<E>> {
        Set::new(|nt: NonTermId<E>| self.is_unreachable(nt))
    }

    /// All structural defects of the grammar.
    pub open spec fn structural_errors(self) -> GrammarErrorsSpec<E> {
        GrammarErrorsSpec {
            unreachable_nonterms: self.unreachable_nonterms(),
            nonterms_without_rules: self.nonterms_without_rules(),
            rules_without_prods: self.rules_without_prods(),
        }
    }

    /// The grammar has none of the three structural defects.
    pub open spec fn is_sound(self) -> bool {
        self.structural_errors().is_empty()
    }

    /// What every constructed grammar satisfies: the rules stand in
    /// ascending order of their heads, so that no two have the same head, and
    /// no structural defect is present.
    pub open spec fn well_formed(self) -> bool {
        self.sorted_heads() && self.is_sound()
    }

    /// Every right-hand-side element of the production at `(i, j)` is a
    /// nonterminal in `s`.
    pub open spec fn rhs_within(self, i: int, j: int, s: Set<NonTermId<E>>) -> bool {
        forall|k: int|
            0 <= k < self.rules[i].prods[j].elements.len() ==> match #[trigger] self.elem(i, j, k) {
                ElementSpec::NonTerm(nt) => s.contains(nt),
                ElementSpec::Term(_) => false,
            }
    }

    /// `(i, j)` is a production of `nt` whose right-hand side lies within `s`.
    pub open spec fn derives_within(self, nt: NonTermId<E>, i: int, j: int, s: Set<NonTermId<E>>) -> bool {
        self.is_prod(i, j) && self.rules[i].head == nt && self.rhs_within(i, j, s)
    }

    /// The nonterminals with a production whose right-hand side lies within `s`.
    pub open spec fn nullable_step(self, s: Set<NonTermId<E>>) -> Set<NonTermId<E>> {
        Set::new(|nt: NonTermId<E>| exists|i: int, j: int| self.derives_within(nt, i, j, s))
    }

    /// The nonterminals that derive the empty sequence by a derivation tree
    /// of height at most `n`.
    pub open spec fn nullable_upto(self, n: nat) -> Set<NonTermId<E>>
        decreases n,
    {
        if n == 0 {
            Set::empty()
        } else {
            self.nullable_step(self.nullable_upto((n - 1) as nat))
        }
    }

    /// `nt` derives the empty sequence by a derivation of height at most `n`.
    pub open spec fn nullable_within(self, nt: NonTermId<E>, n: nat) -> bool {
        self.nullable_upto(n).contains(nt)
    }

    /// `nt` can derive the empty sequence.
    pub open spec fn nullable(self, nt: NonTermId<E>) -> bool {
        exists|n: nat| self.nullable_within(nt, n)
    }

    /// The nonterminals that can derive the empty sequence.
    pub open spec fn nullable_set(self) -> Set<NonTermId<E>> {
        Set::new(|nt: NonTermId<E>| self.nullable(nt))
    }

    /// Every right-hand-side element of the production at `(i, j)` is a
    /// nullable nonterminal.
    pub open spec fn prod_nullable(self, i: int, j: int) -> bool {
        self.rhs_within(i, j, self.nullable_set())
    }

    /// `(i, j)` is a production of `nt` that derives the empty sequence.
    pub open spec fn nullable_prod_of(self, nt: NonTermId<E>, i: int, j: int) -> bool {
        self.derives_within(nt, i, j, self.nullable_set())
    }

    /// `nt` has two different productions that each derive the empty sequence.
    pub open spec fn ambiguous_at(self, nt: NonTermId<E>) -> bool {
        exists|i1: int, j1: int, i2: int, j2: int|
            #[trigger] self.nullable_prod_of(nt, i1, j1) && #[trigger] self.nullable_prod_of(nt, i2, j2)
                && (i1 != i2 || j1 != j2)
    }

    /// Some nonterminal derives the empty sequence in more than one way.
    pub open spec fn has_nullable_ambiguity(self) -> bool {
        exists|nt: NonTermId<E>| self.ambiguous_at(nt)
    }

    /// `table` gives exactly the nullable nonterminals, each with a
    /// derivation tree of the empty sequence.
    pub open spec fn is_nullable_table(self, table: Map<NonTermId<E>, WitnessSpec<E>>) -> bool {
        &&& table.dom() == self.nullable_set()
        &&& forall|nt: NonTermId<E>| #[trigger]
            table.contains_key(nt) ==> self.is_witness(nt, table[nt])
    }

    /// `t` is a derivation tree of the empty sequence from `nt` through the
    /// production at `(i, j)`: the root is labelled with the key of that
    /// production, and under each name bound to a nonterminal on its
    /// right-hand side hangs such a tree for that nonterminal.
    pub open spec fn is_witness_by(self, nt: NonTermId<E>, t: WitnessSpec<E>, i: int, j: int) -> bool
        decreases t, 0nat,
    {
        &&& self.nullable_prod_of(nt, i, j)
        &&& t.action == self.prod_key(i, j)
        &&& t.fields.dom().finite()
        &&& forall|name: Seq<char>|
            #![trigger t.fields.contains_key(name)]
            #![trigger named_child(self.prod(i, j).elements, name)]
            t.fields.contains_key(name) <==> named_child(self.prod(i, j).elements, name) is Some
        &&& forall|name: Seq<char>| #[trigger]
            t.fields.contains_key(name) ==> self.is_witness(
                named_child(self.prod(i, j).elements, name).unwrap(),
                t.fields[name],
            )
    }

    /// `t` is a derivation tree of the empty sequence from `nt`.
    pub open spec fn is_witness(self, nt: NonTermId<E>, t: WitnessSpec<E>) -> bool
        decreases t, 1nat,
    {
        exists|i: int, j: int|
            #[trigger] self.nullable_prod_of(nt, i, j) && self.is_witness_by(nt, t, i, j)
    }
}

} // verus!
