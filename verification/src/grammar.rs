//! The symbol and production model of a grammar.
//!
//! A grammar is generic over a family of symbol and action types
//! ([`ElementTypes`]). Every entity has a view in [`model`], over which all
//! contracts are stated.

use vstd::prelude::*;
use crate::grammar::model::prod_symbols;
use crate::grammar::model::key_of;
use crate::grammar::model::sorted_rules;
use crate::grammar::model::prod_lists;
use crate::grammar::model::rule_prod_list;
use crate::grammar::model::ActionId;
use crate::grammar::model::ElementSpec;
use crate::grammar::model::GrammarErrorsSpec;
use crate::grammar::model::GrammarSpec;
use crate::grammar::model::NonTermId;
use crate::grammar::model::ProdElementSpec;
use crate::grammar::model::ProdKeySpec;
use crate::grammar::model::ProductionSpec;
use crate::grammar::model::RuleSpec;
use crate::grammar::validation::check_grammar;
use crate::grammar::validation::find_rule;
use crate::grammar::validation::collect_rules;
use crate::grammar::validation::lemma_sorted_heads_distinct;
use crate::grammar::validation::lemma_same_rules;
use crate::utils::ascending;
use crate::utils::duplicate_all;
use crate::utils::keys;
use crate::utils::sort_entries;
use crate::utils::lemma_pairs_to_map_dom;
use crate::utils::lemma_pairs_to_map_last;
use crate::utils::pairs_to_map;
use crate::utils::views;
use crate::utils::Name;
use crate::utils::text_before;
use crate::utils::Identified;
use crate::utils::Ordered;

pub mod model;
pub mod nullability;
pub mod nullables;
pub mod refs;
pub mod validation;

verus! {

/// A family of types used together in one grammar.
///
/// The family fixes how terminals, nonterminals and action keys are
/// identified and what payload an action key carries.
pub trait ElementTypes: Copy + Clone + Eq + PartialEq + PartialOrd + Ord + core::fmt::Debug + 'static {
    /// Identifies a terminal.
    type Term: Identified + Clone + PartialEq + Eq + PartialOrd + Ord + core::fmt::Debug + 'static;

    /// Identifies a nonterminal.
    type NonTerm: Ordered + Clone + PartialEq + Eq + PartialOrd + Ord + core::fmt::Debug + 'static;

    /// Identifies the action of a production.
    type ActionKey: Ordered + Clone + PartialEq + Eq + PartialOrd + Ord + core::fmt::Debug + 'static;

    /// The payload attached to an action key.
    type ActionValue: core::fmt::Debug + 'static;
}

/// A terminal identified by its name.
#[derive(Clone, PartialEq, Eq, PartialOrd, Ord, Hash, Debug)]
pub struct Terminal(Name);

impl View for Terminal {
    type V = Seq<char>;

    closed spec fn view(&self) -> Seq<char> {
        self.0@
    }
}

impl Terminal {
    /// The terminal called `s`.
    pub fn new(s: &str) -> (t: Self)
        ensures
            t@ == s@,
    {
        Terminal(Name::new(s))
    }

    /// The name of the terminal.
    pub fn name(&self) -> (name: &Name)
        ensures
            name@ == self@,
    {
        &self.0
    }
}

impl Ordered for Terminal {
    open spec fn before(a: Seq<char>, b: Seq<char>) -> bool {
        text_before(a, b)
    }

    proof fn lemma_before_irreflexive(a: Seq<char>) {
        Name::lemma_before_irreflexive(a);
    }

    proof fn lemma_before_transitive(a: Seq<char>, b: Seq<char>, c: Seq<char>) {
        Name::lemma_before_transitive(a, b, c);
    }

    proof fn lemma_before_total(a: Seq<char>, b: Seq<char>) {
        Name::lemma_before_total(a, b);
    }

    fn precedes(&self, other: &Self) -> (before: bool) {
        self.0.precedes(&other.0)
    }
}

impl Identified for Terminal {
    fn matches(&self, other: &Self) -> (same: bool) {
        self.0.matches(&other.0)
    }

    fn duplicate(&self) -> (copy: Self) {
        Terminal(self.0.duplicate())
    }
}

/// A nonterminal identified by its name.
#[derive(Clone, PartialEq, Eq, PartialOrd, Ord, Hash, Debug)]
pub struct NonTerminal(Name);

impl View for NonTerminal {
    type V = Seq<char>;

    closed spec fn view(&self) -> Seq<char> {
        self.0@
    }
}

impl NonTerminal {
    /// The nonterminal called `s`.
    pub fn new(s: &str) -> (nt: Self)
        ensures
            nt@ == s@,
    {
        NonTerminal(Name::new(s))
    }

    /// The name of the nonterminal.
    pub fn name(&self) -> (name: &Name)
        ensures
            name@ == self@,
    {
        &self.0
    }
}

impl Ordered for NonTerminal {
    open spec fn before(a: Seq<char>, b: Seq<char>) -> bool {
        text_before(a, b)
    }

    proof fn lemma_before_irreflexive(a: Seq<char>) {
        Name::lemma_before_irreflexive(a);
    }

    proof fn lemma_before_transitive(a: Seq<char>, b: Seq<char>, c: Seq<char>) {
        Name::lemma_before_transitive(a, b, c);
    }

    proof fn lemma_before_total(a: Seq<char>, b: Seq<char>) {
        Name::lemma_before_total(a, b);
    }

    fn precedes(&self, other: &Self) -> (before: bool) {
        self.0.precedes(&other.0)
    }
}

impl Identified for NonTerminal {
    fn matches(&self, other: &Self) -> (same: bool) {
        self.0.matches(&other.0)
    }

    fn duplicate(&self) -> (copy: Self) {
        NonTerminal(self.0.duplicate())
    }
}

/// The family of name-based symbols, with names as action keys and no payload.
#[derive(Copy, Clone, Eq, PartialEq, Ord, PartialOrd, Debug)]
pub struct BaseElementTypes;

impl ElementTypes for BaseElementTypes {
    type Term = Terminal;

    type NonTerm = NonTerminal;

    type ActionKey = Name;

    type ActionValue = ();
}

/// A grammar symbol: a terminal or a nonterminal.
#[derive(Clone, Debug, Eq, PartialEq, Ord, PartialOrd)]
pub enum Element<E: ElementTypes> {
    Term(E::Term),
    NonTerm(E::NonTerm),
}

impl<E: ElementTypes> View for Element<E> {
    type V = ElementSpec<E>;

    open spec fn view(&self) -> ElementSpec<E> {
        match *self {
            Element::Term(t) => ElementSpec::Term(t@),
            Element::NonTerm(nt) => ElementSpec::NonTerm(nt@),
        }
    }
}

impl<E: ElementTypes> Element<E> {
    /// The terminal, if the symbol is one.
    pub fn as_term(&self) -> (term: Option<&E::Term>)
        ensures
            match *self {
                Element::Term(t) => term == Some(&t),
                Element::NonTerm(_) => term is None,
            },
    {
        match self {
            Element::NonTerm(_) => None,
            Element::Term(t) => Some(t),
        }
    }

    /// The nonterminal, if the symbol is one.
    pub fn as_nonterm(&self) -> (nonterm: Option<&E::NonTerm>)
        ensures
            match *self {
                Element::NonTerm(nt) => nonterm == Some(&nt),
                Element::Term(_) => nonterm is None,
            },
    {
        match self {
            Element::NonTerm(nt) => Some(nt),
            Element::Term(_) => None,
        }
    }

    /// A copy of the symbol for another family with the same terminals and
    /// nonterminals.
    pub fn clone_as_other<E2>(&self) -> (copy: Element<E2>) where
        E2: ElementTypes<Term = E::Term, NonTerm = E::NonTerm>,

        ensures
            match (self@, copy@) {
                (ElementSpec::Term(a), ElementSpec::Term(b)) => a == b,
                (ElementSpec::NonTerm(a), ElementSpec::NonTerm(b)) => a == b,
                _ => false,
            },
    {
        match self {
            Element::Term(t) => Element::Term(t.duplicate()),
            Element::NonTerm(nt) => Element::NonTerm(nt.duplicate()),
        }
    }
}

impl<E: ElementTypes> Identified for Element<E> {
    fn matches(&self, other: &Self) -> (same: bool) {
        match (self, other) {
            (Element::Term(a), Element::Term(b)) => a.matches(b),
            (Element::NonTerm(a), Element::NonTerm(b)) => a.matches(b),
            _ => false,
        }
    }

    fn duplicate(&self) -> (copy: Self) {
        match self {
            Element::Term(t) => Element::Term(t.duplicate()),
            Element::NonTerm(nt) => Element::NonTerm(nt.duplicate()),
        }
    }
}

/// A symbol on a right-hand side together with an optional binding name.
#[derive(Clone, PartialEq, Eq, PartialOrd, Ord, Debug)]
pub struct ProductionElement<E: ElementTypes> {
    identifier: Option<Name>,
    element: Element<E>,
}

impl<E: ElementTypes> View for ProductionElement<E> {
    type V = ProdElementSpec<E>;

    closed spec fn view(&self) -> ProdElementSpec<E> {
        ProdElementSpec {
            identifier: match self.identifier {
                Some(name) => Some(name@),
                None => None,
            },
            element: self.element@,
        }
    }
}

impl<E: ElementTypes> ProductionElement<E> {
    /// The symbol `e` bound to `name`.
    pub fn new_with_name(name: Name, e: Element<E>) -> (pe: Self)
        ensures
            pe@ == (ProdElementSpec::<E> { identifier: Some(name@), element: e@ }),
    {
        ProductionElement { identifier: Some(name), element: e }
    }

    /// The symbol `e`, bound to `name` if one is given.
    pub fn new(name: Option<Name>, e: Element<E>) -> (pe: Self)
        ensures
            pe@.element == e@,
            match name {
                Some(n) => pe@.identifier == Some(n@),
                None => pe@.identifier is None,
            },
    {
        ProductionElement { identifier: name, element: e }
    }

    /// The symbol `e` without a binding name.
    pub fn new_empty(e: Element<E>) -> (pe: Self)
        ensures
            pe@ == (ProdElementSpec::<E> { identifier: None, element: e@ }),
    {
        ProductionElement { identifier: None, element: e }
    }

    /// The binding name, if there is one.
    pub fn id(&self) -> (id: Option<&Name>)
        ensures
            match id {
                Some(name) => self@.identifier == Some(name@),
                None => self@.identifier is None,
            },
    {
        self.identifier.as_ref()
    }

    /// The symbol.
    pub fn elem(&self) -> (e: &Element<E>)
        ensures
            e@ == self@.element,
    {
        &self.element
    }

    /// A copy of the element for another family with the same terminals and
    /// nonterminals.
    pub fn clone_as_other<E2>(&self) -> (copy: ProductionElement<E2>) where
        E2: ElementTypes<Term = E::Term, NonTerm = E::NonTerm>,

        ensures
            copy@.identifier == self@.identifier,
            match (self@.element, copy@.element) {
                (ElementSpec::Term(a), ElementSpec::Term(b)) => a == b,
                (ElementSpec::NonTerm(a), ElementSpec::NonTerm(b)) => a == b,
                _ => false,
            },
    {
        ProductionElement {
            identifier: match &self.identifier {
                Some(name) => Some(name.duplicate()),
                None => None,
            },
            element: self.element.clone_as_other(),
        }
    }
}

impl<E: ElementTypes> Identified for ProductionElement<E> {
    fn matches(&self, other: &Self) -> (same: bool) {
        let same_name = match (&self.identifier, &other.identifier) {
            (Some(a), Some(b)) => a.matches(b),
            (None, None) => true,
            _ => false,
        };
        same_name && self.element.matches(&other.element)
    }

    fn duplicate(&self) -> (copy: Self) {
        ProductionElement {
            identifier: match &self.identifier {
                Some(name) => Some(name.duplicate()),
                None => None,
            },
            element: self.element.duplicate(),
        }
    }
}

impl<E: ElementTypes> From<Element<E>> for ProductionElement<E> {
    fn from(e: Element<E>) -> (pe: ProductionElement<E>)
        ensures
            pe@ == (ProdElementSpec::<E> { identifier: None, element: e@ }),
    {
        ProductionElement { identifier: None, element: e }
    }
}

impl<E: ElementTypes> vstd::std_specs::convert::FromSpecImpl<Element<E>> for ProductionElement<E> {
    open spec fn obeys_from_spec() -> bool {
        true
    }

    closed spec fn from_spec(e: Element<E>) -> Self {
        ProductionElement { identifier: None, element: e }
    }
}

/// A production: an action key and the ordered right-hand side.
#[derive(Clone, PartialEq, Eq, PartialOrd, Ord, Debug)]
pub struct Production<E: ElementTypes> {
    action_key: E::ActionKey,
    elements: Vec<ProductionElement<E>>,
}

impl<E: ElementTypes> View for Production<E> {
    type V = ProductionSpec<E>;

    closed spec fn view(&self) -> ProductionSpec<E> {
        ProductionSpec { action_key: self.action_key@, elements: views(self.elements@) }
    }
}

impl<E: ElementTypes> Production<E> {
    /// The production with the given action key and right-hand side.
    pub fn new(action_key: E::ActionKey, elements: Vec<ProductionElement<E>>) -> (p: Production<E>)
        ensures
            p@ == (ProductionSpec::<E> { action_key: action_key@, elements: views(elements@) }),
    {
        Production { action_key, elements }
    }

    /// The right-hand side with its binding names.
    pub fn prod_elements(&self) -> (elements: &Vec<ProductionElement<E>>)
        ensures
            views(elements@) == self@.elements,
    {
        &self.elements
    }

    /// The symbols of the right-hand side, in order.
    pub fn elements_iter(&self) -> (symbols: Vec<&Element<E>>)
        ensures
            views(symbols@) == prod_symbols(self@),
    {
        let mut symbols: Vec<&Element<E>> = Vec::new();
        let mut k: usize = 0;
        while k < self.elements.len()
            invariant
                k <= self.elements.len(),
                symbols.len() == k,
                forall|q: int| 0 <= q < k ==> (#[trigger] symbols[q])@ == self.elements[q]@.element,
            decreases self.elements.len() - k,
        {
            symbols.push(self.elements[k].elem());
            k += 1;
        }
        assert(views(symbols@) =~= prod_symbols(self@));
        symbols
    }

    /// The symbol at position `index` of the right-hand side, if there is one.
    pub fn element_at(&self, index: usize) -> (e: Option<&Element<E>>)
        ensures
            match e {
                Some(e) => index < self@.elements.len() && e@ == self@.elements[index as int].element,
                None => index >= self@.elements.len(),
            },
    {
        if index < self.elements.len() {
            Some(self.elements[index].elem())
        } else {
            None
        }
    }

    /// The action key.
    pub fn action_key(&self) -> (key: &E::ActionKey)
        ensures
            key@ == self@.action_key,
    {
        &self.action_key
    }

}

impl<E: ElementTypes> Identified for Production<E> {
    /// Two productions are the same exactly when they have the same action
    /// key and the same right-hand side, element for element.
    fn matches(&self, other: &Self) -> (same: bool) {
        if !self.action_key.matches(&other.action_key) {
            return false;
        }
        proof {
            assert(views(self.elements@).len() == self.elements.len());
            assert(views(other.elements@).len() == other.elements.len());
        }
        if self.elements.len() != other.elements.len() {
            return false;
        }
        let mut k: usize = 0;
        while k < self.elements.len()
            invariant
                k <= self.elements.len(),
                self.elements.len() == other.elements.len(),
                self@.action_key == other@.action_key,
                forall|q: int| 0 <= q < k ==> (#[trigger] self.elements[q])@ == other.elements[q]@,
            decreases self.elements.len() - k,
        {
            if !self.elements[k].matches(&other.elements[k]) {
                proof {
                    assert(views(self.elements@)[k as int] != views(other.elements@)[k as int]);
                }
                return false;
            }
            k += 1;
        }
        proof {
            assert(views(self.elements@) =~= views(other.elements@));
        }
        true
    }

    fn duplicate(&self) -> (copy: Self) {
        Production {
            action_key: self.action_key.duplicate(),
            elements: duplicate_all(&self.elements),
        }
    }
}

/// The pair of head and action key that names one production of a grammar.
#[derive(Clone, Debug, Eq, PartialEq, Ord, PartialOrd)]
pub struct ProdKey<E: ElementTypes> {
    head: E::NonTerm,
    action_key: E::ActionKey,
}

impl<E: ElementTypes> View for ProdKey<E> {
    type V = ProdKeySpec<E>;

    closed spec fn view(&self) -> ProdKeySpec<E> {
        ProdKeySpec { head: self.head@, action_key: self.action_key@ }
    }
}

impl<E: ElementTypes> ProdKey<E> {
    /// The key of the production of `head` with action key `action_key`.
    pub fn new(head: E::NonTerm, action_key: E::ActionKey) -> (key: Self)
        ensures
            key@ == (ProdKeySpec::<E> { head: head@, action_key: action_key@ }),
    {
        ProdKey { head, action_key }
    }

    /// The head of the production.
    pub fn head(&self) -> (head: &E::NonTerm)
        ensures
            head@ == self@.head,
    {
        &self.head
    }

    /// The action key of the production.
    pub fn action_key(&self) -> (action_key: &E::ActionKey)
        ensures
            action_key@ == self@.action_key,
    {
        &self.action_key
    }
}

impl<E: ElementTypes> Ordered for ProdKey<E> {
    /// Keys are ordered by their heads, and keys with the same head by their
    /// action keys.
    open spec fn before(a: ProdKeySpec<E>, b: ProdKeySpec<E>) -> bool {
        <E::NonTerm as Ordered>::before(a.head, b.head) || (a.head == b.head
            && <E::ActionKey as Ordered>::before(a.action_key, b.action_key))
    }

    proof fn lemma_before_irreflexive(a: ProdKeySpec<E>) {
        <E::NonTerm as Ordered>::lemma_before_irreflexive(a.head);
        <E::ActionKey as Ordered>::lemma_before_irreflexive(a.action_key);
    }

    proof fn lemma_before_transitive(a: ProdKeySpec<E>, b: ProdKeySpec<E>, c: ProdKeySpec<E>) {
        if <E::NonTerm as Ordered>::before(a.head, b.head) && <E::NonTerm as Ordered>::before(
            b.head,
            c.head,
        ) {
            <E::NonTerm as Ordered>::lemma_before_transitive(a.head, b.head, c.head);
        }
        <E::NonTerm as Ordered>::lemma_before_irreflexive(a.head);
        <E::NonTerm as Ordered>::lemma_before_irreflexive(b.head);
        if a.head == b.head && b.head == c.head {
            <E::ActionKey as Ordered>::lemma_before_transitive(
                a.action_key,
                b.action_key,
                c.action_key,
            );
        }
    }

    proof fn lemma_before_total(a: ProdKeySpec<E>, b: ProdKeySpec<E>) {
        <E::NonTerm as Ordered>::lemma_before_total(a.head, b.head);
        <E::ActionKey as Ordered>::lemma_before_total(a.action_key, b.action_key);
    }

    fn precedes(&self, other: &Self) -> (before: bool) {
        self.head.precedes(&other.head) || (self.head.matches(&other.head)
            && self.action_key.precedes(&other.action_key))
    }
}

impl<E: ElementTypes> Identified for ProdKey<E> {
    fn matches(&self, other: &Self) -> (same: bool) {
        self.head.matches(&other.head) && self.action_key.matches(&other.action_key)
    }

    fn duplicate(&self) -> (copy: Self) {
        ProdKey { head: self.head.duplicate(), action_key: self.action_key.duplicate() }
    }
}

/// A production seen together with the head of its rule.
#[derive(Clone, Debug)]
pub struct ProdAndHead<'a, E: ElementTypes> {
    head: &'a E::NonTerm,
    prod: &'a Production<E>,
}

impl<'a, E: ElementTypes> View for ProdAndHead<'a, E> {
    type V = (NonTermId<E>, ProductionSpec<E>);

    closed spec fn view(&self) -> (NonTermId<E>, ProductionSpec<E>) {
        (self.head@, self.prod@)
    }
}

impl<'a, E: ElementTypes> ProdAndHead<'a, E> {
    /// The head of the rule.
    pub fn head(&self) -> (head: &'a E::NonTerm)
        ensures
            head@ == self@.0,
    {
        self.head
    }

    /// The production.
    pub fn prod(&self) -> (prod: &'a Production<E>)
        ensures
            prod@ == self@.1,
    {
        self.prod
    }

    /// The key that names the production.
    pub fn key(&self) -> (key: ProdKey<E>)
        ensures
            key@ == key_of(self@),
    {
        ProdKey { head: self.head.duplicate(), action_key: self.prod.action_key().duplicate() }
    }

}

/// A rule: a head and the productions of that head, in order.
#[derive(Clone, Debug)]
pub struct Rule<E: ElementTypes> {
    head: E::NonTerm,
    prods: Vec<Production<E>>,
}

impl<E: ElementTypes> View for Rule<E> {
    type V = RuleSpec<E>;

    closed spec fn view(&self) -> RuleSpec<E> {
        RuleSpec { head: self.head@, prods: views(self.prods@) }
    }
}

impl<E: ElementTypes> Rule<E> {
    /// The rule of `head` with the productions `prods`.
    pub fn new(head: E::NonTerm, prods: Vec<Production<E>>) -> (rule: Self)
        ensures
            rule@ == (RuleSpec::<E> { head: head@, prods: views(prods@) }),
    {
        Rule { head, prods }
    }

    /// The head of the rule.
    pub fn head(&self) -> (head: &E::NonTerm)
        ensures
            head@ == self@.head,
    {
        &self.head
    }

    /// The productions of the rule.
    pub fn prods(&self) -> (prods: &Vec<Production<E>>)
        ensures
            views(prods@) == self@.prods,
    {
        &self.prods
    }

}

impl<E: ElementTypes> Identified for Rule<E> {
    /// Two rules are the same exactly when they have the same head and the
    /// same productions, one for one.
    fn matches(&self, other: &Self) -> (same: bool) {
        if !self.head.matches(&other.head) {
            return false;
        }
        proof {
            assert(views(self.prods@).len() == self.prods.len());
            assert(views(other.prods@).len() == other.prods.len());
        }
        if self.prods.len() != other.prods.len() {
            return false;
        }
        let mut j: usize = 0;
        while j < self.prods.len()
            invariant
                j <= self.prods.len(),
                self.prods.len() == other.prods.len(),
                self@.head == other@.head,
                forall|q: int| 0 <= q < j ==> (#[trigger] self.prods[q])@ == other.prods[q]@,
            decreases self.prods.len() - j,
        {
            if !self.prods[j].matches(&other.prods[j]) {
                proof {
                    assert(views(self.prods@)[j as int] != views(other.prods@)[j as int]);
                }
                return false;
            }
            j += 1;
        }
        proof {
            assert(views(self.prods@) =~= views(other.prods@));
        }
        true
    }

    fn duplicate(&self) -> (copy: Self) {
        Rule { head: self.head.duplicate(), prods: duplicate_all(&self.prods) }
    }
}

/// The structural defects found in a rule set, each as the list of the
/// nonterminals that have it, in ascending order.
#[derive(Debug)]
pub struct GrammarErrors<E: ElementTypes> {
    unreachable_nonterms: Vec<E::NonTerm>,
    nonterms_without_rules: Vec<E::NonTerm>,
    rules_without_prods: Vec<E::NonTerm>,
}

impl<E: ElementTypes> View for GrammarErrors<E> {
    type V = GrammarErrorsSpec<E>;

    closed spec fn view(&self) -> GrammarErrorsSpec<E> {
        GrammarErrorsSpec {
            unreachable_nonterms: views(self.unreachable_nonterms@).to_set(),
            nonterms_without_rules: views(self.nonterms_without_rules@).to_set(),
            rules_without_prods: views(self.rules_without_prods@).to_set(),
        }
    }
}

impl<E: ElementTypes> Clone for GrammarErrors<E> {
    fn clone(&self) -> (copy: Self)
        ensures
            copy@ == self@,
    {
        proof {
            use_type_invariant(self);
        }
        GrammarErrors {
            unreachable_nonterms: duplicate_all(&self.unreachable_nonterms),
            nonterms_without_rules: duplicate_all(&self.nonterms_without_rules),
            rules_without_prods: duplicate_all(&self.rules_without_prods),
        }
    }
}

impl<E: ElementTypes> GrammarErrors<E> {
    #[verifier::type_invariant]
    spec fn lists_ascend(self) -> bool {
        &&& ascending::<E::NonTerm>(views(self.unreachable_nonterms@))
        &&& ascending::<E::NonTerm>(views(self.nonterms_without_rules@))
        &&& ascending::<E::NonTerm>(views(self.rules_without_prods@))
    }

    /// The record of the given defects.
    pub(crate) fn new(
        unreachable_nonterms: Vec<E::NonTerm>,
        nonterms_without_rules: Vec<E::NonTerm>,
        rules_without_prods: Vec<E::NonTerm>,
    ) -> (errors: Self)
        requires
            ascending::<E::NonTerm>(views(unreachable_nonterms@)),
            ascending::<E::NonTerm>(views(nonterms_without_rules@)),
            ascending::<E::NonTerm>(views(rules_without_prods@)),
        ensures
            errors@ == (GrammarErrorsSpec::<E> {
                unreachable_nonterms: views(unreachable_nonterms@).to_set(),
                nonterms_without_rules: views(nonterms_without_rules@).to_set(),
                rules_without_prods: views(rules_without_prods@).to_set(),
            }),
    {
        GrammarErrors { unreachable_nonterms, nonterms_without_rules, rules_without_prods }
    }

    /// The nonterminals of the grammar that the start nonterminal does not reach.
    pub fn unreachable_nonterms(&self) -> (nts: &Vec<E::NonTerm>)
        ensures
            views(nts@).to_set() == self@.unreachable_nonterms,
            ascending::<E::NonTerm>(views(nts@)),
    {
        proof {
            use_type_invariant(self);
        }
        &self.unreachable_nonterms
    }

    /// The nonterminals that are used on a right-hand side and have no rule.
    pub fn nonterms_without_rules(&self) -> (nts: &Vec<E::NonTerm>)
        ensures
            views(nts@).to_set() == self@.nonterms_without_rules,
            ascending::<E::NonTerm>(views(nts@)),
    {
        proof {
            use_type_invariant(self);
        }
        &self.nonterms_without_rules
    }

    /// The heads of the rules that have no productions.
    pub fn rules_without_prods(&self) -> (nts: &Vec<E::NonTerm>)
        ensures
            views(nts@).to_set() == self@.rules_without_prods,
            ascending::<E::NonTerm>(views(nts@)),
    {
        proof {
            use_type_invariant(self);
        }
        &self.rules_without_prods
    }

    /// `Ok` if no defect is recorded, else the record itself as the error.
    pub fn into_result(self) -> (r: Result<(), Self>)
        ensures
            r is Ok <==> self@.is_empty(),
            r matches Err(errors) ==> errors == self,
    {
        proof {
            views(self.unreachable_nonterms@).lemma_cardinality_of_empty_set_is_0();
            views(self.nonterms_without_rules@).lemma_cardinality_of_empty_set_is_0();
            views(self.rules_without_prods@).lemma_cardinality_of_empty_set_is_0();
            vstd::seq_lib::seq_to_set_is_finite(views(self.unreachable_nonterms@));
            vstd::seq_lib::seq_to_set_is_finite(views(self.nonterms_without_rules@));
            vstd::seq_lib::seq_to_set_is_finite(views(self.rules_without_prods@));
        }
        if self.unreachable_nonterms.is_empty() && self.nonterms_without_rules.is_empty()
            && self.rules_without_prods.is_empty() {
            proof {
                assert(self@.unreachable_nonterms =~= Set::<NonTermId<E>>::empty());
                assert(self@.nonterms_without_rules =~= Set::<NonTermId<E>>::empty());
                assert(self@.rules_without_prods =~= Set::<NonTermId<E>>::empty());
            }
            Ok(())
        } else {
            Err(self)
        }
    }
}

/// The entries of an action map, each key taken by its view.
pub open spec fn action_pairs<E: ElementTypes>(
    entries: Seq<(E::ActionKey, E::ActionValue)>,
) -> Seq<(ActionId<E>, E::ActionValue)> {
    entries.map_values(|entry: (E::ActionKey, E::ActionValue)| (entry.0@, entry.1))
}

/// The entries of a table of productions, each taken by its view.
pub open spec fn keyed_prods<'a, E: ElementTypes>(
    entries: Seq<(ProdKey<E>, ProdAndHead<'a, E>)>,
) -> Seq<(ProdKeySpec<E>, (NonTermId<E>, ProductionSpec<E>))> {
    entries.map_values(|entry: (ProdKey<E>, ProdAndHead<'a, E>)| (entry.0@, entry.1@))
}

/// A validated grammar: a start nonterminal, one rule for each head, and the
/// values of the action keys.
///
/// A grammar is immutable, and every grammar that exists is well formed: its
/// rules stand in ascending order of their heads, so that no two rules share
/// a head and the grammar is the same in whatever order its rules were
/// given, and none of the structural defects is present.
#[derive(Debug)]
pub struct Grammar<E: ElementTypes> {
    start_symbol: E::NonTerm,
    rule_set: Vec<Rule<E>>,
    action_map: Vec<(E::ActionKey, E::ActionValue)>,
}

impl<E: ElementTypes> View for Grammar<E> {
    type V = GrammarSpec<E>;

    closed spec fn view(&self) -> GrammarSpec<E> {
        GrammarSpec {
            start: self.start_symbol@,
            rules: views(self.rule_set@),
            actions: pairs_to_map(action_pairs::<E>(self.action_map@)),
        }
    }
}

impl<E: ElementTypes> Clone for Grammar<E> where E::ActionValue: Clone {
    /// The copy has the same start nonterminal, the same rules and the same
    /// action keys; each action value is a clone of the value it stands for.
    fn clone(&self) -> (copy: Self)
        ensures
            copy@.start == self@.start,
            copy@.rules == self@.rules,
            copy@.actions.dom() == self@.actions.dom(),
    {
        proof {
            use_type_invariant(self);
        }
        let rule_set = duplicate_all(&self.rule_set);
        let mut action_map: Vec<(E::ActionKey, E::ActionValue)> = Vec::new();
        let mut a: usize = 0;
        while a < self.action_map.len()
            invariant
                a <= self.action_map.len(),
                action_map.len() == a,
                forall|q: int| 0 <= q < a ==> (#[trigger] action_map[q]).0@ == self.action_map[q].0@,
            decreases self.action_map.len() - a,
        {
            action_map.push((self.action_map[a].0.duplicate(), self.action_map[a].1.clone()));
            a += 1;
        }
        let ghost copied = GrammarSpec::<E> {
            start: self.start_symbol@,
            rules: views(rule_set@),
            actions: pairs_to_map(action_pairs::<E>(action_map@)),
        };
        proof {
            lemma_same_rules(self@, copied);
            let old_pairs = action_pairs::<E>(self.action_map@);
            let new_pairs = action_pairs::<E>(action_map@);
            lemma_pairs_to_map_dom(old_pairs);
            lemma_pairs_to_map_dom(new_pairs);
            assert forall|key: ActionId<E>|
                pairs_to_map(new_pairs).dom().contains(key) <==> pairs_to_map(old_pairs).dom().contains(
                    key,
                ) by {
                if pairs_to_map(new_pairs).contains_key(key) {
                    let q = choose|q: int| 0 <= q < new_pairs.len() && (#[trigger] new_pairs[q]).0 == key;
                    assert(old_pairs[q].0 == key);
                }
                if pairs_to_map(old_pairs).contains_key(key) {
                    let q = choose|q: int| 0 <= q < old_pairs.len() && (#[trigger] old_pairs[q]).0 == key;
                    assert(new_pairs[q].0 == key);
                }
            }
            assert(copied.actions.dom() =~= self@.actions.dom());
        }
        Grammar { start_symbol: self.start_symbol.duplicate(), rule_set, action_map }
    }
}

impl<E: ElementTypes> Grammar<E> {
    #[verifier::type_invariant]
    spec fn is_valid(self) -> bool {
        self@.well_formed()
    }

    /// Assembles and validates a grammar.
    ///
    /// The rules are put in one after another, each at the place of its
    /// head: of several rules with the same head only the last counts, and
    /// the rules of the grammar stand in ascending order of their heads,
    /// in whatever order they were given. Of several action entries with the
    /// same key the last counts. The grammar is returned if it has no
    /// structural defect; otherwise all its defects are.
    pub fn new(
        start: E::NonTerm,
        rule_set: Vec<Rule<E>>,
        action_map: Vec<(E::ActionKey, E::ActionValue)>,
    ) -> (r: Result<Self, GrammarErrors<E>>)
        ensures
            ({
                let g = GrammarSpec::<E> {
                    start: start@,
                    rules: sorted_rules(views(rule_set@)),
                    actions: pairs_to_map(action_pairs::<E>(action_map@)),
                };
                match r {
                    Ok(grammar) => g.is_sound() && grammar@ == g && g.well_formed(),
                    Err(errors) => !g.is_sound() && errors@ == g.structural_errors(),
                }
            }),
    {
        let ghost g = GrammarSpec::<E> {
            start: start@,
            rules: sorted_rules(views(rule_set@)),
            actions: pairs_to_map(action_pairs::<E>(action_map@)),
        };
        let rules = collect_rules(rule_set);
        proof {
            lemma_sorted_heads_distinct(g);
        }
        match check_grammar(&start, &rules, Ghost(g)) {
            Ok(()) => Ok(Grammar { start_symbol: start, rule_set: rules, action_map }),
            Err(errors) => Err(errors),
        }
    }

    /// The start nonterminal.
    pub fn start_nt(&self) -> (start: &E::NonTerm)
        ensures
            start@ == self@.start,
    {
        &self.start_symbol
    }

    /// The rules, one for each head, in ascending order of the heads.
    pub fn rule_set(&self) -> (rules: &Vec<Rule<E>>)
        ensures
            views(rules@) == self@.rules,
            self@.sorted_heads(),
            self@.well_formed(),
    {
        proof {
            use_type_invariant(self);
        }
        &self.rule_set
    }

    /// The rule of `nt`, if it has one.
    pub fn get_rule(&self, nt: &E::NonTerm) -> (rule: Option<&Rule<E>>)
        ensures
            rule is Some <==> self@.has_rule(nt@),
            rule matches Some(r) ==> exists|i: int| #[trigger]
                self@.rule_at(nt@, i) && r@ == self@.rules[i],
    {
        match find_rule(&self.rule_set, nt) {
            Some(i) => {
                assert(self@.rule_at(nt@, i as int));
                Some(&self.rule_set[i])
            },
            None => None,
        }
    }

    /// The value of the action key `key`, if it has one.
    pub fn action_value(&self, key: &E::ActionKey) -> (value: Option<&E::ActionValue>)
        ensures
            value is Some <==> self@.actions.contains_key(key@),
            value matches Some(v) ==> *v == self@.actions[key@],
    {
        let ghost pairs = action_pairs::<E>(self.action_map@);
        let mut i: usize = self.action_map.len();
        while i > 0
            invariant
                i <= self.action_map.len(),
                pairs == action_pairs::<E>(self.action_map@),
                self@.actions == pairs_to_map(pairs),
                forall|j: int| i <= j < pairs.len() ==> (#[trigger] pairs[j]).0 != key@,
            decreases i,
        {
            i -= 1;
            if self.action_map[i].0.matches(key) {
                proof {
                    assert(pairs[i as int].0 == key@);
                    lemma_pairs_to_map_last(pairs, i as int);
                }
                return Some(&self.action_map[i].1);
            }
        }
        proof {
            lemma_pairs_to_map_dom(pairs);
        }
        None
    }

    /// Whether every production of the grammar has a value for its action
    /// key.
    pub fn has_action_values(&self) -> (complete: bool)
        ensures
            complete == self@.has_action_values(),
    {
        let mut i: usize = 0;
        while i < self.rule_set.len()
            invariant
                i <= self.rule_set.len(),
                forall|a: int| 0 <= a < i ==> #[trigger] self@.rule_has_action_values(a),
            decreases self.rule_set.len() - i,
        {
            let prods = self.rule_set[i].prods();
            let mut j: usize = 0;
            while j < prods.len()
                invariant
                    i < self.rule_set.len(),
                    j <= prods.len(),
                    views(prods@) == self@.rules[i as int].prods,
                    forall|b: int|
                        0 <= b < j ==> self@.actions.contains_key(
                            (#[trigger] self@.rules[i as int].prods[b]).action_key,
                        ),
                decreases prods.len() - j,
            {
                assert(views(prods@)[j as int] == prods[j as int]@);
                if self.action_value(prods[j].action_key()).is_none() {
                    proof {
                        assert(self@.is_prod(i as int, j as int));
                        assert(!self@.rule_has_action_values(i as int));
                        assert(self@.is_rule(i as int));
                    }
                    return false;
                }
                j += 1;
            }
            proof {
                assert(views(prods@).len() == prods.len());
                assert forall|b: int| #[trigger] self@.is_prod(i as int, b) implies self@.actions.contains_key(
                    self@.prod(i as int, b).action_key,
                ) by {
                    assert(self@.actions.contains_key(self@.rules[i as int].prods[b].action_key));
                }
            }
            i += 1;
        }
        true
    }

    /// The productions of one rule, each with the head of the rule.
    fn rule_prod_and_heads<'a>(rule: &'a Rule<E>) -> (out: Vec<ProdAndHead<'a, E>>)
        ensures
            views(out@) == rule_prod_list(rule@),
    {
        let mut out: Vec<ProdAndHead<'a, E>> = Vec::new();
        let mut j: usize = 0;
        while j < rule.prods.len()
            invariant
                j <= rule.prods.len(),
                out.len() == j,
                forall|q: int| 0 <= q < j ==> (#[trigger] out[q])@ == (rule@.head, rule.prods[q]@),
            decreases rule.prods.len() - j,
        {
            out.push(ProdAndHead { head: &rule.head, prod: &rule.prods[j] });
            j += 1;
        }
        assert(views(out@) =~= rule_prod_list(rule@));
        out
    }

    /// Every production of the grammar together with the head of its rule,
    /// rule after rule: the heads in ascending order, the productions of one
    /// head in the order of its rule.
    pub fn prod_and_heads(&self) -> (out: Vec<ProdAndHead<'_, E>>)
        ensures
            views(out@) == self@.prod_list(),
            self@.sorted_heads(),
    {
        proof {
            use_type_invariant(self);
        }
        let mut out: Vec<ProdAndHead<'_, E>> = Vec::new();
        let mut i: usize = 0;
        assert(prod_lists(self@.rules.take(0)) =~= Seq::empty());
        assert(views(out@) =~= Seq::<Seq<(NonTermId<E>, ProductionSpec<E>)>>::empty().flatten());
        while i < self.rule_set.len()
            invariant
                i <= self.rule_set.len(),
                views(out@) == prod_lists(self@.rules.take(i as int)).flatten(),
            decreases self.rule_set.len() - i,
        {
            let mut prods = Self::rule_prod_and_heads(&self.rule_set[i]);
            let ghost before = out@;
            let ghost added = prods@;
            out.append(&mut prods);
            proof {
                let done = prod_lists(self@.rules.take(i as int));
                let this = prod_lists(self@.rules)[i as int];
                assert(views(added) == this);
                assert(views(before + added) =~= views(before) + views(added));
                assert(prod_lists(self@.rules.take(i + 1)) =~= done.push(this));
                done.lemma_flatten_push(this);
            }
            i += 1;
        }
        assert(self@.rules.take(i as int) =~= self@.rules);
        out
    }

    /// Whether the keys of the productions of the grammar are pairwise
    /// distinct.
    pub fn has_distinct_prod_keys(&self) -> (distinct: bool)
        ensures
            distinct == self@.distinct_prod_keys(),
    {
        let prods = self.prod_and_heads();
        let ghost listed = self@.prod_list();
        let mut a: usize = 0;
        while a < prods.len()
            invariant
                a <= prods.len(),
                listed == self@.prod_list(),
                views(prods@) == listed,
                forall|x: int, y: int|
                    0 <= x < a && 0 <= y < listed.len() && x != y ==> key_of(#[trigger] listed[x]) != key_of(
                        #[trigger] listed[y],
                    ),
            decreases prods.len() - a,
        {
            let key = prods[a].key();
            let mut b: usize = 0;
            while b < prods.len()
                invariant
                    a < prods.len(),
                    b <= prods.len(),
                    listed == self@.prod_list(),
                    views(prods@) == listed,
                    key@ == key_of(listed[a as int]),
                    forall|y: int|
                        0 <= y < b && y != a ==> key_of(listed[a as int]) != key_of(#[trigger] listed[y]),
                decreases prods.len() - b,
            {
                assert(views(prods@)[b as int] == prods[b as int]@);
                if b != a && prods[b].key().matches(&key) {
                    assert(key_of(listed[a as int]) == key_of(listed[b as int]));
                    return false;
                }
                b += 1;
            }
            a += 1;
        }
        true
    }

    /// Every production of the grammar under its key, in ascending order of
    /// the keys: by head, and under one head by action key.
    ///
    /// The keys of the productions must be pairwise distinct, so that the
    /// result is a table with one entry for each key.
    pub fn get_action_map(&self) -> (out: Vec<(ProdKey<E>, ProdAndHead<'_, E>)>)
        requires
            self@.distinct_prod_keys(),
        ensures
            ascending::<ProdKey<E>>(keys(out@)),
            out.len() == self@.prod_list().len(),
            forall|a: int|
                0 <= a < out.len() ==> (#[trigger] out[a]).0@ == key_of(out[a].1@)
                    && self@.prod_list().contains(out[a].1@),
            forall|b: int|
                0 <= b < self@.prod_list().len() ==> keyed_prods(out@).contains(
                    (key_of(#[trigger] self@.prod_list()[b]), self@.prod_list()[b]),
                ),
    {
        let prods = self.prod_and_heads();
        let ghost listed = views(prods@);
        let mut found: Vec<(ProdKey<E>, ProdAndHead<'_, E>)> = Vec::new();
        let mut i: usize = 0;
        while i < prods.len()
            invariant
                i <= prods.len(),
                found.len() == i,
                listed == views(prods@),
                forall|q: int|
                    0 <= q < i ==> (#[trigger] found[q]).1@ == listed[q] && found[q].0@ == key_of(
                        listed[q],
                    ),
            decreases prods.len() - i,
        {
            let key = prods[i].key();
            let entry = ProdAndHead { head: prods[i].head, prod: prods[i].prod };
            found.push((key, entry));
            i += 1;
        }
        proof {
            assert forall|a: int, b: int|
                0 <= a < keys(found@).len() && 0 <= b < keys(found@).len() && a != b implies keys(
                found@,
            )[a] != keys(found@)[b] by {
                assert(keys(found@)[a] == key_of(listed[a]));
                assert(keys(found@)[b] == key_of(listed[b]));
            }
        }
        let ghost unsorted = found@;
        let out = sort_entries(found);
        proof {
            assert forall|a: int| 0 <= a < out.len() implies (#[trigger] out[a]).0@ == key_of(
                out[a].1@,
            ) && self@.prod_list().contains(out[a].1@) by {
                assert(unsorted.contains(out@[a]));
                let q = choose|q: int| 0 <= q < unsorted.len() && unsorted[q] == out@[a];
                assert(unsorted[q].1@ == listed[q]);
            }
            assert forall|b: int| 0 <= b < self@.prod_list().len() implies keyed_prods(out@).contains(
                (key_of(#[trigger] self@.prod_list()[b]), self@.prod_list()[b]),
            ) by {
                assert(out@.contains(unsorted[b]));
                let a = choose|a: int| 0 <= a < out@.len() && out@[a] == unsorted[b];
                assert(keyed_prods(out@)[a] == (key_of(listed[b]), listed[b]));
            }
        }
        out
    }
}

} // verus!
