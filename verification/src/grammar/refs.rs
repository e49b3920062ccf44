//! Borrowed views of the rules and productions of a grammar.
//!
//! A view is a light handle: a reference to its grammar and a position in
//! it. Views of one grammar can be compared and ordered by position, which
//! orders rules by their heads and the productions of one rule as the rule
//! lists them; views of different grammars must not be compared. The value of a production's action
//! key is looked up once, when the view is made, and takes no part in
//! comparisons.

use vstd::prelude::*;
use crate::grammar::model::heads_of;
use crate::grammar::model::nt_before;
use crate::grammar::model::prod_symbols;
use crate::grammar::model::GrammarSpec;
use crate::grammar::model::ProdRefSpec;
use crate::grammar::model::RuleRefSpec;
use crate::grammar::Element;
use crate::grammar::ElementTypes;
use crate::grammar::Grammar;
use crate::grammar::ProdKey;
use crate::grammar::Production;
use crate::grammar::ProductionElement;
use crate::utils::lemma_flatten_contains;
use crate::utils::views;
use crate::utils::Identified;
use crate::utils::Ordered;

verus! {

/// A borrowed view of one rule of a grammar.
pub struct RuleRef<'a, E: ElementTypes> {
    grammar: &'a Grammar<E>,
    rule: usize,
}

impl<'a, E: ElementTypes> View for RuleRef<'a, E> {
    type V = RuleRefSpec<E>;

    closed spec fn view(&self) -> RuleRefSpec<E> {
        RuleRefSpec { grammar: self.grammar@, rule: self.rule as int }
    }
}

/// A borrowed view of one production of a grammar.
pub struct ProdRef<'a, E: ElementTypes> {
    grammar: &'a Grammar<E>,
    rule: usize,
    prod: usize,
    action_value: Option<&'a E::ActionValue>,
}

impl<'a, E: ElementTypes> View for ProdRef<'a, E> {
    type V = ProdRefSpec<E>;

    closed spec fn view(&self) -> ProdRefSpec<E> {
        ProdRefSpec { grammar: self.grammar@, rule: self.rule as int, prod: self.prod as int }
    }
}

impl<'a, E: ElementTypes> Clone for RuleRef<'a, E> {
    fn clone(&self) -> (copy: Self)
        ensures
            copy == *self,
    {
        *self
    }
}

impl<'a, E: ElementTypes> Copy for RuleRef<'a, E> {

}

impl<'a, E: ElementTypes> Clone for ProdRef<'a, E> {
    fn clone(&self) -> (copy: Self)
        ensures
            copy == *self,
    {
        *self
    }
}

impl<'a, E: ElementTypes> Copy for ProdRef<'a, E> {

}

impl<'a, E: ElementTypes> RuleRef<'a, E> {
    #[verifier::type_invariant]
    spec fn is_valid(self) -> bool {
        self@.in_grammar()
    }

    /// The head of the rule.
    pub fn head(&self) -> (head: &'a E::NonTerm)
        ensures
            self@.in_grammar(),
            head@ == self@.get().head,
    {
        proof {
            use_type_invariant(self);
        }
        self.grammar.rule_set()[self.rule].head()
    }

    /// Views of the productions of the rule, in order, each with the value
    /// of its action key.
    ///
    /// Every production of the rule must have a value for its action key in
    /// the grammar.
    pub fn prods(&self) -> (prods: Vec<ProdRef<'a, E>>)
        requires
            self@.grammar.rule_has_action_values(self@.rule),
        ensures
            self@.in_grammar(),
            views(prods@) == self@.grammar.rule_prod_refs(self@.rule),
            forall|q: int| 0 <= q < prods.len() ==> (#[trigger] prods[q])@.action_value() is Some,
    {
        let prods = self.prod_views();
        proof {
            assert forall|q: int| 0 <= q < prods.len() implies (#[trigger] prods[q])@.action_value()
                is Some by {
                assert(views(prods@).len() == prods.len());
                assert(self@.grammar.rule_prod_refs(self@.rule).len()
                    == self@.grammar.rules[self@.rule].prods.len());
                assert(views(prods@)[q] == prods[q]@);
                assert(self@.grammar.is_prod(self@.rule, q));
            }
        }
        prods
    }

    /// Views of the productions of the rule, in order, each with the value
    /// of its action key where the grammar has one.
    fn prod_views(&self) -> (prods: Vec<ProdRef<'a, E>>)
        ensures
            self@.in_grammar(),
            views(prods@) == self@.grammar.rule_prod_refs(self@.rule),
    {
        proof {
            use_type_invariant(self);
        }
        let productions = self.grammar.rule_set()[self.rule].prods();
        let mut prods: Vec<ProdRef<'a, E>> = Vec::new();
        let mut j: usize = 0;
        while j < productions.len()
            invariant
                j <= productions.len(),
                prods.len() == j,
                self@.in_grammar(),
                views(productions@) == self@.get().prods,
                forall|q: int|
                    0 <= q < j ==> (#[trigger] prods[q])@ == (ProdRefSpec::<E> {
                        grammar: self@.grammar,
                        rule: self@.rule,
                        prod: q,
                    }),
            decreases productions.len() - j,
        {
            let action_value = self.grammar.action_value(productions[j].action_key());
            prods.push(ProdRef { grammar: self.grammar, rule: self.rule, prod: j, action_value });
            j += 1;
        }
        assert(views(prods@) =~= self@.grammar.rule_prod_refs(self@.rule));
        prods
    }

    /// Whether two views of rules of the same grammar denote the same rule.
    pub fn same(&self, other: &RuleRef<'a, E>) -> (same: bool)
        requires
            self@.grammar == other@.grammar,
        ensures
            same == (self@ == other@),
    {
        self.rule == other.rule
    }

    /// Whether the rule stands before `other` in their common grammar, which
    /// is to say that its head comes before the head of `other`.
    pub fn precedes(&self, other: &RuleRef<'a, E>) -> (before: bool)
        requires
            self@.grammar == other@.grammar,
        ensures
            before == (self@.rule < other@.rule),
            before == nt_before::<E>(self@.get().head, other@.get().head),
    {
        proof {
            use_type_invariant(self);
            use_type_invariant(other);
        }
        let rules = self.grammar.rule_set();
        proof {
            lemma_position_is_head_order(self@.grammar, self@.rule, other@.rule);
        }
        self.rule < other.rule
    }
}

impl<'a, E: ElementTypes> ProdRef<'a, E> {
    #[verifier::type_invariant]
    spec fn is_valid(self) -> bool {
        &&& self@.in_grammar()
        &&& match self.action_value {
            Some(value) => self@.action_value() == Some(*value),
            None => self@.action_value() is None,
        }
    }

    /// The production itself.
    fn production(&self) -> (p: &'a Production<E>)
        ensures
            self@.in_grammar(),
            p@ == self@.get(),
    {
        proof {
            use_type_invariant(self);
        }
        &self.grammar.rule_set()[self.rule].prods()[self.prod]
    }

    /// The head of the rule that the production belongs to.
    pub fn head(&self) -> (head: &'a E::NonTerm)
        ensures
            self@.in_grammar(),
            head@ == self@.head(),
    {
        proof {
            use_type_invariant(self);
        }
        self.grammar.rule_set()[self.rule].head()
    }

    /// The key that names the production.
    pub fn prod_key(&self) -> (key: ProdKey<E>)
        ensures
            self@.in_grammar(),
            key@ == self@.key(),
    {
        ProdKey::new(self.head().duplicate(), self.action_key().duplicate())
    }

    /// The right-hand side with its binding names.
    pub fn prod_elements(&self) -> (elements: &'a Vec<ProductionElement<E>>)
        ensures
            self@.in_grammar(),
            views(elements@) == self@.get().elements,
    {
        self.production().prod_elements()
    }

    /// The symbols of the right-hand side, in order.
    pub fn elements_iter(&self) -> (symbols: Vec<&'a Element<E>>)
        ensures
            self@.in_grammar(),
            views(symbols@) == prod_symbols(self@.get()),
    {
        self.production().elements_iter()
    }

    /// The symbol at position `index` of the right-hand side, if there is one.
    pub fn element_at(&self, index: usize) -> (e: Option<&'a Element<E>>)
        ensures
            self@.in_grammar(),
            match e {
                Some(e) => index < self@.get().elements.len() && e@
                    == self@.get().elements[index as int].element,
                None => index >= self@.get().elements.len(),
            },
    {
        self.production().element_at(index)
    }

    /// The action key.
    pub fn action_key(&self) -> (key: &'a E::ActionKey)
        ensures
            self@.in_grammar(),
            key@ == self@.get().action_key,
    {
        self.production().action_key()
    }

    /// Whether the grammar gives the action key a value.
    pub fn has_action_value(&self) -> (has: bool)
        ensures
            self@.in_grammar(),
            has == self@.action_value() is Some,
    {
        proof {
            use_type_invariant(self);
        }
        self.action_value.is_some()
    }

    /// The value of the action key, which the grammar must give.
    pub fn action_value(&self) -> (value: &'a E::ActionValue)
        requires
            self@.action_value() is Some,
        ensures
            self@.in_grammar(),
            self@.action_value() == Some(*value),
    {
        proof {
            use_type_invariant(self);
        }
        self.action_value.unwrap()
    }

    /// Whether two views of productions of the same grammar denote the same
    /// production.
    pub fn same(&self, other: &ProdRef<'a, E>) -> (same: bool)
        requires
            self@.grammar == other@.grammar,
        ensures
            same == (self@ == other@),
    {
        self.rule == other.rule && self.prod == other.prod
    }

    /// Whether the production stands before `other` in their common grammar.
    pub fn precedes(&self, other: &ProdRef<'a, E>) -> (before: bool)
        requires
            self@.grammar == other@.grammar,
        ensures
            before == self@.precedes(other@),
    {
        self.rule < other.rule || (self.rule == other.rule && self.prod < other.prod)
    }
}

/// Where the rules stand in ascending order of their heads, a rule stands
/// before another exactly when its head comes before the other's.
pub proof fn lemma_position_is_head_order<E: ElementTypes>(g: GrammarSpec<E>, i: int, j: int)
    requires
        g.sorted_heads(),
        g.is_rule(i),
        g.is_rule(j),
    ensures
        i < j <==> nt_before::<E>(g.rules[i].head, g.rules[j].head),
{
    let heads = heads_of(g.rules);
    assert(heads[i] == g.rules[i].head);
    assert(heads[j] == g.rules[j].head);
    <E::NonTerm as Ordered>::lemma_before_irreflexive(heads[i]);
    if i < j {
        assert(<E::NonTerm as Ordered>::before(heads[i], heads[j]));
    }
    if j < i {
        assert(<E::NonTerm as Ordered>::before(heads[j], heads[i]));
        if <E::NonTerm as Ordered>::before(heads[i], heads[j]) {
            <E::NonTerm as Ordered>::lemma_before_transitive(heads[i], heads[j], heads[i]);
        }
    }
}

/// The views of the productions of a grammar denote exactly its productions.
pub proof fn lemma_prod_refs<E: ElementTypes>(g: GrammarSpec<E>, r: ProdRefSpec<E>)
    ensures
        g.prod_refs().contains(r) <==> r.grammar == g && r.in_grammar(),
{
    let parts = g.prod_refs_upto(g.rules.len() as int);
    lemma_flatten_contains(parts, r);
    if g.prod_refs().contains(r) {
        let (a, b) = choose|a: int, b: int|
            0 <= a < parts.len() && 0 <= b < parts[a].len() && #[trigger] parts[a][b] == r;
        assert(r.rule == a && r.prod == b);
    }
    if r.grammar == g && r.in_grammar() {
        assert(parts[r.rule][r.prod] == r);
    }
}

impl<E: ElementTypes> Grammar<E> {
    /// Views of the rules of the grammar, in ascending order of their heads.
    pub fn rules(&self) -> (rules: Vec<RuleRef<'_, E>>)
        ensures
            self@.sorted_heads(),
            rules.len() == self@.rules.len(),
            forall|i: int|
                0 <= i < rules.len() ==> (#[trigger] rules[i])@ == (RuleRefSpec::<E> {
                    grammar: self@,
                    rule: i,
                }),
    {
        let count = self.rule_set().len();
        let mut rules: Vec<RuleRef<'_, E>> = Vec::new();
        let mut i: usize = 0;
        while i < count
            invariant
                i <= count,
                count == self@.rules.len(),
                rules.len() == i,
                forall|q: int|
                    0 <= q < i ==> (#[trigger] rules[q])@ == (RuleRefSpec::<E> {
                        grammar: self@,
                        rule: q,
                    }),
            decreases count - i,
        {
            rules.push(RuleRef { grammar: self, rule: i });
            i += 1;
        }
        rules
    }

    /// Views of all productions of the grammar, rule after rule and the rules
    /// in ascending order of their heads, each with the value of its action
    /// key where the grammar has one.
    pub fn prods(&self) -> (prods: Vec<ProdRef<'_, E>>)
        ensures
            self@.sorted_heads(),
            views(prods@) == self@.prod_refs(),
            forall|q: int|
                0 <= q < prods.len() ==> (#[trigger] prods[q])@.grammar == self@ && prods[q]@.in_grammar(),
    {
        let rules = self.rules();
        let mut prods: Vec<ProdRef<'_, E>> = Vec::new();
        let mut i: usize = 0;
        assert(self@.prod_refs_upto(0) =~= Seq::empty());
        assert(views(prods@) =~= Seq::<Seq<ProdRefSpec<E>>>::empty().flatten());
        while i < rules.len()
            invariant
                i <= rules.len(),
                rules.len() == self@.rules.len(),
                forall|q: int|
                    0 <= q < rules.len() ==> (#[trigger] rules[q])@ == (RuleRefSpec::<E> {
                        grammar: self@,
                        rule: q,
                    }),
                views(prods@) == self@.prod_refs_upto(i as int).flatten(),
            decreases rules.len() - i,
        {
            let mut of_rule = rules[i].prod_views();
            let ghost before = prods@;
            let ghost added = of_rule@;
            prods.append(&mut of_rule);
            proof {
                let done = self@.prod_refs_upto(i as int);
                let this = self@.rule_prod_refs(i as int);
                assert(views(added) == this);
                assert(views(before + added) =~= views(before) + views(added));
                assert(self@.prod_refs_upto(i + 1) =~= done.push(this));
                done.lemma_flatten_push(this);
            }
            i += 1;
        }
        proof {
            assert forall|q: int| 0 <= q < prods.len() implies (#[trigger] prods[q])@.grammar == self@
                && prods[q]@.in_grammar() by {
                assert(views(prods@)[q] == prods[q]@);
                assert(self@.prod_refs().contains(prods[q]@));
                lemma_prod_refs(self@, prods[q]@);
            }
        }
        prods
    }
}

} // verus!
