//! Grammar representation and static analysis for a parser-generator toolkit.
//!
//! The crate models context-free grammars, validates them on construction and
//! computes which nonterminals can derive the empty symbol sequence, together
//! with one derivation tree for each of them.

use vstd::prelude::*;
use crate::grammar::model::GrammarSpec;
use crate::grammar::nullability::lemma_nullability_by_rules;
use crate::grammar::nullables::calculate_nullables;
use crate::grammar::nullables::GrammarNullableInfo;
use crate::grammar::nullables::NullableError;
use crate::grammar::ElementTypes;
use crate::grammar::Grammar;

pub mod grammar;
pub mod utils;

verus! {

/// A grammar together with the table of its nullable nonterminals.
#[derive(Debug)]
pub struct NullableGrammar<E: ElementTypes> {
    grammar: Grammar<E>,
    nullables: GrammarNullableInfo<E>,
}

impl<E: ElementTypes> View for NullableGrammar<E> {
    type V = GrammarSpec<E>;

    closed spec fn view(&self) -> GrammarSpec<E> {
        self.grammar@
    }
}

impl<E: ElementTypes> Clone for NullableGrammar<E> where E::ActionValue: Clone {
    /// The copy has the same start nonterminal and rules, and so the same
    /// nullable nonterminals.
    fn clone(&self) -> (copy: Self)
        ensures
            copy@.start == self@.start,
            copy@.rules == self@.rules,
    {
        proof {
            use_type_invariant(self);
        }
        let grammar = self.grammar.clone();
        let nullables = self.nullables.clone();
        proof {
            lemma_nullability_by_rules(self.grammar@, grammar@, nullables@);
        }
        NullableGrammar { grammar, nullables }
    }
}

impl<E: ElementTypes> NullableGrammar<E> {
    #[verifier::type_invariant]
    spec fn table_fits(self) -> bool {
        self.grammar@.is_nullable_table(self.nullables@)
    }

    /// Computes the nullable nonterminals of `grammar` and keeps both.
    ///
    /// Fails exactly when some nonterminal of the grammar derives the empty
    /// sequence in more than one way.
    pub fn new(grammar: Grammar<E>) -> (r: Result<Self, NullableError>)
        ensures
            r is Err <==> grammar@.has_nullable_ambiguity(),
            r matches Err(error) ==> error == NullableError::NullableAmbiguity,
            r matches Ok(ng) ==> ng@ == grammar@,
    {
        match calculate_nullables(&grammar) {
            Ok(nullables) => Ok(NullableGrammar { grammar, nullables }),
            Err(error) => Err(error),
        }
    }

    /// Whether `nt` can derive the empty sequence.
    pub fn is_nullable(&self, nt: &E::NonTerm) -> (nullable: bool)
        ensures
            nullable == self@.nullable(nt@),
    {
        proof {
            use_type_invariant(self);
            assert(self.nullables@.dom().contains(nt@) <==> self@.nullable_set().contains(nt@));
        }
        self.nullables.is_nullable(nt)
    }

    /// The grammar.
    pub fn grammar(&self) -> (grammar: &Grammar<E>)
        ensures
            grammar@ == self@,
    {
        &self.grammar
    }

    /// The table of the nullable nonterminals of the grammar.
    pub fn nullables(&self) -> (nullables: &GrammarNullableInfo<E>)
        ensures
            self@.is_nullable_table(nullables@),
    {
        proof {
            use_type_invariant(self);
        }
        &self.nullables
    }
}

} // verus!
