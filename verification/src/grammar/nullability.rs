//! The theory of nullable nonterminals: the properties of the model that the
//! computation of the nullable set rests on, and the laws that relate
//! nullable nonterminals, their productions and their derivation trees.

use vstd::prelude::*;
use crate::grammar::model::named_child;
use crate::grammar::model::ElementSpec;
use crate::grammar::model::GrammarSpec;
use crate::grammar::model::NonTermId;
use crate::grammar::model::WitnessSpec;
use crate::grammar::ElementTypes;

verus! {

/// A right-hand side that lies within a set lies within every larger set.
pub proof fn lemma_rhs_within_grows<E: ElementTypes>(
    g: GrammarSpec<E>,
    i: int,
    j: int,
    s: Set<NonTermId<E>>,
    t: Set<NonTermId<E>>,
)
    requires
        s.subset_of(t),
        g.rhs_within(i, j, s),
    ensures
        g.rhs_within(i, j, t),
{
    assert forall|k: int| 0 <= k < g.rules[i].prods[j].elements.len() implies match #[trigger] g.elem(
        i,
        j,
        k,
    ) {
        ElementSpec::NonTerm(nt) => t.contains(nt),
        ElementSpec::Term(_) => false,
    } by {
        match g.elem(i, j, k) {
            ElementSpec::NonTerm(nt) => {
                assert(s.contains(nt));
            },
            ElementSpec::Term(_) => {},
        }
    }
}

/// One step from a larger set yields a larger set.
pub proof fn lemma_step_grows<E: ElementTypes>(
    g: GrammarSpec<E>,
    s: Set<NonTermId<E>>,
    t: Set<NonTermId<E>>,
)
    requires
        s.subset_of(t),
    ensures
        g.nullable_step(s).subset_of(g.nullable_step(t)),
{
    assert forall|nt: NonTermId<E>| g.nullable_step(s).contains(nt) implies g.nullable_step(
        t,
    ).contains(nt) by {
        let (i, j) = choose|i: int, j: int| g.derives_within(nt, i, j, s);
        lemma_rhs_within_grows(g, i, j, s, t);
        assert(g.derives_within(nt, i, j, t));
    }
}

/// Allowing higher derivation trees loses no nonterminal.
pub proof fn lemma_upto_grows<E: ElementTypes>(g: GrammarSpec<E>, n: nat, m: nat)
    requires
        n <= m,
    ensures
        g.nullable_upto(n).subset_of(g.nullable_upto(m)),
    decreases m,
{
    if n < m {
        if n == 0 {
        } else {
            lemma_upto_grows(g, (n - 1) as nat, (m - 1) as nat);
            lemma_step_grows(g, g.nullable_upto((n - 1) as nat), g.nullable_upto((m - 1) as nat));
        }
    }
}

/// What derives the empty sequence by a tree of some height is nullable.
pub proof fn lemma_upto_nullable<E: ElementTypes>(g: GrammarSpec<E>, n: nat)
    ensures
        g.nullable_upto(n).subset_of(g.nullable_set()),
{
    assert forall|nt: NonTermId<E>| g.nullable_upto(n).contains(nt) implies g.nullable_set().contains(
        nt,
    ) by {
        assert(g.nullable_within(nt, n));
    }
}

/// A height that suffices for the first `len` symbols of a right-hand side
/// of nullable nonterminals.
proof fn lemma_rhs_height<E: ElementTypes>(g: GrammarSpec<E>, i: int, j: int, len: nat) -> (n: nat)
    requires
        g.prod_nullable(i, j),
        len <= g.rules[i].prods[j].elements.len(),
    ensures
        forall|k: int|
            0 <= k < len ==> match #[trigger] g.elem(i, j, k) {
                ElementSpec::NonTerm(nt) => g.nullable_upto(n).contains(nt),
                ElementSpec::Term(_) => false,
            },
    decreases len,
{
    if len == 0 {
        0
    } else {
        let before = lemma_rhs_height(g, i, j, (len - 1) as nat);
        let last = g.elem(i, j, len - 1);
        let nt = last->NonTerm_0;
        assert(g.nullable_set().contains(nt));
        let own = choose|own: nat| g.nullable_within(nt, own);
        let n = if before < own {
            own
        } else {
            before
        };
        lemma_upto_grows(g, before, n);
        lemma_upto_grows(g, own, n);
        assert forall|k: int| 0 <= k < len implies match #[trigger] g.elem(i, j, k) {
            ElementSpec::NonTerm(c) => g.nullable_upto(n).contains(c),
            ElementSpec::Term(_) => false,
        } by {
            if k < len - 1 {
                match g.elem(i, j, k) {
                    ElementSpec::NonTerm(c) => {
                        assert(g.nullable_upto(before).contains(c));
                    },
                    ElementSpec::Term(_) => {},
                }
            }
        }
        n
    }
}

/// A nonterminal is nullable exactly when it has a production whose every
/// right-hand-side element is a nullable nonterminal. A production with an
/// empty right-hand side is such a production.
pub proof fn lemma_nullable_iff_has_nullable_prod<E: ElementTypes>(
    g: GrammarSpec<E>,
    nt: NonTermId<E>,
)
    ensures
        g.nullable(nt) <==> exists|i: int, j: int| g.nullable_prod_of(nt, i, j),
{
    if g.nullable(nt) {
        let n = choose|n: nat| g.nullable_within(nt, n);
        assert(n > 0);
        let before = g.nullable_upto((n - 1) as nat);
        let (i, j) = choose|i: int, j: int| g.derives_within(nt, i, j, before);
        lemma_upto_nullable(g, (n - 1) as nat);
        lemma_rhs_within_grows(g, i, j, before, g.nullable_set());
        assert(g.nullable_prod_of(nt, i, j));
    }
    if exists|i: int, j: int| g.nullable_prod_of(nt, i, j) {
        let (i, j) = choose|i: int, j: int| g.nullable_prod_of(nt, i, j);
        let n = lemma_rhs_height(g, i, j, g.rules[i].prods[j].elements.len());
        assert(g.rhs_within(i, j, g.nullable_upto(n)));
        assert(g.derives_within(nt, i, j, g.nullable_upto(n)));
        assert(g.nullable_within(nt, n + 1));
    }
}

/// The nullable nonterminals lie in every set that holds each nonterminal
/// with a production whose right-hand side lies within the set: they are the
/// least such set.
pub proof fn lemma_nullable_set_is_least<E: ElementTypes>(g: GrammarSpec<E>, s: Set<NonTermId<E>>)
    requires
        g.nullable_step(s).subset_of(s),
    ensures
        g.nullable_set().subset_of(s),
{
    assert forall|nt: NonTermId<E>| g.nullable_set().contains(nt) implies s.contains(nt) by {
        let n = choose|n: nat| g.nullable_within(nt, n);
        lemma_upto_within_closed(g, s, n);
    }
}

/// The nullable nonterminals are exactly the nonterminals with a production
/// whose right-hand side lies within the nullable nonterminals.
pub proof fn lemma_nullable_set_is_fixpoint<E: ElementTypes>(g: GrammarSpec<E>)
    ensures
        g.nullable_step(g.nullable_set()) == g.nullable_set(),
{
    assert forall|nt: NonTermId<E>|
        g.nullable_step(g.nullable_set()).contains(nt) <==> g.nullable_set().contains(nt) by {
        lemma_nullable_iff_has_nullable_prod(g, nt);
        if g.nullable_step(g.nullable_set()).contains(nt) {
            let (i, j) = choose|i: int, j: int| g.derives_within(nt, i, j, g.nullable_set());
            assert(g.nullable_prod_of(nt, i, j));
        }
        if g.nullable(nt) {
            let (i, j) = choose|i: int, j: int| g.nullable_prod_of(nt, i, j);
            assert(g.derives_within(nt, i, j, g.nullable_set()));
        }
    }
    assert(g.nullable_step(g.nullable_set()) =~= g.nullable_set());
}

/// Derivation trees of bounded height stay within every set that one step
/// does not lead out of.
pub proof fn lemma_upto_within_closed<E: ElementTypes>(
    g: GrammarSpec<E>,
    s: Set<NonTermId<E>>,
    n: nat,
)
    requires
        g.nullable_step(s).subset_of(s),
    ensures
        g.nullable_upto(n).subset_of(s),
    decreases n,
{
    if n > 0 {
        lemma_upto_within_closed(g, s, (n - 1) as nat);
        lemma_step_grows(g, g.nullable_upto((n - 1) as nat), s);
    }
}

impl<E: ElementTypes> GrammarSpec<E> {
    /// The height of the lowest derivation tree of the empty sequence from
    /// a nullable nonterminal.
    pub open spec fn nullable_rank(self, nt: NonTermId<E>) -> nat {
        choose|n: nat| self.lowest_at(nt, n)
    }

    /// `nt` has a derivation tree of height `n` and none that is lower.
    pub open spec fn lowest_at(self, nt: NonTermId<E>, n: nat) -> bool {
        self.nullable_within(nt, n) && (n == 0 || !self.nullable_within(nt, (n - 1) as nat))
    }
}

/// Below a tree of height `n` there is a lowest one.
proof fn lemma_lowest_exists<E: ElementTypes>(g: GrammarSpec<E>, nt: NonTermId<E>, n: nat)
    requires
        g.nullable_within(nt, n),
    ensures
        exists|m: nat| g.lowest_at(nt, m),
    decreases n,
{
    if n > 0 && g.nullable_within(nt, (n - 1) as nat) {
        lemma_lowest_exists(g, nt, (n - 1) as nat);
    } else {
        assert(g.lowest_at(nt, n));
    }
}

/// The rank of a nullable nonterminal is positive, is the height of one of
/// its derivation trees, and is at most the height of any of them.
pub proof fn lemma_rank<E: ElementTypes>(g: GrammarSpec<E>, nt: NonTermId<E>)
    requires
        g.nullable(nt),
    ensures
        g.nullable_rank(nt) > 0,
        g.nullable_within(nt, g.nullable_rank(nt)),
        forall|n: nat| #[trigger] g.nullable_within(nt, n) ==> g.nullable_rank(nt) <= n,
{
    let n0 = choose|n: nat| g.nullable_within(nt, n);
    lemma_lowest_exists(g, nt, n0);
    let r = g.nullable_rank(nt);
    assert(g.lowest_at(nt, r));
    assert forall|n: nat| #[trigger] g.nullable_within(nt, n) implies r <= n by {
        if n < r {
            lemma_upto_grows(g, n, (r - 1) as nat);
        }
    }
}

/// Where a nullable nonterminal has only one production that derives the
/// empty sequence, every nonterminal on the right-hand side of that
/// production has a lower rank than its head.
pub proof fn lemma_rank_decreases<E: ElementTypes>(
    g: GrammarSpec<E>,
    nt: NonTermId<E>,
    i: int,
    j: int,
    k: int,
)
    requires
        g.nullable_prod_of(nt, i, j),
        !g.ambiguous_at(nt),
        0 <= k < g.rules[i].prods[j].elements.len(),
    ensures
        g.elem(i, j, k) is NonTerm,
        g.nullable(g.elem(i, j, k)->NonTerm_0),
        g.nullable_rank(g.elem(i, j, k)->NonTerm_0) < g.nullable_rank(nt),
{
    lemma_nullable_iff_has_nullable_prod(g, nt);
    lemma_rank(g, nt);
    let r = g.nullable_rank(nt);
    let before = g.nullable_upto((r - 1) as nat);
    let (i2, j2) = choose|i2: int, j2: int| g.derives_within(nt, i2, j2, before);
    lemma_upto_nullable(g, (r - 1) as nat);
    lemma_rhs_within_grows(g, i2, j2, before, g.nullable_set());
    assert(g.nullable_prod_of(nt, i2, j2));
    assert(i2 == i && j2 == j);
    let child = g.elem(i, j, k)->NonTerm_0;
    assert(before.contains(child));
    assert(g.nullable_within(child, (r - 1) as nat));
    lemma_rank(g, child);
}

/// In a grammar without nullable ambiguity a nonterminal has at most one
/// derivation tree of the empty sequence.
pub proof fn lemma_witness_unique<E: ElementTypes>(
    g: GrammarSpec<E>,
    nt: NonTermId<E>,
    t1: WitnessSpec<E>,
    t2: WitnessSpec<E>,
)
    requires
        !g.has_nullable_ambiguity(),
        g.is_witness(nt, t1),
        g.is_witness(nt, t2),
    ensures
        t1 == t2,
    decreases t1,
{
    let (i1, j1) = choose|i: int, j: int|
        #[trigger] g.nullable_prod_of(nt, i, j) && g.is_witness_by(nt, t1, i, j);
    let (i2, j2) = choose|i: int, j: int|
        #[trigger] g.nullable_prod_of(nt, i, j) && g.is_witness_by(nt, t2, i, j);
    assert(!g.ambiguous_at(nt));
    assert(i1 == i2 && j1 == j2);
    let elements = g.prod(i1, j1).elements;
    assert forall|name: Seq<char>| t1.fields.contains_key(name) implies t2.fields.contains_key(name)
        && t1.fields[name] == t2.fields[name] by {
        assert(named_child(elements, name) is Some);
        lemma_witness_unique(g, named_child(elements, name).unwrap(), t1.fields[name], t2.fields[name]);
    }
    assert forall|name: Seq<char>| t2.fields.contains_key(name) implies t1.fields.contains_key(
        name,
    ) by {
        assert(named_child(elements, name) is Some);
    }
    assert(t1.fields =~= t2.fields);
}

/// A grammar without nullable ambiguity has only one table of nullable
/// nonterminals: whatever computes such a table computes the same one.
pub proof fn lemma_nullable_table_unique<E: ElementTypes>(
    g: GrammarSpec<E>,
    a: Map<NonTermId<E>, WitnessSpec<E>>,
    b: Map<NonTermId<E>, WitnessSpec<E>>,
)
    requires
        !g.has_nullable_ambiguity(),
        g.is_nullable_table(a),
        g.is_nullable_table(b),
    ensures
        a == b,
{
    assert forall|nt: NonTermId<E>| a.contains_key(nt) implies b.contains_key(nt) && a[nt] == b[nt] by {
        assert(b.dom().contains(nt));
        lemma_witness_unique(g, nt, a[nt], b[nt]);
    }
    assert(a =~= b);
}

/// Grammars with the same rules agree on which right-hand sides lie within
/// a set and on what one step yields from it.
proof fn lemma_same_step<E: ElementTypes>(a: GrammarSpec<E>, b: GrammarSpec<E>, s: Set<NonTermId<E>>)
    requires
        a.rules == b.rules,
    ensures
        forall|nt: NonTermId<E>, i: int, j: int|
            a.derives_within(nt, i, j, s) ==> #[trigger] b.derives_within(nt, i, j, s),
        a.nullable_step(s).subset_of(b.nullable_step(s)),
{
    assert forall|nt: NonTermId<E>, i: int, j: int| a.derives_within(nt, i, j, s) implies #[trigger] b.derives_within(
        nt,
        i,
        j,
        s,
    ) by {
        assert forall|k: int| 0 <= k < b.rules[i].prods[j].elements.len() implies match #[trigger] b.elem(
            i,
            j,
            k,
        ) {
            ElementSpec::NonTerm(c) => s.contains(c),
            ElementSpec::Term(_) => false,
        } by {
            assert(a.elem(i, j, k) == b.elem(i, j, k));
        }
    }
    assert forall|nt: NonTermId<E>| a.nullable_step(s).contains(nt) implies b.nullable_step(s).contains(
        nt,
    ) by {
        let (i, j) = choose|i: int, j: int| a.derives_within(nt, i, j, s);
        assert(b.derives_within(nt, i, j, s));
    }
}

/// Grammars with the same rules have the same nullable nonterminals.
proof fn lemma_same_nullables<E: ElementTypes>(a: GrammarSpec<E>, b: GrammarSpec<E>)
    requires
        a.rules == b.rules,
    ensures
        a.nullable_set() == b.nullable_set(),
        forall|nt: NonTermId<E>, i: int, j: int|
            #![trigger a.nullable_prod_of(nt, i, j)]
            #![trigger b.nullable_prod_of(nt, i, j)]
            a.nullable_prod_of(nt, i, j) == b.nullable_prod_of(nt, i, j),
{
    lemma_nullable_set_is_fixpoint(a);
    lemma_nullable_set_is_fixpoint(b);
    lemma_same_step(a, b, b.nullable_set());
    lemma_same_step(b, a, a.nullable_set());
    lemma_nullable_set_is_least(a, b.nullable_set());
    lemma_nullable_set_is_least(b, a.nullable_set());
    assert(a.nullable_set() =~= b.nullable_set());
    lemma_same_step(a, b, a.nullable_set());
    lemma_same_step(b, a, a.nullable_set());
}

/// Grammars with the same rules have the same derivation trees.
proof fn lemma_same_witnesses<E: ElementTypes>(
    a: GrammarSpec<E>,
    b: GrammarSpec<E>,
    nt: NonTermId<E>,
    t: WitnessSpec<E>,
)
    requires
        a.rules == b.rules,
        a.is_witness(nt, t),
    ensures
        b.is_witness(nt, t),
    decreases t,
{
    lemma_same_nullables(a, b);
    let (i, j) = choose|i: int, j: int|
        #[trigger] a.nullable_prod_of(nt, i, j) && a.is_witness_by(nt, t, i, j);
    assert(b.nullable_prod_of(nt, i, j));
    assert forall|name: Seq<char>| #[trigger] t.fields.contains_key(name) implies b.is_witness(
        named_child(b.prod(i, j).elements, name).unwrap(),
        t.fields[name],
    ) by {
        lemma_same_witnesses(a, b, named_child(a.prod(i, j).elements, name).unwrap(), t.fields[name]);
    }
    assert(b.is_witness_by(nt, t, i, j));
}

/// Which nonterminals are nullable, whether that is ambiguous, and what
/// their derivation trees are depends on the rules of a grammar alone.
pub proof fn lemma_nullability_by_rules<E: ElementTypes>(
    a: GrammarSpec<E>,
    b: GrammarSpec<E>,
    table: Map<NonTermId<E>, WitnessSpec<E>>,
)
    requires
        a.rules == b.rules,
    ensures
        a.nullable_set() == b.nullable_set(),
        a.has_nullable_ambiguity() == b.has_nullable_ambiguity(),
        a.is_nullable_table(table) == b.is_nullable_table(table),
{
    lemma_same_nullables(a, b);
    if a.has_nullable_ambiguity() {
        let nt = choose|nt: NonTermId<E>| a.ambiguous_at(nt);
        let (i1, j1, i2, j2) = choose|i1: int, j1: int, i2: int, j2: int|
            #[trigger] a.nullable_prod_of(nt, i1, j1) && #[trigger] a.nullable_prod_of(nt, i2, j2) && (i1
                != i2 || j1 != j2);
        assert(b.nullable_prod_of(nt, i1, j1) && b.nullable_prod_of(nt, i2, j2));
        assert(b.ambiguous_at(nt));
    }
    if b.has_nullable_ambiguity() {
        let nt = choose|nt: NonTermId<E>| b.ambiguous_at(nt);
        let (i1, j1, i2, j2) = choose|i1: int, j1: int, i2: int, j2: int|
            #[trigger] b.nullable_prod_of(nt, i1, j1) && #[trigger] b.nullable_prod_of(nt, i2, j2) && (i1
                != i2 || j1 != j2);
        assert(a.nullable_prod_of(nt, i1, j1) && a.nullable_prod_of(nt, i2, j2));
        assert(a.ambiguous_at(nt));
    }
    if a.is_nullable_table(table) {
        assert forall|nt: NonTermId<E>| #[trigger] table.contains_key(nt) implies b.is_witness(
            nt,
            table[nt],
        ) by {
            lemma_same_witnesses(a, b, nt, table[nt]);
        }
    }
    if b.is_nullable_table(table) {
        assert forall|nt: NonTermId<E>| #[trigger] table.contains_key(nt) implies a.is_witness(
            nt,
            table[nt],
        ) by {
            lemma_same_witnesses(b, a, nt, table[nt]);
        }
    }
}

impl<E: ElementTypes> GrammarSpec<E> {
    /// The production at `(i, j)` has no terminal on its right-hand side.
    pub open spec fn terminal_free(self, i: int, j: int) -> bool {
        forall|k: int|
            0 <= k < self.rules[i].prods[j].elements.len() ==> #[trigger] self.elem(i, j, k) is NonTerm
    }

    /// `(i, j)` is a production of the grammar without terminals whose key
    /// labels the root of `t`.
    pub open spec fn empty_step(self, t: WitnessSpec<E>, i: int, j: int) -> bool {
        self.is_prod(i, j) && t.action == self.prod_key(i, j) && self.terminal_free(i, j)
    }

    /// Every node of `t` is labelled with the key of a production that has no
    /// terminal on its right-hand side: expanding the tree consumes no
    /// terminal at any step.
    pub open spec fn consumes_nothing(self, t: WitnessSpec<E>) -> bool
        decreases t,
    {
        &&& exists|i: int, j: int| self.empty_step(t, i, j)
        &&& t.fields.dom().finite()
        &&& forall|name: Seq<char>| #[trigger]
            t.fields.contains_key(name) ==> self.consumes_nothing(t.fields[name])
    }
}

/// A derivation tree of the empty sequence witnesses that its nonterminal is
/// nullable, and expanding it consumes no terminal at any step.
pub proof fn lemma_witness_sound<E: ElementTypes>(
    g: GrammarSpec<E>,
    nt: NonTermId<E>,
    t: WitnessSpec<E>,
)
    requires
        g.is_witness(nt, t),
    ensures
        g.nullable(nt),
        t.action.head == nt,
        g.consumes_nothing(t),
    decreases t,
{
    let (i, j) = choose|i: int, j: int|
        #[trigger] g.nullable_prod_of(nt, i, j) && g.is_witness_by(nt, t, i, j);
    lemma_nullable_iff_has_nullable_prod(g, nt);
    assert(g.empty_step(t, i, j));
    assert forall|name: Seq<char>| #[trigger] t.fields.contains_key(name) implies g.consumes_nothing(
        t.fields[name],
    ) by {
        lemma_witness_sound(g, named_child(g.prod(i, j).elements, name).unwrap(), t.fields[name]);
    }
}

} // verus!
