//! The computation of the nullable nonterminals of a grammar.
//!
//! The computation runs in two passes. The first finds, by iteration to a
//! fixpoint, for every nonterminal the productions that derive the empty
//! sequence. If some nonterminal has more than one, the grammar is ambiguous
//! and the computation fails. The second pass builds for every nullable
//! nonterminal the derivation tree that its one such production gives.

use vstd::prelude::*;
use crate::grammar::model::named_child;
use crate::grammar::model::prod_symbols;
use crate::grammar::model::ElementSpec;
use crate::grammar::model::GrammarSpec;
use crate::grammar::model::NonTermId;
use crate::grammar::model::ProdElementSpec;
use crate::grammar::model::ProdRefSpec;
use crate::grammar::model::WitnessSpec;
use crate::grammar::nullability::lemma_nullable_iff_has_nullable_prod;
use crate::grammar::nullability::lemma_nullable_set_is_least;
use crate::grammar::nullability::lemma_rank_decreases;
use crate::grammar::nullability::lemma_rhs_within_grows;
use crate::grammar::refs::lemma_prod_refs;
use crate::grammar::refs::ProdRef;
use crate::grammar::Element;
use crate::grammar::ElementTypes;
use crate::grammar::Grammar;
use crate::grammar::ProdKey;
use crate::utils::ascending;
use crate::utils::key_position;
use crate::utils::lemma_ascending_distinct;
use crate::utils::sort_entries;
use crate::utils::keys;
use crate::utils::lemma_pairs_to_map_dom;
use crate::utils::lemma_push_contains;
use crate::utils::lemma_pairs_to_map_last;
use crate::utils::named_trees;
use crate::utils::pairs_to_map;
use crate::utils::views;
use crate::utils::Name;
use crate::utils::Identified;
use crate::utils::TreeNode;

verus! {

/// The views stand in ascending order of their positions in the grammar.
pub open spec fn positions_ascend<E: ElementTypes>(refs: Seq<ProdRefSpec<E>>) -> bool {
    forall|a: int, b: int| 0 <= a < b < refs.len() ==> (#[trigger] refs[a]).precedes(#[trigger] refs[b])
}

/// The productions of one nonterminal that are known to derive the empty
/// sequence. They are put in each once, in ascending order of their
/// positions in the grammar.
pub struct InternalNullableInfo<'a, E: ElementTypes> {
    nullable_actions: Vec<ProdRef<'a, E>>,
}

impl<'a, E: ElementTypes> View for InternalNullableInfo<'a, E> {
    type V = Seq<ProdRefSpec<E>>;

    closed spec fn view(&self) -> Seq<ProdRefSpec<E>> {
        views(self.nullable_actions@)
    }
}

impl<'a, E: ElementTypes> Clone for InternalNullableInfo<'a, E> {
    fn clone(&self) -> (copy: Self)
        ensures
            copy@ == self@,
    {
        let mut nullable_actions: Vec<ProdRef<'a, E>> = Vec::new();
        let mut q: usize = 0;
        while q < self.nullable_actions.len()
            invariant
                q <= self.nullable_actions.len(),
                nullable_actions.len() == q,
                forall|a: int| 0 <= a < q ==> (#[trigger] nullable_actions[a]) == self.nullable_actions[a],
            decreases self.nullable_actions.len() - q,
        {
            nullable_actions.push(self.nullable_actions[q]);
            q += 1;
        }
        assert(views(nullable_actions@) =~= views(self.nullable_actions@));
        InternalNullableInfo { nullable_actions }
    }
}

impl<'a, E: ElementTypes> InternalNullableInfo<'a, E> {
    /// No production is known yet.
    pub fn new() -> (info: Self)
        ensures
            info@ == Seq::<ProdRefSpec<E>>::empty(),
    {
        let info = InternalNullableInfo { nullable_actions: Vec::new() };
        assert(info@ =~= Seq::<ProdRefSpec<E>>::empty());
        info
    }

    /// The productions that are known.
    pub fn nullable_actions(&self) -> (actions: &Vec<ProdRef<'a, E>>)
        ensures
            views(actions@) == self@,
    {
        &self.nullable_actions
    }

    /// Records `prod` at its place unless it is known already. Says whether
    /// it was new.
    pub fn insert(&mut self, prod: ProdRef<'a, E>) -> (added: bool)
        requires
            forall|q: int| 0 <= q < old(self)@.len() ==> (#[trigger] old(self)@[q]).grammar == prod@.grammar,
            positions_ascend(old(self)@),
        ensures
            added == !old(self)@.contains(prod@),
            added ==> exists|p: int|
                0 <= p <= old(self)@.len() && final(self)@ == #[trigger] old(self)@.insert(p, prod@),
            !added ==> *final(self) == *old(self),
            positions_ascend(final(self)@),
    {
        let ghost before = self@;
        let mut p: usize = 0;
        loop
            invariant
                p <= self.nullable_actions.len(),
                *self == *old(self),
                before == self@,
                positions_ascend(before),
                forall|a: int| 0 <= a < before.len() ==> (#[trigger] before[a]).grammar == prod@.grammar,
                forall|a: int| 0 <= a < p ==> (#[trigger] before[a]).precedes(prod@),
            ensures
                p == before.len() || !before[p as int].precedes(prod@),
            decreases self.nullable_actions.len() - p,
        {
            if p >= self.nullable_actions.len() {
                break ;
            }
            assert(before[p as int] == self.nullable_actions[p as int]@);
            assert(before[p as int].grammar == prod@.grammar);
            if !self.nullable_actions[p].precedes(&prod) {
                break ;
            }
            p += 1;
        }
        if p < self.nullable_actions.len() {
            assert(before[p as int] == self.nullable_actions[p as int]@);
            assert(before[p as int].grammar == prod@.grammar);
            if self.nullable_actions[p].same(&prod) {
                return false;
            }
        }
        proof {
            assert forall|a: int| p <= a < before.len() implies prod@.precedes(#[trigger] before[a]) by {
                assert(before[a].grammar == prod@.grammar);
                assert(before[p as int].grammar == prod@.grammar);
                if p < a {
                    assert(before[p as int].precedes(before[a]));
                }
            }
            if before.contains(prod@) {
                let a = choose|a: int| 0 <= a < before.len() && before[a] == prod@;
                if a < p {
                    assert(before[a].precedes(prod@));
                } else {
                    assert(prod@.precedes(before[a]));
                }
            }
        }
        self.nullable_actions.insert(p, prod);
        proof {
            assert(self@ =~= before.insert(p as int, prod@));
            assert forall|a: int, b: int| 0 <= a < b < self@.len() implies (#[trigger] self@[a]).precedes(
                #[trigger] self@[b],
            ) by {
                if a < p && b < p {
                    assert(before[a].precedes(before[b]));
                } else if a < p && b == p {
                    assert(before[a].precedes(prod@));
                } else if a < p {
                    assert(before[a].precedes(before[b - 1]));
                } else if a == p {
                    assert(prod@.precedes(before[b - 1]));
                } else {
                    assert(before[a - 1].precedes(before[b - 1]));
                }
            }
        }
        true
    }
}

/// Whether every right-hand-side element of `prod` is a nonterminal with an
/// entry in `nullables`.
pub fn is_prod_nullable<E: ElementTypes, V>(
    nullables: &Vec<(E::NonTerm, V)>,
    prod: &ProdRef<E>,
) -> (nullable: bool)
    ensures
        prod@.in_grammar(),
        nullable == prod@.grammar.rhs_within(prod@.rule, prod@.prod, keys(nullables@).to_set()),
{
    let symbols = prod.elements_iter();
    let ghost g = prod@.grammar;
    let ghost i = prod@.rule;
    let ghost j = prod@.prod;
    let ghost known = keys(nullables@).to_set();
    let mut k: usize = 0;
    assert(views(symbols@).len() == symbols.len());
    assert(prod_symbols(g.rules[i].prods[j]).len() == g.rules[i].prods[j].elements.len());
    while k < symbols.len()
        invariant
            k <= symbols.len(),
            symbols.len() == g.rules[i].prods[j].elements.len(),
            prod@.in_grammar(),
            g == prod@.grammar,
            i == prod@.rule,
            j == prod@.prod,
            known == keys(nullables@).to_set(),
            views(symbols@) == prod_symbols(g.rules[i].prods[j]),
            forall|q: int|
                0 <= q < k ==> match #[trigger] g.elem(i, j, q) {
                    ElementSpec::NonTerm(nt) => known.contains(nt),
                    ElementSpec::Term(_) => false,
                },
        decreases symbols.len() - k,
    {
        assert(views(symbols@)[k as int] == g.elem(i, j, k as int));
        match symbols[k] {
            Element::Term(_) => {
                assert(g.elem(i, j, k as int) is Term);
                return false;
            },
            Element::NonTerm(nt) => {
                if key_position(nullables, nt).is_none() {
                    assert(g.elem(i, j, k as int) == ElementSpec::<E>::NonTerm(nt@));
                    return false;
                }
            },
        }
        k += 1;
    }
    true
}

/// `r` denotes a production of `nt` in `g` that derives the empty sequence.
pub open spec fn evidence_for<E: ElementTypes>(
    g: GrammarSpec<E>,
    nt: NonTermId<E>,
    r: ProdRefSpec<E>,
) -> bool {
    r.grammar == g && g.nullable_prod_of(nt, r.rule, r.prod)
}

/// The entry holds at least one production, none twice, in ascending order
/// of their positions, and each of them is a production of the entry's
/// nonterminal that derives the empty sequence.
pub open spec fn entry_sound<'a, E: ElementTypes>(
    g: GrammarSpec<E>,
    entry: (E::NonTerm, InternalNullableInfo<'a, E>),
) -> bool {
    &&& entry.1@.len() > 0
    &&& entry.1@.no_duplicates()
    &&& positions_ascend(entry.1@)
    &&& forall|q: int| 0 <= q < entry.1@.len() ==> evidence_for(g, entry.0@, #[trigger] entry.1@[q])
}

/// No nonterminal has two entries and every entry is sound.
pub open spec fn table_sound<'a, E: ElementTypes>(
    g: GrammarSpec<E>,
    table: Seq<(E::NonTerm, InternalNullableInfo<'a, E>)>,
) -> bool {
    &&& keys(table).no_duplicates()
    &&& forall|e: int| 0 <= e < table.len() ==> entry_sound(g, #[trigger] table[e])
}

/// Every nullable nonterminal has an entry, and the entry of a nonterminal
/// holds each of its productions that derives the empty sequence.
pub open spec fn table_complete<'a, E: ElementTypes>(
    g: GrammarSpec<E>,
    table: Seq<(E::NonTerm, InternalNullableInfo<'a, E>)>,
) -> bool {
    &&& forall|nt: NonTermId<E>| g.nullable(nt) ==> keys(table).contains(nt)
    &&& forall|e: int, r: ProdRefSpec<E>|
        0 <= e < table.len() && evidence_for(g, table[e].0@, r) ==> (#[trigger] table[e].1@.contains(
            r,
        ))
}

/// All productions that the table holds.
pub open spec fn evidence_set<'a, E: ElementTypes>(
    table: Seq<(E::NonTerm, InternalNullableInfo<'a, E>)>,
) -> Set<ProdRefSpec<E>> {
    Set::new(
        |r: ProdRefSpec<E>| exists|e: int| 0 <= e < table.len() && (#[trigger] table[e]).1@.contains(r),
    )
}

/// A sound table holds finitely many productions, at most as many as the
/// grammar has.
proof fn lemma_evidence_bounded<'a, E: ElementTypes>(
    g: GrammarSpec<E>,
    table: Seq<(E::NonTerm, InternalNullableInfo<'a, E>)>,
)
    requires
        table_sound(g, table),
    ensures
        evidence_set(table).finite(),
        evidence_set(table).len() <= g.prod_refs().len(),
{
    let universe = g.prod_refs().to_set();
    assert forall|r: ProdRefSpec<E>| evidence_set(table).contains(r) implies universe.contains(r) by {
        let e = choose|e: int| 0 <= e < table.len() && (#[trigger] table[e]).1@.contains(r);
        assert(entry_sound(g, table[e]));
        let q = choose|q: int| 0 <= q < table[e].1@.len() && table[e].1@[q] == r;
        assert(evidence_for(g, table[e].0@, table[e].1@[q]));
        lemma_prod_refs(g, r);
    }
    vstd::seq_lib::seq_to_set_is_finite(g.prod_refs());
    vstd::set_lib::lemma_len_subset(evidence_set(table), universe);
    g.prod_refs().lemma_cardinality_of_set();
}

/// The nonterminals with an entry in a sound table are nullable.
proof fn lemma_keys_nullable<'a, E: ElementTypes>(
    g: GrammarSpec<E>,
    table: Seq<(E::NonTerm, InternalNullableInfo<'a, E>)>,
)
    requires
        table_sound(g, table),
    ensures
        keys(table).to_set().subset_of(g.nullable_set()),
{
    assert forall|nt: NonTermId<E>| keys(table).to_set().contains(nt) implies g.nullable_set().contains(
        nt,
    ) by {
        let e = choose|e: int| 0 <= e < keys(table).len() && keys(table)[e] == nt;
        assert(entry_sound(g, table[e]));
        assert(evidence_for(g, table[e].0@, table[e].1@[0]));
        lemma_nullable_iff_has_nullable_prod(g, nt);
    }
}

/// Records in the table that `prod` derives the empty sequence, under the
/// head of its rule. Says whether the table did not hold it yet.
fn record<'a, E: ElementTypes>(
    table: &mut Vec<(E::NonTerm, InternalNullableInfo<'a, E>)>,
    prod: ProdRef<'a, E>,
    Ghost(g): Ghost<GrammarSpec<E>>,
) -> (added: bool)
    requires
        table_sound(g, old(table)@),
        evidence_for(g, prod@.head(), prod@),
    ensures
        table_sound(g, final(table)@),
        added == !evidence_set(old(table)@).contains(prod@),
        evidence_set(final(table)@) == evidence_set(old(table)@).insert(prod@),
        !added ==> final(table)@ == old(table)@,
        keys(final(table)@).to_set() == keys(old(table)@).to_set().insert(prod@.head()),
{
    let ghost before = table@;
    let head = prod.head();
    let found = key_position(table, head);
    let idx = match found {
        Some(i) => i,
        None => {
            table.push((head.duplicate(), InternalNullableInfo::new()));
            table.len() - 1
        },
    };
    let ghost mid = table@;
    proof {
        if found is None {
            assert(keys(mid) =~= keys(before).push(head@));
            keys(before).lemma_push_to_set_commute(head@);
            assert forall|a: int, b: int|
                0 <= a < keys(mid).len() && 0 <= b < keys(mid).len() && a != b implies keys(mid)[a]
                != keys(mid)[b] by {
                if a < before.len() && b < before.len() {
                    assert(keys(before)[a] != keys(before)[b]);
                } else if a < before.len() {
                    assert(before[a].0@ != head@);
                } else {
                    assert(before[b].0@ != head@);
                }
            }
            assert forall|e: int| 0 <= e < before.len() implies mid[e] == before[e] by {}
        } else {
            assert(keys(before)[idx as int] == head@);
            assert(keys(before).to_set().insert(head@) =~= keys(before).to_set());
            assert(entry_sound(g, before[idx as int]));
        }
        assert(mid[idx as int].0@ == head@);
        assert forall|q: int| 0 <= q < mid[idx as int].1@.len() implies evidence_for(
            g,
            head@,
            #[trigger] mid[idx as int].1@[q],
        ) by {}
    }
    let added = table[idx].1.insert(prod);
    proof {
        let after = table@;
        let at = if added {
            choose|p: int|
                0 <= p <= mid[idx as int].1@.len() && after[idx as int].1@ == #[trigger] mid[idx as int].1@.insert(
                    p,
                    prod@,
                )
        } else {
            0
        };
        assert(after.len() == mid.len());
        assert(keys(after) =~= keys(mid));
        assert forall|e: int| 0 <= e < after.len() implies entry_sound(g, #[trigger] after[e]) by {
            if e != idx {
                assert(after[e] == mid[e]);
                if found is None {
                    assert(mid[e] == before[e]);
                }
                assert(entry_sound(g, before[e]));
            } else {
                if added {
                    let old_refs = mid[idx as int].1@;
                    assert(after[e].1@ == old_refs.insert(at, prod@));
                    assert forall|a: int, b: int|
                        0 <= a < after[e].1@.len() && 0 <= b < after[e].1@.len() && a
                            != b implies after[e].1@[a] != after[e].1@[b] by {
                        let oa = if a < at { a } else { a - 1 };
                        let ob = if b < at { b } else { b - 1 };
                        if a != at {
                            assert(old_refs.contains(old_refs[oa]));
                        }
                        if b != at {
                            assert(old_refs.contains(old_refs[ob]));
                        }
                        if a != at && b != at {
                            assert(old_refs[oa] != old_refs[ob]);
                        }
                    }
                    assert forall|q: int| 0 <= q < after[e].1@.len() implies evidence_for(
                        g,
                        after[e].0@,
                        #[trigger] after[e].1@[q],
                    ) by {
                        if q < at {
                            assert(after[e].1@[q] == old_refs[q]);
                        } else if q > at {
                            assert(after[e].1@[q] == old_refs[q - 1]);
                        }
                    }
                } else {
                    assert(after[e].1@ == mid[e].1@);
                }
            }
        }
        assert forall|r: ProdRefSpec<E>|
            evidence_set(after).contains(r) <==> evidence_set(before).insert(prod@).contains(r) by {
            if evidence_set(after).contains(r) {
                let e = choose|e: int| 0 <= e < after.len() && (#[trigger] after[e]).1@.contains(r);
                if e != idx {
                    assert(after[e] == mid[e]);
                    assert(before[e].1@.contains(r));
                } else if r != prod@ {
                    let q = choose|q: int| 0 <= q < after[e].1@.len() && after[e].1@[q] == r;
                    if added {
                        if q < at {
                            assert(mid[e].1@[q] == r);
                        } else {
                            assert(mid[e].1@[q - 1] == r);
                        }
                    } else {
                        assert(mid[e].1@[q] == r);
                    }
                    assert(mid[e].1@.contains(r));
                    assert(found is Some);
                    assert(before[e].1@.contains(r));
                }
            }
            if evidence_set(before).contains(r) {
                let e = choose|e: int|
                    0 <= e < before.len() && (#[trigger] before[e]).1@.contains(r);
                let q = choose|q: int| 0 <= q < before[e].1@.len() && before[e].1@[q] == r;
                assert(mid[e] == before[e]);
                if e != idx {
                    assert(after[e] == mid[e]);
                    assert(after[e].1@.contains(r));
                } else {
                    if added {
                        if q < at {
                            assert(after[e].1@[q] == r);
                        } else {
                            assert(after[e].1@[q + 1] == r);
                        }
                    } else {
                        assert(after[e].1@[q] == r);
                    }
                    assert(after[e].1@.contains(r));
                }
            }
            if r == prod@ {
                if added {
                    assert(after[idx as int].1@[at] == r);
                }
                assert(after[idx as int].1@.contains(r));
            }
        }
        assert(evidence_set(after) =~= evidence_set(before).insert(prod@));
        if evidence_set(before).contains(prod@) {
            let e = choose|e: int|
                0 <= e < before.len() && (#[trigger] before[e]).1@.contains(prod@);
            let q = choose|q: int| 0 <= q < before[e].1@.len() && before[e].1@[q] == prod@;
            assert(entry_sound(g, before[e]));
            assert(evidence_for(g, before[e].0@, before[e].1@[q]));
            assert(keys(before)[e] == head@);
            assert(found is Some);
            assert(keys(before)[idx as int] == head@);
            assert(e == idx);
            assert(!added);
        }
        if !added {
            assert(mid[idx as int].1@.contains(prod@));
            assert(found is Some);
            assert(before[idx as int].1@.contains(prod@));
            assert(after =~= before);
        }
    }
    added
}

/// If the right-hand side of `r` lies within the nonterminals of the table,
/// the table holds `r`.
pub open spec fn closed_at<'a, E: ElementTypes>(
    table: Seq<(E::NonTerm, InternalNullableInfo<'a, E>)>,
    r: ProdRefSpec<E>,
) -> bool {
    r.grammar.rhs_within(r.rule, r.prod, keys(table).to_set()) ==> evidence_set(table).contains(r)
}

/// A sound table that holds every production whose right-hand side lies
/// within its own nonterminals is complete.
proof fn lemma_fixpoint_complete<'a, E: ElementTypes>(
    g: GrammarSpec<E>,
    table: Seq<(E::NonTerm, InternalNullableInfo<'a, E>)>,
)
    requires
        table_sound(g, table),
        forall|q: int| 0 <= q < g.prod_refs().len() ==> closed_at(table, #[trigger] g.prod_refs()[q]),
    ensures
        table_complete(g, table),
{
    let known = keys(table).to_set();
    assert forall|r: ProdRefSpec<E>| r.grammar == g && r.in_grammar() implies #[trigger] closed_at(
        table,
        r,
    ) by {
        lemma_prod_refs(g, r);
        let q = choose|q: int| 0 <= q < g.prod_refs().len() && g.prod_refs()[q] == r;
        assert(closed_at(table, g.prod_refs()[q]));
    }
    assert forall|r: ProdRefSpec<E>| evidence_set(table).contains(r) implies known.contains(
        r.head(),
    ) && r.grammar == g by {
        let e = choose|e: int| 0 <= e < table.len() && (#[trigger] table[e]).1@.contains(r);
        assert(entry_sound(g, table[e]));
        let q = choose|q: int| 0 <= q < table[e].1@.len() && table[e].1@[q] == r;
        assert(evidence_for(g, table[e].0@, table[e].1@[q]));
        assert(keys(table)[e] == r.head());
    }
    assert forall|nt: NonTermId<E>| g.nullable_step(known).contains(nt) implies known.contains(nt) by {
        let (i, j) = choose|i: int, j: int| g.derives_within(nt, i, j, known);
        let r = ProdRefSpec::<E> { grammar: g, rule: i, prod: j };
        assert(closed_at(table, r));
        assert(evidence_set(table).contains(r));
    }
    lemma_nullable_set_is_least(g, known);
    assert forall|nt: NonTermId<E>| g.nullable(nt) implies keys(table).contains(nt) by {
        assert(g.nullable_set().contains(nt));
        assert(known.contains(nt));
    }
    assert forall|e: int, r: ProdRefSpec<E>|
        0 <= e < table.len() && evidence_for(g, table[e].0@, r) implies (
    #[trigger] table[e].1@.contains(r)) by {
        lemma_rhs_within_grows(g, r.rule, r.prod, g.nullable_set(), known);
        assert(closed_at(table, r));
        assert(evidence_set(table).contains(r));
        let e2 = choose|e2: int| 0 <= e2 < table.len() && (#[trigger] table[e2]).1@.contains(r);
        assert(entry_sound(g, table[e2]));
        let q = choose|q: int| 0 <= q < table[e2].1@.len() && table[e2].1@[q] == r;
        assert(evidence_for(g, table[e2].0@, table[e2].1@[q]));
        assert(keys(table)[e2] == keys(table)[e]);
    }
}

/// A table with the same nonterminals stands for the same keys.
proof fn lemma_same_keys<K: View, V>(a: Seq<(K, V)>, b: Seq<(K, V)>, key: K::V)
    requires
        forall|i: int| 0 <= i < a.len() ==> b.contains(#[trigger] a[i]),
        keys(a).contains(key),
    ensures
        keys(b).contains(key),
{
    let i = choose|i: int| 0 <= i < keys(a).len() && keys(a)[i] == key;
    assert(b.contains(a[i]));
    let e = choose|e: int| 0 <= e < b.len() && b[e] == a[i];
    assert(keys(b)[e] == key);
}

/// A table that holds the entries of a sound and complete table, each once
/// and no others, is sound and complete.
proof fn lemma_table_moved<'a, E: ElementTypes>(
    g: GrammarSpec<E>,
    from: Seq<(E::NonTerm, InternalNullableInfo<'a, E>)>,
    to: Seq<(E::NonTerm, InternalNullableInfo<'a, E>)>,
)
    requires
        table_sound(g, from),
        table_complete(g, from),
        keys(to).no_duplicates(),
        forall|i: int| 0 <= i < from.len() ==> to.contains(#[trigger] from[i]),
        forall|i: int| 0 <= i < to.len() ==> from.contains(#[trigger] to[i]),
    ensures
        table_sound(g, to),
        table_complete(g, to),
{
    assert forall|e: int| 0 <= e < to.len() implies entry_sound(g, #[trigger] to[e]) by {
        assert(from.contains(to[e]));
        let i = choose|i: int| 0 <= i < from.len() && from[i] == to[e];
        assert(entry_sound(g, from[i]));
    }
    assert forall|nt: NonTermId<E>| g.nullable(nt) implies keys(to).contains(nt) by {
        lemma_same_keys(from, to, nt);
    }
    assert forall|e: int, r: ProdRefSpec<E>|
        0 <= e < to.len() && evidence_for(g, to[e].0@, r) implies (#[trigger] to[e].1@.contains(r)) by {
        assert(from.contains(to[e]));
        let i = choose|i: int| 0 <= i < from.len() && from[i] == to[e];
        assert(from[i].1@.contains(r));
    }
}

/// For every nonterminal of the grammar that has any, the productions that
/// derive the empty sequence, in ascending order of the nonterminals.
///
/// The table starts empty. Pass after pass over all productions, a
/// production whose right-hand side consists of nonterminals with an entry
/// is recorded under its head, until a pass records nothing new.
pub fn inner_calculate_nullables<'a, E: ElementTypes>(g: &'a Grammar<E>) -> (table: Vec<
    (E::NonTerm, InternalNullableInfo<'a, E>),
>)
    ensures
        table_sound(g@, table@),
        table_complete(g@, table@),
        ascending::<E::NonTerm>(keys(table@)),
{
    let prods = g.prods();
    let mut table: Vec<(E::NonTerm, InternalNullableInfo<'a, E>)> = Vec::new();
    assert(keys(table@) =~= Seq::<NonTermId<E>>::empty());
    loop
        invariant
            views(prods@) == g@.prod_refs(),
            table_sound(g@, table@),
        decreases g@.prod_refs().len() - evidence_set(table@).len(),
    {
        let ghost start = table@;
        proof {
            lemma_evidence_bounded(g@, start);
        }
        let mut changed = false;
        let mut p: usize = 0;
        while p < prods.len()
            invariant
                p <= prods.len(),
                views(prods@) == g@.prod_refs(),
                table_sound(g@, table@),
                table_sound(g@, start),
                evidence_set(start).subset_of(evidence_set(table@)),
                changed ==> evidence_set(table@).len() > evidence_set(start).len(),
                !changed ==> table@ == start,
                !changed ==> forall|q: int|
                    0 <= q < p ==> closed_at(table@, #[trigger] g@.prod_refs()[q]),
            decreases prods.len() - p,
        {
            let ghost r = g@.prod_refs()[p as int];
            let ghost before = table@;
            proof {
                assert(views(prods@)[p as int] == r);
                assert(g@.prod_refs().contains(r));
                lemma_prod_refs(g@, r);
            }
            if is_prod_nullable(&table, &prods[p]) {
                proof {
                    lemma_keys_nullable(g@, before);
                    lemma_rhs_within_grows(
                        g@,
                        r.rule,
                        r.prod,
                        keys(before).to_set(),
                        g@.nullable_set(),
                    );
                    lemma_evidence_bounded(g@, before);
                    vstd::set_lib::lemma_len_subset(evidence_set(start), evidence_set(before));
                }
                if record(&mut table, prods[p], Ghost(g@)) {
                    changed = true;
                }
            }
            p += 1;
        }
        if !changed {
            proof {
                lemma_fixpoint_complete(g@, table@);
            }
            let ghost found = table@;
            let sorted = sort_entries(table);
            proof {
                lemma_ascending_distinct::<E::NonTerm>(keys(sorted@));
                lemma_table_moved(g@, found, sorted@);
            }
            return sorted;
        }
        proof {
            lemma_evidence_bounded(g@, table@);
        }
    }
}

/// How a nullable nonterminal derives the empty sequence: its derivation
/// tree, labelled with the keys of the productions used.
#[derive(Debug)]
pub struct NonTermNullableInfo<E: ElementTypes> {
    nullable_action: TreeNode<ProdKey<E>>,
}

impl<E: ElementTypes> View for NonTermNullableInfo<E> {
    type V = WitnessSpec<E>;

    closed spec fn view(&self) -> WitnessSpec<E> {
        self.nullable_action@
    }
}

impl<E: ElementTypes> Clone for NonTermNullableInfo<E> {
    fn clone(&self) -> (copy: Self)
        ensures
            copy@ == self@,
    {
        NonTermNullableInfo { nullable_action: self.nullable_action.duplicate() }
    }
}

impl<E: ElementTypes> NonTermNullableInfo<E> {
    /// The derivation tree.
    pub fn nullable_action(&self) -> (tree: &TreeNode<ProdKey<E>>)
        ensures
            tree@ == self@,
    {
        &self.nullable_action
    }
}

/// The entries of a table of derivation trees, each taken by its view.
pub open spec fn table_entries<E: ElementTypes>(
    table: Seq<(E::NonTerm, NonTermNullableInfo<E>)>,
) -> Seq<(NonTermId<E>, WitnessSpec<E>)> {
    table.map_values(|entry: (E::NonTerm, NonTermNullableInfo<E>)| (entry.0@, entry.1@))
}

/// The named subtrees that a right-hand side asks for, in order: for every
/// element that binds a name to a nonterminal, the name and the tree that
/// `trees` holds for the nonterminal.
pub open spec fn named_pairs<E: ElementTypes>(
    elements: Seq<ProdElementSpec<E>>,
    trees: Map<NonTermId<E>, WitnessSpec<E>>,
) -> Seq<(Seq<char>, WitnessSpec<E>)>
    decreases elements.len(),
{
    if elements.len() == 0 {
        Seq::empty()
    } else {
        let rest = named_pairs(elements.drop_last(), trees);
        let last = elements.last();
        match (last.identifier, last.element) {
            (Some(name), ElementSpec::NonTerm(nt)) => rest.push((name, trees[nt])),
            _ => rest,
        }
    }
}

/// The nonterminal bound to a name stands under that name on the
/// right-hand side.
pub proof fn lemma_named_child_origin<E: ElementTypes>(
    elements: Seq<ProdElementSpec<E>>,
    name: Seq<char>,
)
    requires
        named_child(elements, name) is Some,
    ensures
        exists|k: int|
            0 <= k < elements.len() && (#[trigger] elements[k]).identifier == Some(name)
                && elements[k].element == ElementSpec::<E>::NonTerm(
                named_child(elements, name).unwrap(),
            ),
    decreases elements.len(),
{
    let last = elements.last();
    let here = last.identifier == Some(name) && last.element is NonTerm;
    if here {
        assert(elements[elements.len() - 1].identifier == Some(name));
    } else {
        lemma_named_child_origin(elements.drop_last(), name);
        let k = choose|k: int|
            0 <= k < elements.drop_last().len() && (#[trigger] elements.drop_last()[k]).identifier
                == Some(name) && elements.drop_last()[k].element == ElementSpec::<E>::NonTerm(
                named_child(elements.drop_last(), name).unwrap(),
            );
        assert(elements[k] == elements.drop_last()[k]);
    }
}

/// The named subtrees, read as a map, hold under each bound name the tree
/// of the nonterminal bound to it.
pub proof fn lemma_named_pairs<E: ElementTypes>(
    elements: Seq<ProdElementSpec<E>>,
    trees: Map<NonTermId<E>, WitnessSpec<E>>,
    name: Seq<char>,
)
    ensures
        pairs_to_map(named_pairs(elements, trees)).contains_key(name) <==> named_child(
            elements,
            name,
        ) is Some,
        named_child(elements, name) matches Some(nt) ==> pairs_to_map(named_pairs(elements, trees))[name]
            == trees[nt],
    decreases elements.len(),
{
    if elements.len() > 0 {
        let rest = named_pairs(elements.drop_last(), trees);
        let last = elements.last();
        lemma_named_pairs(elements.drop_last(), trees, name);
        match (last.identifier, last.element) {
            (Some(bound), ElementSpec::NonTerm(nt)) => {
                let pairs = rest.push((bound, trees[nt]));
                assert(pairs.drop_last() =~= rest);
                assert(pairs.last() == (bound, trees[nt]));
                assert(pairs_to_map(pairs) == pairs_to_map(rest).insert(bound, trees[nt]));
            },
            _ => {},
        }
    }
}

/// An element asks for nothing that `known` lacks: it binds no name to a
/// nonterminal outside `known`.
pub open spec fn is_ready<E: ElementTypes>(pe: ProdElementSpec<E>, known: Set<NonTermId<E>>) -> bool {
    match (pe.identifier, pe.element) {
        (Some(_), ElementSpec::NonTerm(nt)) => known.contains(nt),
        _ => true,
    }
}

/// The derivation tree that `prod` gives, built from the trees in `infos`:
/// the root is labelled with the key of `prod`, and under every name that the
/// right-hand side binds to a nonterminal hangs a copy of that nonterminal's
/// tree. There is no tree yet while `infos` lacks one of these nonterminals.
pub fn build_witness<'a, E: ElementTypes>(
    prod: &ProdRef<'a, E>,
    infos: &Vec<(E::NonTerm, NonTermNullableInfo<E>)>,
) -> (tree: Option<TreeNode<ProdKey<E>>>)
    requires
        keys(infos@).no_duplicates(),
    ensures
        prod@.in_grammar(),
        tree is Some <==> forall|k: int|
            0 <= k < prod@.get().elements.len() ==> is_ready(
                #[trigger] prod@.get().elements[k],
                keys(infos@).to_set(),
            ),
        tree matches Some(t) ==> t@.action == prod@.key() && t@.fields == pairs_to_map(
            named_pairs(prod@.get().elements, pairs_to_map(table_entries(infos@))),
        ),
{
    let elements = prod.prod_elements();
    let ghost elems = prod@.get().elements;
    let ghost known = keys(infos@).to_set();
    let ghost trees = pairs_to_map(table_entries(infos@));
    let mut fields: Vec<(Name, TreeNode<ProdKey<E>>)> = Vec::new();
    let mut k: usize = 0;
    proof {
        assert(views(elements@).len() == elements.len());
        assert(elems.take(0) =~= Seq::empty());
        assert(named_trees(fields@) =~= named_pairs(elems.take(0), trees));
    }
    while k < elements.len()
        invariant
            k <= elements.len(),
            prod@.in_grammar(),
            elements.len() == elems.len(),
            views(elements@) == elems,
            elems == prod@.get().elements,
            known == keys(infos@).to_set(),
            trees == pairs_to_map(table_entries(infos@)),
            keys(infos@).no_duplicates(),
            forall|q: int| 0 <= q < k ==> is_ready(#[trigger] elems[q], known),
            named_trees(fields@) == named_pairs(elems.take(k as int), trees),
        decreases elements.len() - k,
    {
        let ghost this = elems[k as int];
        let ghost old_fields = named_trees(fields@);
        proof {
            assert(views(elements@)[k as int] == this);
            assert(elems.take(k + 1).drop_last() =~= elems.take(k as int));
            assert(elems.take(k + 1).last() == this);
        }
        match (elements[k].id(), elements[k].elem()) {
            (Some(id), Element::NonTerm(nt)) => {
                assert(this.identifier == Some(id@));
                assert(this.element == ElementSpec::<E>::NonTerm(nt@));
                match key_position(infos, nt) {
                    None => {
                        assert(!is_ready(elems[k as int], known));
                        return None;
                    },
                    Some(e) => {
                        let subtree = infos[e].1.nullable_action().duplicate();
                        proof {
                            let entries = table_entries(infos@);
                            assert(entries[e as int] == (nt@, subtree@));
                            assert forall|b: int| e < b < entries.len() implies (#[trigger] entries[b]).0
                                != entries[e as int].0 by {
                                assert(keys(infos@)[b] != keys(infos@)[e as int]);
                            }
                            lemma_pairs_to_map_last(entries, e as int);
                            assert(trees[nt@] == subtree@);
                            assert(keys(infos@)[e as int] == nt@);
                        }
                        fields.push((id.duplicate(), subtree));
                        proof {
                            assert(named_trees(fields@) =~= old_fields.push((id@, trees[nt@])));
                        }
                    },
                }
            },
            _ => {
                proof {
                    assert(this.identifier is None || this.element is Term);
                }
            },
        }
        k += 1;
    }
    proof {
        assert(elems.take(k as int) =~= elems);
    }
    Some(TreeNode::new(prod.prod_key(), fields))
}

/// Every nonterminal has at most one entry, and every entry holds a
/// derivation tree of the empty sequence from its nonterminal.
pub open spec fn witnesses_sound<E: ElementTypes>(
    g: GrammarSpec<E>,
    infos: Seq<(E::NonTerm, NonTermNullableInfo<E>)>,
) -> bool {
    &&& keys(infos).no_duplicates()
    &&& forall|e: int| 0 <= e < infos.len() ==> g.is_witness((#[trigger] infos[e]).0@, infos[e].1@)
}

/// The tree under a nonterminal in the map of a table without repeated
/// nonterminals is the tree of its entry.
proof fn lemma_table_lookup<E: ElementTypes>(
    infos: Seq<(E::NonTerm, NonTermNullableInfo<E>)>,
    e: int,
)
    requires
        keys(infos).no_duplicates(),
        0 <= e < infos.len(),
    ensures
        pairs_to_map(table_entries(infos)).contains_key(infos[e].0@),
        pairs_to_map(table_entries(infos))[infos[e].0@] == infos[e].1@,
{
    let entries = table_entries(infos);
    assert(entries[e] == (infos[e].0@, infos[e].1@));
    assert forall|b: int| e < b < entries.len() implies (#[trigger] entries[b]).0 != entries[e].0 by {
        assert(keys(infos)[b] != keys(infos)[e]);
    }
    lemma_pairs_to_map_last(entries, e);
}

/// The nonterminals of the map of a table are those of its entries.
proof fn lemma_table_dom<E: ElementTypes>(infos: Seq<(E::NonTerm, NonTermNullableInfo<E>)>)
    ensures
        pairs_to_map(table_entries(infos)).dom() == keys(infos).to_set(),
{
    let entries = table_entries(infos);
    lemma_pairs_to_map_dom(entries);
    assert forall|nt: NonTermId<E>|
        pairs_to_map(entries).dom().contains(nt) <==> keys(infos).to_set().contains(nt) by {
        if pairs_to_map(entries).contains_key(nt) {
            let i = choose|i: int| 0 <= i < entries.len() && (#[trigger] entries[i]).0 == nt;
            assert(keys(infos)[i] == nt);
        }
        if keys(infos).contains(nt) {
            let i = choose|i: int| 0 <= i < keys(infos).len() && keys(infos)[i] == nt;
            assert(entries[i].0 == nt);
        }
    }
    assert(pairs_to_map(entries).dom() =~= keys(infos).to_set());
}

/// The tree built for a production that derives the empty sequence, from
/// sound trees for the nonterminals that its right-hand side names, is a
/// derivation tree of the empty sequence from its head.
proof fn lemma_built_is_witness<E: ElementTypes>(
    g: GrammarSpec<E>,
    nt: NonTermId<E>,
    r: ProdRefSpec<E>,
    t: WitnessSpec<E>,
    infos: Seq<(E::NonTerm, NonTermNullableInfo<E>)>,
)
    requires
        evidence_for(g, nt, r),
        witnesses_sound(g, infos),
        forall|k: int|
            0 <= k < r.get().elements.len() ==> is_ready(
                #[trigger] r.get().elements[k],
                keys(infos).to_set(),
            ),
        t.action == r.key(),
        t.fields == pairs_to_map(named_pairs(r.get().elements, pairs_to_map(table_entries(infos)))),
    ensures
        g.is_witness(nt, t),
{
    let elements = r.get().elements;
    let trees = pairs_to_map(table_entries(infos));
    lemma_pairs_to_map_dom(named_pairs(elements, trees));
    assert forall|name: Seq<char>|
        #![trigger t.fields.contains_key(name)]
        #![trigger named_child(g.prod(r.rule, r.prod).elements, name)]
        t.fields.contains_key(name) <==> named_child(g.prod(r.rule, r.prod).elements, name) is Some by {
        lemma_named_pairs(elements, trees, name);
    }
    assert forall|name: Seq<char>| #[trigger] t.fields.contains_key(name) implies g.is_witness(
        named_child(g.prod(r.rule, r.prod).elements, name).unwrap(),
        t.fields[name],
    ) by {
        lemma_named_pairs(elements, trees, name);
        lemma_named_child_origin(elements, name);
        let child = named_child(elements, name).unwrap();
        let k = choose|k: int|
            0 <= k < elements.len() && (#[trigger] elements[k]).identifier == Some(name)
                && elements[k].element == ElementSpec::<E>::NonTerm(child);
        assert(is_ready(elements[k], keys(infos).to_set()));
        assert(keys(infos).contains(child));
        let e = choose|e: int| 0 <= e < keys(infos).len() && keys(infos)[e] == child;
        lemma_table_lookup(infos, e);
        assert(g.is_witness(infos[e].0@, infos[e].1@));
    }
    assert(g.is_witness_by(nt, t, r.rule, r.prod));
}

/// A position in a non-empty sequence of nonterminals at which the rank is
/// lowest.
proof fn lemma_min_rank<E: ElementTypes>(g: GrammarSpec<E>, nts: Seq<NonTermId<E>>) -> (m: int)
    requires
        nts.len() > 0,
    ensures
        0 <= m < nts.len(),
        forall|q: int| 0 <= q < nts.len() ==> g.nullable_rank(nts[m]) <= g.nullable_rank(#[trigger] nts[q]),
    decreases nts.len(),
{
    if nts.len() == 1 {
        0
    } else {
        let front = nts.drop_last();
        let m = lemma_min_rank(g, front);
        let last = nts.len() - 1;
        let best = if g.nullable_rank(nts[last]) < g.nullable_rank(nts[m]) {
            last
        } else {
            m
        };
        assert forall|q: int| 0 <= q < nts.len() implies g.nullable_rank(nts[best]) <= g.nullable_rank(
            #[trigger] nts[q],
        ) by {
            if q < last {
                assert(front[q] == nts[q]);
            }
        }
        best
    }
}

/// Some nonterminal derives the empty sequence in more than one way exactly
/// when some entry of the table of pass one holds more than one production.
proof fn lemma_ambiguity_decided<'a, E: ElementTypes>(
    g: GrammarSpec<E>,
    table: Seq<(E::NonTerm, InternalNullableInfo<'a, E>)>,
)
    requires
        table_sound(g, table),
        table_complete(g, table),
    ensures
        g.has_nullable_ambiguity() <==> exists|e: int|
            0 <= e < table.len() && (#[trigger] table[e]).1@.len() > 1,
{
    if g.has_nullable_ambiguity() {
        let nt = choose|nt: NonTermId<E>| g.ambiguous_at(nt);
        let (i1, j1, i2, j2) = choose|i1: int, j1: int, i2: int, j2: int|
            #[trigger] g.nullable_prod_of(nt, i1, j1) && #[trigger] g.nullable_prod_of(nt, i2, j2) && (i1
                != i2 || j1 != j2);
        lemma_nullable_iff_has_nullable_prod(g, nt);
        assert(keys(table).contains(nt));
        let e = choose|e: int| 0 <= e < keys(table).len() && keys(table)[e] == nt;
        let r1 = ProdRefSpec::<E> { grammar: g, rule: i1, prod: j1 };
        let r2 = ProdRefSpec::<E> { grammar: g, rule: i2, prod: j2 };
        assert(evidence_for(g, table[e].0@, r1));
        assert(evidence_for(g, table[e].0@, r2));
        assert(table[e].1@.contains(r1));
        assert(table[e].1@.contains(r2));
        assert(table[e].1@.len() > 1);
    }
    if exists|e: int| 0 <= e < table.len() && (#[trigger] table[e]).1@.len() > 1 {
        let e = choose|e: int| 0 <= e < table.len() && (#[trigger] table[e]).1@.len() > 1;
        assert(entry_sound(g, table[e]));
        let r1 = table[e].1@[0];
        let r2 = table[e].1@[1];
        assert(evidence_for(g, table[e].0@, r1));
        assert(evidence_for(g, table[e].0@, r2));
        assert(r1 != r2);
        assert(g.nullable_prod_of(table[e].0@, r1.rule, r1.prod));
        assert(g.nullable_prod_of(table[e].0@, r2.rule, r2.prod));
        assert(g.ambiguous_at(table[e].0@));
    }
}

/// Whether some entry of the table holds more than one production.
fn find_ambiguity<'a, E: ElementTypes>(
    table: &Vec<(E::NonTerm, InternalNullableInfo<'a, E>)>,
    Ghost(g): Ghost<GrammarSpec<E>>,
) -> (ambiguous: bool)
    requires
        table_sound(g, table@),
        table_complete(g, table@),
    ensures
        ambiguous == g.has_nullable_ambiguity(),
        !ambiguous ==> forall|e: int| 0 <= e < table.len() ==> (#[trigger] table[e]).1@.len() == 1,
{
    proof {
        lemma_ambiguity_decided(g, table@);
    }
    let mut e: usize = 0;
    while e < table.len()
        invariant
            e <= table.len(),
            table_sound(g, table@),
            g.has_nullable_ambiguity() <==> exists|a: int|
                0 <= a < table.len() && (#[trigger] table[a]).1@.len() > 1,
            forall|a: int| 0 <= a < e ==> (#[trigger] table[a]).1@.len() == 1,
        decreases table.len() - e,
    {
        assert(entry_sound(g, table[e as int]));
        let found = table[e].1.nullable_actions();
        assert(views(found@).len() == found.len());
        if found.len() > 1 {
            return true;
        }
        e += 1;
    }
    false
}

/// The one item of a list that holds exactly one.
pub fn get_only<T: Copy>(items: &Vec<T>) -> (only: T)
    requires
        items.len() == 1,
    ensures
        only == items[0],
{
    items[0]
}

/// For every entry of the table, in order, its one production.
fn only_actions<'a, E: ElementTypes>(table: &Vec<(E::NonTerm, InternalNullableInfo<'a, E>)>) -> (actions:
    Vec<ProdRef<'a, E>>)
    requires
        forall|e: int| 0 <= e < table.len() ==> (#[trigger] table[e]).1@.len() == 1,
    ensures
        actions.len() == table.len(),
        forall|e: int| 0 <= e < table.len() ==> (#[trigger] actions[e])@ == table[e].1@[0],
{
    let mut actions: Vec<ProdRef<'a, E>> = Vec::new();
    let mut e: usize = 0;
    while e < table.len()
        invariant
            e <= table.len(),
            actions.len() == e,
            forall|a: int| 0 <= a < table.len() ==> (#[trigger] table[a]).1@.len() == 1,
            forall|a: int| 0 <= a < e ==> (#[trigger] actions[a])@ == table[a].1@[0],
        decreases table.len() - e,
    {
        assert(table[e as int].1@.len() == 1);
        let found = table[e].1.nullable_actions();
        assert(views(found@).len() == found.len());
        actions.push(get_only(found));
        e += 1;
    }
    actions
}

/// Copies of the nonterminals of the table, in order.
fn table_keys<'a, E: ElementTypes>(table: &Vec<(E::NonTerm, InternalNullableInfo<'a, E>)>) -> (nts:
    Vec<E::NonTerm>)
    ensures
        views(nts@) == keys(table@),
{
    let mut nts: Vec<E::NonTerm> = Vec::new();
    let mut e: usize = 0;
    while e < table.len()
        invariant
            e <= table.len(),
            nts.len() == e,
            forall|a: int| 0 <= a < e ==> (#[trigger] nts[a])@ == table[a].0@,
        decreases table.len() - e,
    {
        nts.push(table[e].0.duplicate());
        e += 1;
    }
    assert(views(nts@) =~= keys(table@));
    nts
}

/// The nonterminals of `remaining` that have no entry in `built`, in order.
fn drop_built<K: Identified, V>(remaining: &Vec<K>, built: &Vec<(K, V)>) -> (rest: Vec<K>)
    requires
        views(remaining@).no_duplicates(),
    ensures
        views(rest@).no_duplicates(),
        forall|nt: K::V| #[trigger]
            views(rest@).contains(nt) <==> views(remaining@).contains(nt) && !keys(built@).contains(nt),
        rest.len() <= remaining.len(),
        (exists|q: int|
            0 <= q < remaining.len() && keys(built@).contains(#[trigger] views(remaining@)[q]))
            ==> rest.len() < remaining.len(),
{
    let mut rest: Vec<K> = Vec::new();
    let mut q: usize = 0;
    while q < remaining.len()
        invariant
            q <= remaining.len(),
            rest.len() <= q,
            views(remaining@).no_duplicates(),
            views(rest@).no_duplicates(),
            forall|nt: K::V| #[trigger]
                views(rest@).contains(nt) <==> views(remaining@).take(q as int).contains(nt) && !keys(
                    built@,
                ).contains(nt),
            (exists|a: int| 0 <= a < q && keys(built@).contains(#[trigger] views(remaining@)[a]))
                ==> rest.len() < q,
        decreases remaining.len() - q,
    {
        let ghost before = views(rest@);
        let ghost this = views(remaining@)[q as int];
        let ghost front = views(remaining@).take(q as int);
        proof {
            assert(views(remaining@).take(q + 1) =~= front.push(this));
            if front.contains(this) {
                let a = choose|a: int| 0 <= a < front.len() && front[a] == this;
                assert(views(remaining@)[a] == views(remaining@)[q as int]);
            }
        }
        if key_position(built, &remaining[q]).is_none() {
            rest.push(remaining[q].duplicate());
            proof {
                assert(views(rest@) =~= before.push(this));
                assert forall|nt: K::V| #[trigger]
                    views(rest@).contains(nt) <==> front.push(this).contains(nt) && !keys(
                        built@,
                    ).contains(nt) by {
                    lemma_push_contains(before, this, nt);
                    lemma_push_contains(front, this, nt);
                    assert(before.contains(nt) <==> front.contains(nt) && !keys(built@).contains(nt));
                }
                assert forall|a: int, b: int|
                    0 <= a < before.len() + 1 && 0 <= b < before.len() + 1 && a != b implies before.push(
                    this,
                )[a] != before.push(this)[b] by {
                    if a < before.len() {
                        assert(before.contains(before[a]));
                    }
                    if b < before.len() {
                        assert(before.contains(before[b]));
                    }
                }
            }
        } else {
            proof {
                assert forall|nt: K::V| #[trigger]
                    views(rest@).contains(nt) <==> front.push(this).contains(nt) && !keys(
                        built@,
                    ).contains(nt) by {
                    lemma_push_contains(front, this, nt);
                }
            }
        }
        q += 1;
    }
    proof {
        assert(views(remaining@).take(q as int) =~= views(remaining@));
    }
    rest
}

/// The entries of `actions` are the single productions of the entries of
/// `table`, in order.
pub open spec fn actions_of<'a, E: ElementTypes>(
    table: Seq<(E::NonTerm, InternalNullableInfo<'a, E>)>,
    actions: Seq<ProdRef<'a, E>>,
) -> bool {
    &&& actions.len() == table.len()
    &&& forall|e: int|
        0 <= e < table.len() ==> (#[trigger] table[e]).1@.len() == 1 && actions[e]@ == table[e].1@[0]
}

/// The nullable nonterminals are those of `remaining` and those with a tree
/// in `infos`, and none is in both.
pub open spec fn splits_nullables<E: ElementTypes>(
    g: GrammarSpec<E>,
    remaining: Seq<NonTermId<E>>,
    infos: Seq<(E::NonTerm, NonTermNullableInfo<E>)>,
) -> bool {
    &&& remaining.no_duplicates()
    &&& forall|nt: NonTermId<E>|
        #![trigger g.nullable(nt)]
        #![trigger remaining.contains(nt)]
        #![trigger keys(infos).contains(nt)]
        g.nullable(nt) <==> remaining.contains(nt) || keys(infos).contains(nt)
    &&& forall|nt: NonTermId<E>|
        #![trigger remaining.contains(nt)]
        #![trigger keys(infos).contains(nt)]
        !(remaining.contains(nt) && keys(infos).contains(nt))
}

/// One round of the second pass: for every nonterminal of `remaining`, in
/// order, whose production names only nonterminals that have a tree by then,
/// the tree is built and added to `infos`. At least one tree is added.
fn build_round<'a, E: ElementTypes>(
    table: &Vec<(E::NonTerm, InternalNullableInfo<'a, E>)>,
    actions: &Vec<ProdRef<'a, E>>,
    remaining: &Vec<E::NonTerm>,
    infos: &mut Vec<(E::NonTerm, NonTermNullableInfo<E>)>,
    Ghost(g): Ghost<GrammarSpec<E>>,
)
    requires
        table_sound(g, table@),
        table_complete(g, table@),
        !g.has_nullable_ambiguity(),
        actions_of(table@, actions@),
        witnesses_sound(g, old(infos)@),
        splits_nullables(g, views(remaining@), old(infos)@),
        remaining.len() > 0,
    ensures
        witnesses_sound(g, final(infos)@),
        forall|nt: NonTermId<E>| #[trigger]
            keys(final(infos)@).contains(nt) <==> keys(old(infos)@).contains(nt) || (views(
                remaining@,
            ).contains(nt) && keys(final(infos)@).contains(nt)),
        exists|q: int|
            0 <= q < remaining.len() && keys(final(infos)@).contains(
                #[trigger] views(remaining@)[q],
            ),
{
    let ghost infos0 = infos@;
    let ghost nts = views(remaining@);
    let ghost m: int = 0;
    proof {
        m = lemma_min_rank(g, nts);
    }
    let mut q: usize = 0;
    while q < remaining.len()
        invariant
            q <= remaining.len(),
            nts == views(remaining@),
            0 <= m < nts.len(),
            forall|a: int| 0 <= a < nts.len() ==> g.nullable_rank(nts[m]) <= g.nullable_rank(#[trigger] nts[a]),
            table_sound(g, table@),
            table_complete(g, table@),
            !g.has_nullable_ambiguity(),
            actions_of(table@, actions@),
            witnesses_sound(g, infos0),
            splits_nullables(g, nts, infos0),
            witnesses_sound(g, infos@),
            forall|nt: NonTermId<E>| #[trigger]
                keys(infos@).contains(nt) ==> keys(infos0).contains(nt) || nts.take(q as int).contains(nt),
            forall|nt: NonTermId<E>| #[trigger] keys(infos0).contains(nt) ==> keys(infos@).contains(nt),
            q > m ==> keys(infos@).contains(nts[m]),
        decreases remaining.len() - q,
    {
        let ghost nt = nts[q as int];
        let ghost before = infos@;
        proof {
            assert(nts.take(q + 1) =~= nts.take(q as int).push(nt));
            assert(nts.contains(nt));
            assert(g.nullable(nt));
            assert(keys(table@).contains(nt));
            if keys(before).contains(nt) {
                assert(!keys(infos0).contains(nt));
                let a = choose|a: int| 0 <= a < nts.take(q as int).len() && nts.take(q as int)[a] == nt;
                assert(nts[a] == nts[q as int]);
            }
            assert forall|x: NonTermId<E>| #[trigger]
                keys(before).contains(x) implies keys(infos0).contains(x) || nts.take(q + 1).contains(
                x,
            ) by {
                lemma_push_contains(nts.take(q as int), nt, x);
            }
        }
        match key_position(table, &remaining[q]) {
            Some(e) => {
                let prod = actions[e];
                let ghost r = prod@;
                proof {
                    assert(entry_sound(g, table[e as int]));
                    assert(r == table[e as int].1@[0]);
                    assert(evidence_for(g, nt, table[e as int].1@[0]));
                    assert(!g.ambiguous_at(nt));
                    if q == m {
                        assert forall|k: int| 0 <= k < r.get().elements.len() implies is_ready(
                            #[trigger] r.get().elements[k],
                            keys(before).to_set(),
                        ) by {
                            lemma_rank_decreases(g, nt, r.rule, r.prod, k);
                            let child = g.elem(r.rule, r.prod, k)->NonTerm_0;
                            if nts.contains(child) {
                                let a = choose|a: int| 0 <= a < nts.len() && nts[a] == child;
                                assert(g.nullable_rank(nts[m]) <= g.nullable_rank(nts[a]));
                            }
                            assert(keys(infos0).contains(child));
                            assert(keys(before).contains(child));
                        }
                    }
                }
                match build_witness(&prod, infos) {
                    Some(tree) => {
                        proof {
                            lemma_built_is_witness(g, nt, r, tree@, before);
                        }
                        let entry = (remaining[q].duplicate(), NonTermNullableInfo { nullable_action: tree });
                        infos.push(entry);
                        proof {
                            assert(keys(infos@) =~= keys(before).push(nt));
                            assert forall|a: int, b: int|
                                0 <= a < keys(infos@).len() && 0 <= b < keys(infos@).len() && a
                                    != b implies keys(infos@)[a] != keys(infos@)[b] by {
                                if a < before.len() {
                                    assert(keys(before).contains(keys(before)[a]));
                                }
                                if b < before.len() {
                                    assert(keys(before).contains(keys(before)[b]));
                                }
                            }
                            assert forall|a: int| 0 <= a < infos@.len() implies g.is_witness(
                                (#[trigger] infos@[a]).0@,
                                infos@[a].1@,
                            ) by {
                                if a < before.len() {
                                    assert(infos@[a] == before[a]);
                                }
                            }
                            assert forall|x: NonTermId<E>| #[trigger]
                                keys(infos@).contains(x) implies keys(infos0).contains(x) || nts.take(
                                q + 1,
                            ).contains(x) by {
                                lemma_push_contains(keys(before), nt, x);
                                lemma_push_contains(nts.take(q as int), nt, x);
                            }
                            assert forall|x: NonTermId<E>| #[trigger]
                                keys(infos0).contains(x) implies keys(infos@).contains(x) by {
                                lemma_push_contains(keys(before), nt, x);
                            }
                            lemma_push_contains(keys(before), nt, nt);
                            lemma_push_contains(keys(before), nt, nts[m]);
                        }
                    },
                    None => {},
                }
            },
            None => {},
        }
        q += 1;
    }
    proof {
        assert(nts.take(q as int) =~= nts);
        assert(keys(infos@).contains(views(remaining@)[m]));
    }
}

/// The error of the computation of nullable nonterminals.
#[derive(Debug, Clone, Copy, PartialEq, Eq)]
pub enum NullableError {
    /// Some nonterminal derives the empty sequence in more than one way.
    NullableAmbiguity,
}

impl NullableError {
    /// What the error says, for a reader.
    pub fn message(&self) -> (text: &'static str)
        ensures
            text@ == "found nullable ambiguities in grammar"@,
    {
        "found nullable ambiguities in grammar"
    }
}

/// The nullable nonterminals of a grammar, each with its derivation tree.
#[derive(Debug)]
pub struct GrammarNullableInfo<E: ElementTypes> {
    nonterm_info: Vec<(E::NonTerm, NonTermNullableInfo<E>)>,
}

impl<E: ElementTypes> View for GrammarNullableInfo<E> {
    type V = Map<NonTermId<E>, WitnessSpec<E>>;

    closed spec fn view(&self) -> Map<NonTermId<E>, WitnessSpec<E>> {
        pairs_to_map(table_entries(self.nonterm_info@))
    }
}

impl<E: ElementTypes> Clone for GrammarNullableInfo<E> {
    fn clone(&self) -> (copy: Self)
        ensures
            copy@ == self@,
    {
        proof {
            use_type_invariant(self);
        }
        let mut nonterm_info: Vec<(E::NonTerm, NonTermNullableInfo<E>)> = Vec::new();
        let mut e: usize = 0;
        while e < self.nonterm_info.len()
            invariant
                e <= self.nonterm_info.len(),
                nonterm_info.len() == e,
                forall|a: int|
                    0 <= a < e ==> (#[trigger] nonterm_info[a]).0@ == self.nonterm_info[a].0@
                        && nonterm_info[a].1@ == self.nonterm_info[a].1@,
            decreases self.nonterm_info.len() - e,
        {
            nonterm_info.push((self.nonterm_info[e].0.duplicate(), self.nonterm_info[e].1.clone()));
            e += 1;
        }
        assert(table_entries(nonterm_info@) =~= table_entries(self.nonterm_info@));
        assert(keys(nonterm_info@) =~= keys(self.nonterm_info@));
        GrammarNullableInfo { nonterm_info }
    }
}

impl<E: ElementTypes> GrammarNullableInfo<E> {
    #[verifier::type_invariant]
    spec fn keys_ascend(self) -> bool {
        ascending::<E::NonTerm>(keys(self.nonterm_info@))
    }

    /// The entries of the table: every nullable nonterminal, once, with the
    /// way it derives the empty sequence, in ascending order of the
    /// nonterminals.
    pub fn nonterm_info(&self) -> (entries: &Vec<(E::NonTerm, NonTermNullableInfo<E>)>)
        ensures
            pairs_to_map(table_entries(entries@)) == self@,
            ascending::<E::NonTerm>(keys(entries@)),
            keys(entries@).to_set() == self@.dom(),
    {
        proof {
            use_type_invariant(self);
            lemma_table_dom(self.nonterm_info@);
        }
        &self.nonterm_info
    }

    /// Whether `nt` is in the table.
    pub fn is_nullable(&self, nt: &E::NonTerm) -> (nullable: bool)
        ensures
            nullable == self@.contains_key(nt@),
    {
        proof {
            lemma_table_dom(self.nonterm_info@);
        }
        key_position(&self.nonterm_info, nt).is_some()
    }

    /// Whether every right-hand-side element of `prod` is a nonterminal of
    /// the table.
    pub fn is_prod_nullable(&self, prod: &ProdRef<E>) -> (nullable: bool)
        ensures
            prod@.in_grammar(),
            nullable == prod@.grammar.rhs_within(prod@.rule, prod@.prod, self@.dom()),
    {
        proof {
            lemma_table_dom(self.nonterm_info@);
        }
        is_prod_nullable(&self.nonterm_info, prod)
    }

    /// How `nt` derives the empty sequence, if it is in the table.
    pub fn get_nullable_info(&self, nt: &E::NonTerm) -> (info: Option<&NonTermNullableInfo<E>>)
        ensures
            info is Some <==> self@.contains_key(nt@),
            info matches Some(i) ==> i@ == self@[nt@],
    {
        proof {
            use_type_invariant(self);
            lemma_table_dom(self.nonterm_info@);
        }
        match key_position(&self.nonterm_info, nt) {
            Some(e) => {
                proof {
                    lemma_ascending_distinct::<E::NonTerm>(keys(self.nonterm_info@));
                    lemma_table_lookup(self.nonterm_info@, e as int);
                }
                Some(&self.nonterm_info[e].1)
            },
            None => None,
        }
    }

    /// The nonterminals of the table, each once, in ascending order.
    pub fn get_nullable_set(&self) -> (nts: Vec<E::NonTerm>)
        ensures
            ascending::<E::NonTerm>(views(nts@)),
            views(nts@).to_set() == self@.dom(),
    {
        proof {
            use_type_invariant(self);
            lemma_table_dom(self.nonterm_info@);
        }
        let mut nts: Vec<E::NonTerm> = Vec::new();
        let mut e: usize = 0;
        while e < self.nonterm_info.len()
            invariant
                e <= self.nonterm_info.len(),
                nts.len() == e,
                forall|a: int| 0 <= a < e ==> (#[trigger] nts[a])@ == self.nonterm_info[a].0@,
            decreases self.nonterm_info.len() - e,
        {
            nts.push(self.nonterm_info[e].0.duplicate());
            e += 1;
        }
        assert(views(nts@) =~= keys(self.nonterm_info@));
        nts
    }
}

/// The nullable nonterminals of a grammar with their derivation trees.
///
/// The computation fails exactly when some nonterminal has two different
/// productions that each derive the empty sequence. Otherwise the table holds
/// exactly the nullable nonterminals, and for each the derivation tree that
/// its one such production gives.
pub fn calculate_nullables<E: ElementTypes>(g: &Grammar<E>) -> (r: Result<
    GrammarNullableInfo<E>,
    NullableError,
>)
    ensures
        r is Err <==> g@.has_nullable_ambiguity(),
        r matches Err(error) ==> error == NullableError::NullableAmbiguity,
        r matches Ok(info) ==> g@.is_nullable_table(info@),
{
    let inner_info = inner_calculate_nullables(g);
    if find_ambiguity(&inner_info, Ghost(g@)) {
        return Err(NullableError::NullableAmbiguity);
    }
    let nullable_action_map = only_actions(&inner_info);
    let mut remaining_nullables = table_keys(&inner_info);
    let mut nullable_infos: Vec<(E::NonTerm, NonTermNullableInfo<E>)> = Vec::new();
    proof {
        assert(keys(nullable_infos@) =~= Seq::<NonTermId<E>>::empty());
        lemma_keys_nullable(g@, inner_info@);
        assert forall|nt: NonTermId<E>| g@.nullable(nt) <==> keys(inner_info@).contains(nt) by {
            if keys(inner_info@).contains(nt) {
                assert(keys(inner_info@).to_set().contains(nt));
                assert(g@.nullable_set().contains(nt));
            }
        }
    }
    while remaining_nullables.len() > 0
        invariant
            table_sound(g@, inner_info@),
            table_complete(g@, inner_info@),
            !g@.has_nullable_ambiguity(),
            actions_of(inner_info@, nullable_action_map@),
            witnesses_sound(g@, nullable_infos@),
            splits_nullables(g@, views(remaining_nullables@), nullable_infos@),
        decreases remaining_nullables.len(),
    {
        let ghost before = nullable_infos@;
        let ghost nts = views(remaining_nullables@);
        build_round(
            &inner_info,
            &nullable_action_map,
            &remaining_nullables,
            &mut nullable_infos,
            Ghost(g@),
        );
        remaining_nullables = drop_built(&remaining_nullables, &nullable_infos);
        proof {
            assert forall|nt: NonTermId<E>|
                #![trigger g@.nullable(nt)]
                #![trigger views(remaining_nullables@).contains(nt)]
                #![trigger keys(nullable_infos@).contains(nt)]
                g@.nullable(nt) <==> views(remaining_nullables@).contains(nt) || keys(
                    nullable_infos@,
                ).contains(nt) by {
                assert(g@.nullable(nt) <==> nts.contains(nt) || keys(before).contains(nt));
            }
        }
    }
    let ghost built = nullable_infos@;
    let nullable_infos = sort_entries(nullable_infos);
    proof {
        lemma_ascending_distinct::<E::NonTerm>(keys(nullable_infos@));
        assert forall|e: int| 0 <= e < nullable_infos@.len() implies g@.is_witness(
            (#[trigger] nullable_infos@[e]).0@,
            nullable_infos@[e].1@,
        ) by {
            assert(built.contains(nullable_infos@[e]));
            let i = choose|i: int| 0 <= i < built.len() && built[i] == nullable_infos@[e];
            assert(g@.is_witness(built[i].0@, built[i].1@));
        }
        lemma_table_dom(nullable_infos@);
        assert forall|nt: NonTermId<E>|
            keys(nullable_infos@).to_set().contains(nt) <==> g@.nullable_set().contains(nt) by {
            assert(!views(remaining_nullables@).contains(nt));
            if keys(nullable_infos@).contains(nt) {
                lemma_same_keys(nullable_infos@, built, nt);
            }
            if keys(built).contains(nt) {
                lemma_same_keys(built, nullable_infos@, nt);
            }
        }
        assert(keys(nullable_infos@).to_set() =~= g@.nullable_set());
        let table = pairs_to_map(table_entries(nullable_infos@));
        assert forall|nt: NonTermId<E>| #[trigger] table.contains_key(nt) implies g@.is_witness(
            nt,
            table[nt],
        ) by {
            assert(keys(nullable_infos@).contains(nt));
            let e = choose|e: int| 0 <= e < keys(nullable_infos@).len() && keys(nullable_infos@)[e] == nt;
            lemma_table_lookup(nullable_infos@, e);
            assert(g@.is_witness(nullable_infos@[e].0@, nullable_infos@[e].1@));
        }
    }
    Ok(GrammarNullableInfo { nonterm_info: nullable_infos })
}

} // verus!
