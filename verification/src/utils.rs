//! Shared building blocks: identities of values, names, tables of pairs and
//! labelled trees.

use vstd::prelude::*;

verus! {

/// What the entities of a grammar have in common: a value stands for what
/// its view says, `matches` decides whether two values stand for the same,
/// and `duplicate` yields a new value that stands for the same.
///
/// Symbols, action keys, productions and rules are all compared and copied
/// through this trait, by value and never by address.
pub trait Identified: View + Sized {
    /// Whether `self` and `other` denote the same thing.
    fn matches(&self, other: &Self) -> (same: bool)
        ensures
            same == (self@ == other@),
    ;

    /// A fresh value denoting the same thing.
    fn duplicate(&self) -> (copy: Self)
        ensures
            copy@ == self@,
    ;
}

/// What the keys of a grammar have beyond an identity: a strict total order
/// on their views, and a comparison that decides it.
///
/// Tables that are keyed by such values are kept in ascending order of their
/// keys, so what they hold does not depend on the order in which it was put
/// in.
pub trait Ordered: Identified {
    /// `a` comes before `b`.
    spec fn before(a: Self::V, b: Self::V) -> bool;

    /// Nothing comes before itself.
    proof fn lemma_before_irreflexive(a: Self::V)
        ensures
            !Self::before(a, a),
    ;

    /// What comes before something that comes before a third comes before
    /// the third.
    proof fn lemma_before_transitive(a: Self::V, b: Self::V, c: Self::V)
        requires
            Self::before(a, b),
            Self::before(b, c),
        ensures
            Self::before(a, c),
    ;

    /// Of two different views one comes before the other.
    proof fn lemma_before_total(a: Self::V, b: Self::V)
        ensures
            a == b || Self::before(a, b) || Self::before(b, a),
    ;

    /// Whether `self` comes before `other`.
    fn precedes(&self, other: &Self) -> (before: bool)
        ensures
            before == Self::before(self@, other@),
    ;
}

/// `k` is the length of the longest common prefix of `a` and `b`.
pub open spec fn first_difference(a: Seq<char>, b: Seq<char>, k: int) -> bool {
    &&& 0 <= k <= a.len()
    &&& k <= b.len()
    &&& forall|i: int| 0 <= i < k ==> a[i] == b[i]
    &&& (k == a.len() || k == b.len() || a[k] != b[k])
}

/// `a` comes before `b` in the order of the dictionary: at the first place
/// where they differ, `a` ends or has the lesser character.
pub open spec fn text_before(a: Seq<char>, b: Seq<char>) -> bool {
    exists|k: int| #[trigger]
        first_difference(a, b, k) && k < b.len() && (k == a.len() || (a[k] as int) < (b[k] as int))
}

/// Two texts have a first difference at or after every common prefix.
pub proof fn lemma_first_difference(a: Seq<char>, b: Seq<char>, from: int) -> (k: int)
    requires
        0 <= from <= a.len(),
        from <= b.len(),
        forall|i: int| 0 <= i < from ==> a[i] == b[i],
    ensures
        first_difference(a, b, k),
    decreases a.len() - from,
{
    if from == a.len() || from == b.len() || a[from] != b[from] {
        from
    } else {
        lemma_first_difference(a, b, from + 1)
    }
}

/// The first difference of two texts is at one place only.
pub proof fn lemma_first_difference_unique(a: Seq<char>, b: Seq<char>, k1: int, k2: int)
    requires
        first_difference(a, b, k1),
        first_difference(a, b, k2),
    ensures
        k1 == k2,
{
    if k1 < k2 {
        assert(a[k1] == b[k1]);
    }
    if k2 < k1 {
        assert(a[k2] == b[k2]);
    }
}

/// A human-readable identifier.
///
/// Its view is the sequence of characters it was made from; two names denote
/// the same thing exactly when their views are equal.
#[derive(Clone, Debug, PartialEq, Eq, PartialOrd, Ord, Hash)]
pub struct Name {
    text: String,
}

impl View for Name {
    type V = Seq<char>;

    closed spec fn view(&self) -> Seq<char> {
        self.text@
    }
}

impl Name {
    /// Makes a name from its text.
    pub fn new(s: &str) -> (name: Name)
        ensures
            name@ == s@,
    {
        Name { text: s.to_owned() }
    }

    /// The text of the name.
    pub fn str(&self) -> (s: &str)
        ensures
            s@ == self@,
    {
        self.text.as_str()
    }
}

impl Identified for Name {
    fn matches(&self, other: &Self) -> (same: bool) {
        self.text == other.text
    }

    fn duplicate(&self) -> (copy: Self) {
        Name { text: self.text.clone() }
    }
}

impl Ordered for Name {
    open spec fn before(a: Seq<char>, b: Seq<char>) -> bool {
        text_before(a, b)
    }

    proof fn lemma_before_irreflexive(a: Seq<char>) {
        if text_before(a, a) {
            let k = choose|k: int| #[trigger]
                first_difference(a, a, k) && k < a.len() && (k == a.len() || (a[k] as int) < (
                a[k] as int));
            assert(false);
        }
    }

    proof fn lemma_before_transitive(a: Seq<char>, b: Seq<char>, c: Seq<char>) {
        let k1 = choose|k: int| #[trigger]
            first_difference(a, b, k) && k < b.len() && (k == a.len() || (a[k] as int) < (
            b[k] as int));
        let k2 = choose|k: int| #[trigger]
            first_difference(b, c, k) && k < c.len() && (k == b.len() || (b[k] as int) < (
            c[k] as int));
        let k = if k1 < k2 {
            k1
        } else {
            k2
        };
        assert forall|i: int| 0 <= i < k implies a[i] == c[i] by {
            assert(a[i] == b[i]);
            assert(b[i] == c[i]);
        }
        if k1 < k2 {
            assert(b[k1] == c[k1]);
        }
        if k2 < k1 {
            assert(a[k2] == b[k2]);
        }
        assert(first_difference(a, c, k));
    }

    proof fn lemma_before_total(a: Seq<char>, b: Seq<char>) {
        let k = lemma_first_difference(a, b, 0);
        if k == a.len() && k == b.len() {
            assert(a =~= b);
        } else if k == a.len() {
            assert(text_before(a, b));
        } else if k == b.len() {
            assert(first_difference(b, a, k));
            assert(text_before(b, a));
        } else if (a[k] as int) < (b[k] as int) {
            assert(text_before(a, b));
        } else {
            assert(first_difference(b, a, k));
            assert(text_before(b, a));
        }
    }

    fn precedes(&self, other: &Self) -> (before: bool) {
        let mine = self.text.as_str();
        let theirs = other.text.as_str();
        let n = mine.unicode_len();
        let m = theirs.unicode_len();
        let mut k: usize = 0;
        while k < n && k < m
            invariant
                k <= n,
                k <= m,
                n == self@.len(),
                m == other@.len(),
                mine@ == self@,
                theirs@ == other@,
                forall|i: int| 0 <= i < k ==> self@[i] == other@[i],
            decreases n - k,
        {
            let x = mine.get_char(k);
            let y = theirs.get_char(k);
            if x != y {
                proof {
                    assert(first_difference(self@, other@, k as int));
                    if text_before(self@, other@) {
                        let q = choose|q: int| #[trigger]
                            first_difference(self@, other@, q) && q < other@.len() && (q
                                == self@.len() || (self@[q] as int) < (other@[q] as int));
                        lemma_first_difference_unique(self@, other@, q, k as int);
                    }
                }
                return x < y;
            }
            k += 1;
        }
        proof {
            assert(first_difference(self@, other@, k as int));
            if text_before(self@, other@) {
                let q = choose|q: int| #[trigger]
                    first_difference(self@, other@, q) && q < other@.len() && (q == self@.len() || (
                    self@[q] as int) < (other@[q] as int));
                lemma_first_difference_unique(self@, other@, q, k as int);
            }
        }
        n < m
    }
}

/// The items of a sequence of views stand in strictly ascending order.
pub open spec fn ascending<K: Ordered>(items: Seq<K::V>) -> bool {
    forall|a: int, b: int| 0 <= a < b < items.len() ==> K::before(#[trigger] items[a], #[trigger] items[b])
}

/// In an ascending sequence nothing occurs twice.
pub proof fn lemma_ascending_distinct<K: Ordered>(items: Seq<K::V>)
    requires
        ascending::<K>(items),
    ensures
        items.no_duplicates(),
{
    assert forall|a: int, b: int| 0 <= a < items.len() && 0 <= b < items.len() && a != b implies items[a]
        != items[b] by {
        K::lemma_before_irreflexive(items[a]);
        if a < b {
            assert(K::before(items[a], items[b]));
        } else {
            assert(K::before(items[b], items[a]));
        }
    }
}

/// Putting an item between what comes before it and what comes after it
/// keeps a sequence ascending; the item was not in it.
pub proof fn lemma_ascending_insert<K: Ordered>(items: Seq<K::V>, p: int, x: K::V)
    requires
        ascending::<K>(items),
        0 <= p <= items.len(),
        forall|i: int| 0 <= i < p ==> K::before(#[trigger] items[i], x),
        p < items.len() ==> K::before(x, items[p]),
    ensures
        ascending::<K>(items.insert(p, x)),
        !items.contains(x),
{
    assert forall|j: int| p <= j < items.len() implies K::before(x, #[trigger] items[j]) by {
        if p < j {
            K::lemma_before_transitive(x, items[p], items[j]);
        }
    }
    let grown = items.insert(p, x);
    assert forall|a: int, b: int| 0 <= a < b < grown.len() implies K::before(
        #[trigger] grown[a],
        #[trigger] grown[b],
    ) by {
        if a < p && b < p {
            assert(K::before(items[a], items[b]));
        } else if a < p && b == p {
        } else if a < p {
            assert(K::before(items[a], items[b - 1]));
        } else if a == p {
            assert(K::before(x, items[b - 1]));
        } else {
            assert(K::before(items[a - 1], items[b - 1]));
        }
    }
    if items.contains(x) {
        let i = choose|i: int| 0 <= i < items.len() && items[i] == x;
        K::lemma_before_irreflexive(x);
    }
}

/// The views of the items of a sequence, in order.
pub open spec fn views<T: View>(items: Seq<T>) -> Seq<T::V> {
    items.map_values(|item: T| item@)
}

/// The position of the first item of `items` that denotes the same thing as
/// `wanted`.
pub fn position<S: Identified>(items: &Vec<S>, wanted: &S) -> (found: Option<usize>)
    ensures
        match found {
            Some(i) => i < items.len() && items[i as int]@ == wanted@ && forall|j: int|
                0 <= j < i ==> (#[trigger] items[j])@ != wanted@,
            None => forall|j: int| 0 <= j < items.len() ==> (#[trigger] items[j])@ != wanted@,
        },
        found is Some <==> views(items@).contains(wanted@),
{
    let mut i: usize = 0;
    while i < items.len()
        invariant
            i <= items.len(),
            forall|j: int| 0 <= j < i ==> (#[trigger] items[j])@ != wanted@,
        decreases items.len() - i,
    {
        if items[i].matches(wanted) {
            assert(views(items@)[i as int] == wanted@);
            return Some(i);
        }
        i += 1;
    }
    assert forall|j: int| 0 <= j < views(items@).len() implies views(items@)[j] != wanted@ by {
        assert(items[j]@ != wanted@);
    }
    None
}

/// The keys of a table of key-value pairs, each taken by its view, in order.
pub open spec fn keys<K: View, V>(table: Seq<(K, V)>) -> Seq<K::V> {
    table.map_values(|entry: (K, V)| entry.0@)
}

/// The position of the first entry of `table` whose key denotes the same
/// thing as `key`.
pub fn key_position<K: Identified, V>(table: &Vec<(K, V)>, key: &K) -> (found: Option<usize>)
    ensures
        match found {
            Some(i) => i < table.len() && table[i as int].0@ == key@ && forall|j: int|
                0 <= j < i ==> (#[trigger] table[j]).0@ != key@,
            None => forall|j: int| 0 <= j < table.len() ==> (#[trigger] table[j]).0@ != key@,
        },
        found is Some <==> keys(table@).contains(key@),
{
    let mut i: usize = 0;
    while i < table.len()
        invariant
            i <= table.len(),
            forall|j: int| 0 <= j < i ==> (#[trigger] table[j]).0@ != key@,
        decreases table.len() - i,
    {
        if table[i].0.matches(key) {
            assert(keys(table@)[i as int] == key@);
            return Some(i);
        }
        i += 1;
    }
    assert forall|j: int| 0 <= j < keys(table@).len() implies keys(table@)[j] != key@ by {
        assert(table[j].0@ != key@);
    }
    None
}

/// Copies of the items of a list, in order.
pub fn duplicate_all<S: Identified>(items: &Vec<S>) -> (copies: Vec<S>)
    ensures
        views(copies@) == views(items@),
{
    let mut copies: Vec<S> = Vec::new();
    let mut i: usize = 0;
    while i < items.len()
        invariant
            i <= items.len(),
            copies.len() == i,
            forall|k: int| 0 <= k < i ==> (#[trigger] copies[k])@ == items[k]@,
        decreases items.len() - i,
    {
        copies.push(items[i].duplicate());
        i += 1;
    }
    assert(views(copies@) =~= views(items@));
    copies
}

/// Adds a copy of `item` to `items` unless an item denoting the same thing is
/// already there. Says whether it was added.
pub fn insert_new<S: Identified>(items: &mut Vec<S>, item: &S) -> (added: bool)
    ensures
        added == !views(old(items)@).contains(item@),
        added ==> views(final(items)@) == views(old(items)@).push(item@),
        added ==> final(items).len() == old(items).len() + 1,
        !added ==> final(items)@ == old(items)@,
        views(final(items)@).to_set() == views(old(items)@).to_set().insert(item@),
        views(old(items)@).no_duplicates() ==> views(final(items)@).no_duplicates(),
{
    let ghost before = views(items@);
    if position(items, item).is_none() {
        items.push(item.duplicate());
        proof {
            assert(views(items@) =~= before.push(item@));
            before.lemma_push_to_set_commute(item@);
            if before.no_duplicates() {
                assert forall|i: int, j: int|
                    0 <= i < before.len() + 1 && 0 <= j < before.len() + 1 && i != j implies before.push(
                    item@,
                )[i] != before.push(item@)[j] by {
                    if i < before.len() {
                        assert(before.contains(before[i]));
                    }
                    if j < before.len() {
                        assert(before.contains(before[j]));
                    }
                }
            }
        }
        true
    } else {
        proof {
            assert(before.to_set().insert(item@) =~= before.to_set());
        }
        false
    }
}

/// What a sequence contains after one more item was appended.
pub proof fn lemma_push_contains<A>(items: Seq<A>, last: A, x: A)
    ensures
        items.push(last).contains(x) <==> items.contains(x) || x == last,
{
    if items.contains(x) {
        let i = choose|i: int| 0 <= i < items.len() && items[i] == x;
        assert(items.push(last)[i] == x);
    }
    if x == last {
        assert(items.push(last)[items.len() as int] == x);
    }
}

/// Adds a copy of `item` at its place in the ascending list `items` unless
/// an item denoting the same thing is already there. Says whether it was
/// added.
pub fn insert_sorted<S: Ordered>(items: &mut Vec<S>, item: &S) -> (added: bool)
    requires
        ascending::<S>(views(old(items)@)),
    ensures
        ascending::<S>(views(final(items)@)),
        added == !views(old(items)@).contains(item@),
        views(final(items)@).to_set() == views(old(items)@).to_set().insert(item@),
{
    let ghost before = views(items@);
    let mut p: usize = 0;
    while p < items.len() && items[p].precedes(item)
        invariant
            p <= items.len(),
            before == views(items@),
            forall|i: int| 0 <= i < p ==> S::before(#[trigger] before[i], item@),
        decreases items.len() - p,
    {
        assert(before[p as int] == items[p as int]@);
        p += 1;
    }
    if p < items.len() && items[p].matches(item) {
        proof {
            assert(before[p as int] == item@);
            assert(before.to_set().insert(item@) =~= before.to_set());
        }
        false
    } else {
        proof {
            if p < items.len() {
                assert(before[p as int] == items[p as int]@);
                S::lemma_before_total(item@, before[p as int]);
            }
            lemma_ascending_insert::<S>(before, p as int, item@);
        }
        items.insert(p, item.duplicate());
        proof {
            assert(views(items@) =~= before.insert(p as int, item@));
            assert forall|x: S::V|
                views(items@).to_set().contains(x) <==> before.to_set().insert(item@).contains(x) by {
                if views(items@).contains(x) {
                    let i = choose|i: int| 0 <= i < views(items@).len() && views(items@)[i] == x;
                    if i < p {
                        assert(before[i] == x);
                    } else if i > p {
                        assert(before[i - 1] == x);
                    }
                }
                if before.contains(x) {
                    let i = choose|i: int| 0 <= i < before.len() && before[i] == x;
                    if i < p {
                        assert(views(items@)[i] == x);
                    } else {
                        assert(views(items@)[i + 1] == x);
                    }
                }
                if x == item@ {
                    assert(views(items@)[p as int] == x);
                }
            }
            assert(views(items@).to_set() =~= before.to_set().insert(item@));
        }
        true
    }
}

/// Puts the entry at its place in the table, which is ascending by key: the
/// entry takes the place of the entry with the same key if there is one, and
/// else stands between the keys before it and the keys after it. Returns the
/// place.
pub fn put_entry<K: Ordered, V>(table: &mut Vec<(K, V)>, key: K, value: V) -> (p: usize)
    requires
        ascending::<K>(keys(old(table)@)),
    ensures
        ascending::<K>(keys(final(table)@)),
        p <= old(table).len(),
        keys(old(table)@).contains(key@) ==> p < old(table).len() && old(table)[p as int].0@ == key@
            && final(table)@ == old(table)@.update(p as int, (key, value)),
        !keys(old(table)@).contains(key@) ==> final(table)@ == old(table)@.insert(
            p as int,
            (key, value),
        ),
{
    let ghost before = keys(table@);
    let mut p: usize = 0;
    while p < table.len() && table[p].0.precedes(&key)
        invariant
            p <= table.len(),
            before == keys(table@),
            forall|i: int| 0 <= i < p ==> K::before(#[trigger] before[i], key@),
        decreases table.len() - p,
    {
        assert(before[p as int] == table[p as int].0@);
        p += 1;
    }
    if p < table.len() && table[p].0.matches(&key) {
        proof {
            assert(before[p as int] == key@);
        }
        table[p] = (key, value);
        proof {
            assert(keys(table@) =~= before);
        }
    } else {
        proof {
            if p < table.len() {
                assert(before[p as int] == table[p as int].0@);
                K::lemma_before_total(key@, before[p as int]);
            }
            lemma_ascending_insert::<K>(before, p as int, key@);
        }
        table.insert(p, (key, value));
        proof {
            assert(keys(table@) =~= before.insert(p as int, key@));
        }
    }
    p
}

/// The entries of a table without repeated keys, moved into ascending order
/// of their keys.
pub fn sort_entries<K: Ordered, V>(table: Vec<(K, V)>) -> (sorted: Vec<(K, V)>)
    requires
        keys(table@).no_duplicates(),
    ensures
        ascending::<K>(keys(sorted@)),
        sorted.len() == table.len(),
        forall|i: int| 0 <= i < table.len() ==> sorted@.contains(#[trigger] table@[i]),
        forall|i: int| 0 <= i < sorted.len() ==> table@.contains(#[trigger] sorted@[i]),
{
    let ghost given = table@;
    let mut sorted: Vec<(K, V)> = Vec::new();
    proof {
        assert(keys(sorted@) =~= Seq::<K::V>::empty());
    }
    for entry in it: table
        invariant
            it.seq() == given,
            keys(given).no_duplicates(),
            ascending::<K>(keys(sorted@)),
            sorted.len() == it.index(),
            forall|i: int| 0 <= i < it.index() ==> sorted@.contains(#[trigger] given[i]),
            forall|i: int|
                0 <= i < sorted.len() ==> given.take(it.index()).contains(#[trigger] sorted@[i]),
    {
        let ghost before = sorted@;
        let ghost at = it.index();
        proof {
            assert(given.take(at + 1) =~= given.take(at).push(entry));
            if keys(before).contains(entry.0@) {
                let e = choose|e: int| 0 <= e < keys(before).len() && keys(before)[e] == entry.0@;
                assert(given.take(at).contains(before[e]));
                let i = choose|i: int| 0 <= i < given.take(at).len() && given.take(at)[i] == before[e];
                assert(keys(given)[i] == keys(given)[at]);
            }
        }
        let p = put_entry(&mut sorted, entry.0, entry.1);
        proof {
            assert(sorted@ == before.insert(p as int, entry));
            assert forall|i: int| 0 <= i < at + 1 implies sorted@.contains(#[trigger] given[i]) by {
                if i < at {
                    let e = choose|e: int| 0 <= e < before.len() && before[e] == given[i];
                    if e < p {
                        assert(sorted@[e] == given[i]);
                    } else {
                        assert(sorted@[e + 1] == given[i]);
                    }
                } else {
                    assert(sorted@[p as int] == given[i]);
                }
            }
            assert forall|i: int| 0 <= i < sorted.len() implies given.take(at + 1).contains(
                #[trigger] sorted@[i],
            ) by {
                if i == p {
                    lemma_push_contains(given.take(at), entry, sorted@[i]);
                } else {
                    let e = if i < p { i } else { i - 1 };
                    assert(before[e] == sorted@[i]);
                    assert(given.take(at).contains(before[e]));
                    lemma_push_contains(given.take(at), entry, sorted@[i]);
                }
            }
        }
    }
    proof {
        assert(given.take(given.len() as int) =~= given);
    }
    sorted
}

/// An item occurs in the concatenation of some sequences exactly when it
/// occurs in one of them.
pub proof fn lemma_flatten_contains<A>(parts: Seq<Seq<A>>, x: A)
    ensures
        parts.flatten().contains(x) <==> exists|a: int, b: int|
            0 <= a < parts.len() && 0 <= b < parts[a].len() && #[trigger] parts[a][b] == x,
    decreases parts.len(),
{
    if parts.len() > 0 {
        let front = parts.drop_last();
        let last = parts.last();
        assert(parts =~= front.push(last));
        front.lemma_flatten_push(last);
        lemma_flatten_contains(front, x);
        if parts.flatten().contains(x) {
            let q = choose|q: int| 0 <= q < parts.flatten().len() && parts.flatten()[q] == x;
            if q < front.flatten().len() {
                assert(front.flatten()[q] == x);
                let (a, b) = choose|a: int, b: int|
                    0 <= a < front.len() && 0 <= b < front[a].len() && #[trigger] front[a][b] == x;
                assert(parts[a][b] == x);
            } else {
                let b = q - front.flatten().len();
                assert(parts[parts.len() - 1][b] == x);
            }
        }
        if exists|a: int, b: int|
            0 <= a < parts.len() && 0 <= b < parts[a].len() && #[trigger] parts[a][b] == x {
            let (a, b) = choose|a: int, b: int|
                0 <= a < parts.len() && 0 <= b < parts[a].len() && #[trigger] parts[a][b] == x;
            if a < front.len() {
                assert(front[a][b] == x);
                let q = choose|q: int| 0 <= q < front.flatten().len() && front.flatten()[q] == x;
                assert(parts.flatten()[q] == x);
            } else {
                assert(parts.flatten()[front.flatten().len() + b] == x);
            }
        }
    }
}

/// A sequence without repetition whose items all occur in another sequence
/// is at most as long as that one.
pub proof fn lemma_distinct_bounded<A>(items: Seq<A>, universe: Seq<A>)
    requires
        items.no_duplicates(),
        forall|i: int| 0 <= i < items.len() ==> universe.contains(#[trigger] items[i]),
    ensures
        items.len() <= universe.len(),
{
    items.unique_seq_to_set();
    universe.lemma_cardinality_of_set();
    vstd::seq_lib::seq_to_set_is_finite(universe);
    assert(items.to_set().subset_of(universe.to_set())) by {
        assert forall|x: A| items.to_set().contains(x) implies universe.to_set().contains(x) by {
            let i = choose|i: int| 0 <= i < items.len() && items[i] == x;
            assert(universe.contains(items[i]));
        }
    }
    vstd::set_lib::lemma_len_subset(items.to_set(), universe.to_set());
}

/// The map that a sequence of key-value pairs denotes when the pairs are
/// inserted one after another: of two pairs with the same key the later wins.
pub open spec fn pairs_to_map<K, V>(pairs: Seq<(K, V)>) -> Map<K, V>
    decreases pairs.len(),
{
    if pairs.len() == 0 {
        Map::empty()
    } else {
        pairs_to_map(pairs.drop_last()).insert(pairs.last().0, pairs.last().1)
    }
}

/// The keys of `pairs_to_map` are the keys of the pairs and are finitely many.
pub proof fn lemma_pairs_to_map_dom<K, V>(pairs: Seq<(K, V)>)
    ensures
        pairs_to_map(pairs).dom().finite(),
        forall|k: K|
            pairs_to_map(pairs).contains_key(k) <==> exists|i: int|
                0 <= i < pairs.len() && (#[trigger] pairs[i]).0 == k,
    decreases pairs.len(),
{
    if pairs.len() > 0 {
        let front = pairs.drop_last();
        lemma_pairs_to_map_dom(front);
        assert forall|k: K| pairs_to_map(pairs).contains_key(k) implies exists|i: int|
            0 <= i < pairs.len() && (#[trigger] pairs[i]).0 == k by {
            if k == pairs.last().0 {
                assert(pairs[pairs.len() - 1].0 == k);
            } else {
                let i = choose|i: int| 0 <= i < front.len() && (#[trigger] front[i]).0 == k;
                assert(pairs[i].0 == k);
            }
        }
        assert forall|k: K|
            (exists|i: int| 0 <= i < pairs.len() && (#[trigger] pairs[i]).0 == k)
            implies pairs_to_map(pairs).contains_key(k) by {
            let i = choose|i: int| 0 <= i < pairs.len() && (#[trigger] pairs[i]).0 == k;
            if i < pairs.len() - 1 {
                assert(front[i].0 == k);
            }
        }
    }
}

/// The value under a key is that of the last pair with this key.
pub proof fn lemma_pairs_to_map_last<K, V>(pairs: Seq<(K, V)>, i: int)
    requires
        0 <= i < pairs.len(),
        forall|j: int| i < j < pairs.len() ==> (#[trigger] pairs[j]).0 != pairs[i].0,
    ensures
        pairs_to_map(pairs).contains_key(pairs[i].0),
        pairs_to_map(pairs)[pairs[i].0] == pairs[i].1,
    decreases pairs.len(),
{
    if i < pairs.len() - 1 {
        let front = pairs.drop_last();
        assert(pairs[pairs.len() - 1].0 != pairs[i].0);
        assert forall|j: int| i < j < front.len() implies (#[trigger] front[j]).0 != front[i].0 by {
            assert(pairs[j].0 != pairs[i].0);
        }
        lemma_pairs_to_map_last(front, i);
    }
}

/// Where no key occurs twice, replacing the value of one pair changes the
/// map at the key of that pair and nowhere else.
pub proof fn lemma_pairs_to_map_update<K, V>(pairs: Seq<(K, V)>, i: int, value: V)
    requires
        0 <= i < pairs.len(),
        forall|a: int, b: int|
            0 <= a < pairs.len() && 0 <= b < pairs.len() && a != b ==> (#[trigger] pairs[a]).0 != (
            #[trigger] pairs[b]).0,
    ensures
        pairs_to_map(pairs.update(i, (pairs[i].0, value))) == pairs_to_map(pairs).insert(
            pairs[i].0,
            value,
        ),
{
    let key = pairs[i].0;
    let changed = pairs.update(i, (key, value));
    let left = pairs_to_map(changed);
    let right = pairs_to_map(pairs).insert(key, value);
    lemma_pairs_to_map_dom(pairs);
    lemma_pairs_to_map_dom(changed);
    assert forall|k: K| left.contains_key(k) <==> right.contains_key(k) by {
        if left.contains_key(k) {
            let a = choose|a: int| 0 <= a < changed.len() && (#[trigger] changed[a]).0 == k;
            assert(pairs[a].0 == k);
        }
        if pairs_to_map(pairs).contains_key(k) {
            let a = choose|a: int| 0 <= a < pairs.len() && (#[trigger] pairs[a]).0 == k;
            assert(changed[a].0 == k);
        }
        if k == key {
            assert(changed[i].0 == k);
        }
    }
    assert forall|k: K| left.contains_key(k) implies left[k] == right[k] by {
        let a = choose|a: int| 0 <= a < changed.len() && (#[trigger] changed[a]).0 == k;
        assert(pairs[a].0 == k);
        assert forall|b: int| a < b < changed.len() implies (#[trigger] changed[b]).0 != changed[a].0 by {
            assert(pairs[b].0 != pairs[a].0);
        }
        lemma_pairs_to_map_last(changed, a);
        lemma_pairs_to_map_last(pairs, a);
    }
    assert(left =~= right);
}

/// Where no key occurs twice, putting in a pair with a new key adds that key
/// to the map and changes nothing else, wherever the pair is put.
pub proof fn lemma_pairs_to_map_insert<K, V>(pairs: Seq<(K, V)>, p: int, key: K, value: V)
    requires
        0 <= p <= pairs.len(),
        forall|a: int, b: int|
            0 <= a < pairs.len() && 0 <= b < pairs.len() && a != b ==> (#[trigger] pairs[a]).0 != (
            #[trigger] pairs[b]).0,
        forall|a: int| 0 <= a < pairs.len() ==> (#[trigger] pairs[a]).0 != key,
    ensures
        pairs_to_map(pairs.insert(p, (key, value))) == pairs_to_map(pairs).insert(key, value),
{
    let grown = pairs.insert(p, (key, value));
    let left = pairs_to_map(grown);
    let right = pairs_to_map(pairs).insert(key, value);
    lemma_pairs_to_map_dom(pairs);
    lemma_pairs_to_map_dom(grown);
    assert forall|a: int, b: int| 0 <= a < grown.len() && 0 <= b < grown.len() && a != b implies (
    #[trigger] grown[a]).0 != (#[trigger] grown[b]).0 by {
        let oa = if a < p { a } else { a - 1 };
        let ob = if b < p { b } else { b - 1 };
        if a != p && b != p {
            assert(pairs[oa].0 != pairs[ob].0);
        } else if a == p {
            assert(pairs[ob].0 != key);
        } else {
            assert(pairs[oa].0 != key);
        }
    }
    assert forall|k: K| left.contains_key(k) <==> right.contains_key(k) by {
        if left.contains_key(k) {
            let a = choose|a: int| 0 <= a < grown.len() && (#[trigger] grown[a]).0 == k;
            if a < p {
                assert(pairs[a].0 == k);
            } else if a > p {
                assert(pairs[a - 1].0 == k);
            }
        }
        if pairs_to_map(pairs).contains_key(k) {
            let a = choose|a: int| 0 <= a < pairs.len() && (#[trigger] pairs[a]).0 == k;
            if a < p {
                assert(grown[a].0 == k);
            } else {
                assert(grown[a + 1].0 == k);
            }
        }
        if k == key {
            assert(grown[p].0 == k);
        }
    }
    assert forall|k: K| left.contains_key(k) implies left[k] == right[k] by {
        let a = choose|a: int| 0 <= a < grown.len() && (#[trigger] grown[a]).0 == k;
        assert forall|b: int| a < b < grown.len() implies (#[trigger] grown[b]).0 != grown[a].0 by {}
        lemma_pairs_to_map_last(grown, a);
        if a != p {
            let oa = if a < p { a } else { a - 1 };
            assert(pairs[oa] == grown[a]);
            assert forall|b: int| oa < b < pairs.len() implies (#[trigger] pairs[b]).0 != pairs[oa].0 by {}
            lemma_pairs_to_map_last(pairs, oa);
        }
    }
    assert(left =~= right);
}

/// A tree whose nodes carry a label and whose children are reached by name.
///
/// No two children of a node have the same name. The children are kept in
/// ascending order of their names.
#[derive(Debug)]
pub struct TreeNode<A> {
    action: A,
    fields: Vec<(Name, TreeNode<A>)>,
}

/// The mathematical content of a [`TreeNode`]: a label and a finite map from
/// child names to subtrees.
pub struct TreeSpec<L> {
    pub action: L,
    pub fields: Map<Seq<char>, TreeSpec<L>>,
}

impl<A> TreeNode<A> {
    #[verifier::type_invariant]
    spec fn names_ascend(self) -> bool {
        ascending::<Name>(keys(self.fields@))
    }
}

impl<A: View> TreeNode<A> {
    /// The first `n` children as pairs of name and subtree content.
    spec fn children_upto(self, n: nat) -> Seq<(Seq<char>, TreeSpec<A::V>)>
        decreases self, n,
    {
        if 0 < n <= self.fields.len() {
            let child = self.fields[n - 1];
            self.children_upto((n - 1) as nat).push((child.0@, child.1.content()))
        } else {
            Seq::empty()
        }
    }

    /// The content of the whole tree.
    spec fn content(self) -> TreeSpec<A::V>
        decreases self, self.fields.len() + 1,
    {
        TreeSpec {
            action: self.action@,
            fields: pairs_to_map(self.children_upto(self.fields.len() as nat)),
        }
    }
}

impl<A: View> View for TreeNode<A> {
    type V = TreeSpec<A::V>;

    closed spec fn view(&self) -> TreeSpec<A::V> {
        self.content()
    }
}

/// The named subtrees of a list of children, each taken by its content.
pub open spec fn named_trees<A: View>(children: Seq<(Name, TreeNode<A>)>) -> Seq<
    (Seq<char>, TreeSpec<A::V>),
> {
    children.map_values(|c: (Name, TreeNode<A>)| (c.0@, c.1@))
}

impl<A: View> TreeNode<A> {
    proof fn lemma_children_upto(self, n: nat)
        requires
            n <= self.fields.len(),
        ensures
            self.children_upto(n) == named_trees(self.fields@).take(n as int),
        decreases n,
    {
        if n > 0 {
            self.lemma_children_upto((n - 1) as nat);
            assert(self.children_upto(n) =~= named_trees(self.fields@).take(n as int));
        } else {
            assert(self.children_upto(n) =~= named_trees(self.fields@).take(n as int));
        }
    }

    proof fn lemma_content(self)
        ensures
            self@.action == self.action@,
            self@.fields == pairs_to_map(named_trees(self.fields@)),
    {
        self.lemma_children_upto(self.fields.len() as nat);
        assert(named_trees(self.fields@).take(self.fields.len() as int) =~= named_trees(
            self.fields@,
        ));
    }

    /// Makes a node from its label and its named children. Of several
    /// children with the same name the last one given is kept.
    pub fn new(action: A, fields: Vec<(Name, TreeNode<A>)>) -> (node: Self)
        ensures
            node@.action == action@,
            node@.fields == pairs_to_map(named_trees(fields@)),
    {
        let ghost given = fields@;
        let mut kept: Vec<(Name, TreeNode<A>)> = Vec::new();
        proof {
            assert(keys(kept@) =~= Seq::<Seq<char>>::empty());
            assert(named_trees(kept@) =~= named_trees(given.take(0)));
        }
        for entry in it: fields
            invariant
                it.seq() == given,
                ascending::<Name>(keys(kept@)),
                pairs_to_map(named_trees(kept@)) == pairs_to_map(named_trees(given.take(it.index()))),
        {
            let ghost before = kept@;
            let ghost pair = (entry.0@, entry.1@);
            let ghost pairs = named_trees(before);
            proof {
                let done = named_trees(given.take(it.index()));
                let next = named_trees(given.take(it.index() + 1));
                assert(next =~= done.push(pair));
                assert(next.drop_last() =~= done);
                lemma_ascending_distinct::<Name>(keys(before));
                assert forall|a: int, b: int|
                    0 <= a < pairs.len() && 0 <= b < pairs.len() && a != b implies (
                #[trigger] pairs[a]).0 != (#[trigger] pairs[b]).0 by {
                    assert(keys(before)[a] != keys(before)[b]);
                }
            }
            let p = put_entry(&mut kept, entry.0, entry.1);
            proof {
                if keys(before).contains(pair.0) {
                    assert(pairs[p as int].0 == pair.0);
                    lemma_pairs_to_map_update(pairs, p as int, pair.1);
                    assert(named_trees(kept@) =~= pairs.update(p as int, pair));
                } else {
                    assert forall|a: int| 0 <= a < pairs.len() implies (#[trigger] pairs[a]).0
                        != pair.0 by {
                        assert(keys(before)[a] == pairs[a].0);
                    }
                    lemma_pairs_to_map_insert(pairs, p as int, pair.0, pair.1);
                    assert(named_trees(kept@) =~= pairs.insert(p as int, pair));
                }
            }
        }
        proof {
            assert(given.take(given.len() as int) =~= given);
        }
        let node = TreeNode { action, fields: kept };
        proof {
            node.lemma_content();
        }
        node
    }

    /// The label of the node.
    pub fn action(&self) -> (action: &A)
        ensures
            action@ == self@.action,
    {
        proof {
            self.lemma_content();
        }
        &self.action
    }

    /// The children with their names, in ascending order of the names.
    pub fn fields(&self) -> (fields: &Vec<(Name, TreeNode<A>)>)
        ensures
            pairs_to_map(named_trees(fields@)) == self@.fields,
            ascending::<Name>(keys(fields@)),
    {
        proof {
            use_type_invariant(self);
            self.lemma_content();
        }
        &self.fields
    }

    /// The child reachable under `name`, if there is one.
    pub fn get(&self, name: &Name) -> (child: Option<&TreeNode<A>>)
        ensures
            child is Some <==> self@.fields.contains_key(name@),
            child matches Some(t) ==> t@ == self@.fields[name@],
    {
        let ghost pairs = named_trees(self.fields@);
        proof {
            self.lemma_content();
        }
        let mut i: usize = self.fields.len();
        while i > 0
            invariant
                i <= self.fields.len(),
                pairs == named_trees(self.fields@),
                self@.fields == pairs_to_map(pairs),
                forall|j: int| i <= j < pairs.len() ==> (#[trigger] pairs[j]).0 != name@,
            decreases i,
        {
            i -= 1;
            if self.fields[i].0.matches(name) {
                proof {
                    assert(pairs[i as int].0 == name@);
                    lemma_pairs_to_map_last(pairs, i as int);
                }
                return Some(&self.fields[i].1);
            }
        }
        proof {
            lemma_pairs_to_map_dom(pairs);
        }
        None
    }
}

impl<A: Identified> Clone for TreeNode<A> {
    fn clone(&self) -> (copy: Self)
        ensures
            copy@ == self@,
    {
        self.duplicate()
    }
}

impl<A: Identified> TreeNode<A> {
    /// A deep copy with the same content.
    pub fn duplicate(&self) -> (copy: Self)
        ensures
            copy@ == self@,
        decreases self,
    {
        let mut fields: Vec<(Name, TreeNode<A>)> = Vec::new();
        let mut i: usize = 0;
        while i < self.fields.len()
            invariant
                i <= self.fields.len(),
                fields.len() == i,
                forall|k: int|
                    0 <= k < i ==> (#[trigger] fields[k]).0@ == self.fields[k].0@ && fields[k].1@
                        == self.fields[k].1@,
            decreases self.fields.len() - i,
        {
            let child = &self.fields[i];
            fields.push((child.0.duplicate(), child.1.duplicate()));
            i += 1;
        }
        proof {
            use_type_invariant(self);
            self.lemma_content();
            assert(named_trees(fields@) =~= named_trees(self.fields@));
            assert(keys(fields@) =~= keys(self.fields@));
        }
        let copy = TreeNode { action: self.action.duplicate(), fields };
        proof {
            copy.lemma_content();
        }
        copy
    }
}

} // verus!
