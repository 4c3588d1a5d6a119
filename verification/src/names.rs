//! Ordered collections of names.
//!
//! Sets and maps of names are kept as lists in ascending order, so that what is
//! made of them comes out in the same order whatever order it went in.

use crate::text::{copy, same_text, texts, Text};
use std::cmp::Ordering;
use vstd::prelude::*;
use vstd::std_specs::iter::IteratorSpec;

verus! {

/// Whether `a` comes before `b` in the dictionary order of their code points.
pub open spec fn text_lt(a: Text, b: Text) -> bool
    decreases a.len(),
{
    if b.len() == 0 {
        false
    } else if a.len() == 0 {
        true
    } else if a[0] != b[0] {
        a[0] < b[0]
    } else {
        text_lt(a.skip(1), b.skip(1))
    }
}

/// Law: the order of names is total, and no name comes before itself.
pub proof fn law_order_is_total(a: Text, b: Text)
    ensures
        a == b ==> !text_lt(a, b),
        a != b ==> (text_lt(a, b) <==> !text_lt(b, a)),
    decreases a.len(),
{
    if a.len() > 0 && b.len() > 0 && a[0] == b[0] {
        law_order_is_total(a.skip(1), b.skip(1));
        assert(a == seq![a[0]] + a.skip(1));
        assert(b == seq![b[0]] + b.skip(1));
    } else if a.len() == 0 && b.len() == 0 {
        assert(a == b);
    }
}

/// Law: the order of names is transitive.
pub proof fn law_order_is_transitive(a: Text, b: Text, c: Text)
    requires
        text_lt(a, b),
        text_lt(b, c),
    ensures
        text_lt(a, c),
    decreases a.len(),
{
    if a.len() > 0 && a[0] == b[0] && b[0] == c[0] {
        law_order_is_transitive(a.skip(1), b.skip(1), c.skip(1));
    }
}

/// Whether `a` comes before `b`.
pub fn less(a: &str, b: &str) -> (r: bool)
    ensures
        r == text_lt(a@, b@),
{
    let mut rest = b.chars();
    assert(a@.skip(0) == a@ && b@.skip(0) == b@);
    for c in it: a.chars()
        invariant
            it.seq() == a@,
            it.index() <= b@.len(),
            rest.remaining() == b@.skip(it.index() as int),
            text_lt(a@, b@) == text_lt(a@.skip(it.index() as int), b@.skip(it.index() as int)),
    {
        match rest.next() {
            None => {
                return false;
            },
            Some(d) => {
                if c < d {
                    return true;
                }
                if d < c {
                    return false;
                }
            },
        }
        proof {
            let i = it.index() as int;
            assert(a@.skip(i).skip(1) == a@.skip(i + 1));
            assert(b@.skip(i).skip(1) == b@.skip(i + 1));
            assert(b@.skip(i).drop_first() == b@.skip(i + 1));
        }
    }
    rest.next().is_some()
}

/// How `a` compares with `b`.
pub open spec fn text_ordering(a: Text, b: Text) -> Ordering {
    if text_lt(a, b) {
        Ordering::Less
    } else if text_lt(b, a) {
        Ordering::Greater
    } else {
        Ordering::Equal
    }
}

/// Compares two names.
pub fn compare(a: &str, b: &str) -> (r: Ordering)
    ensures
        r == text_ordering(a@, b@),
{
    if less(a, b) {
        Ordering::Less
    } else if less(b, a) {
        Ordering::Greater
    } else {
        Ordering::Equal
    }
}

/// Whether each name of `list` comes before those behind it.
pub open spec fn ascending(list: Seq<Text>) -> bool {
    forall|i: int, j: int| 0 <= i < j < list.len() ==> text_lt(list[i], list[j])
}

/// The names of a finite set in ascending order.
pub open spec fn sorted(set: Set<Text>) -> Seq<Text> {
    choose|list: Seq<Text>| ascending(list) && #[trigger] list.to_set() == set
}

/// Law: two ascending lists of the same names are the same list.
pub proof fn law_ascending_list_is_unique(a: Seq<Text>, b: Seq<Text>)
    requires
        ascending(a),
        ascending(b),
        a.to_set() == b.to_set(),
    ensures
        a == b,
    decreases a.len(),
{
    assert forall|n: Text| a.contains(n) implies b.contains(n) by {
        assert(b.to_set().contains(n));
    }
    assert forall|n: Text| b.contains(n) implies a.contains(n) by {
        assert(a.to_set().contains(n));
    }
    if a.len() == 0 {
        if b.len() > 0 {
            assert(a.contains(b[0]));
        }
        assert(a == b);
    } else {
        assert(b.contains(a.last()));
        assert(a.contains(b.last()));
        let i = choose|i: int| 0 <= i < b.len() && b[i] == a.last();
        let j = choose|j: int| 0 <= j < a.len() && a[j] == b.last();
        if a.last() != b.last() {
            law_order_is_total(a.last(), b.last());
        }
        let a_front = a.drop_last();
        let b_front = b.drop_last();
        assert forall|n: Text| a_front.to_set().contains(n) <==> b_front.to_set().contains(n) by {
            if a_front.contains(n) {
                let k = choose|k: int| 0 <= k < a_front.len() && a_front[k] == n;
                assert(a[k] == n);
                assert(a.contains(n));
                assert(b.contains(n));
                law_order_is_total(n, a.last());
                let m = choose|m: int| 0 <= m < b.len() && b[m] == n;
                assert(b_front[m] == n);
            }
            if b_front.contains(n) {
                let k = choose|k: int| 0 <= k < b_front.len() && b_front[k] == n;
                assert(b[k] == n);
                assert(b.contains(n));
                assert(a.contains(n));
                law_order_is_total(n, b.last());
                let m = choose|m: int| 0 <= m < a.len() && a[m] == n;
                assert(a_front[m] == n);
            }
        }
        assert(a_front.to_set() == b_front.to_set());
        law_ascending_list_is_unique(a_front, b_front);
        assert(a == a_front.push(a.last()));
        assert(b == b_front.push(b.last()));
    }
}

/// An ascending list is the sorted list of its names.
pub proof fn lemma_sorted_of_ascending(list: Seq<Text>)
    requires
        ascending(list),
    ensures
        sorted(list.to_set()) == list,
{
    let other = sorted(list.to_set());
    assert(ascending(other) && other.to_set() == list.to_set());
    law_ascending_list_is_unique(list, other);
}

/// A finite set has its sorted list.
pub proof fn lemma_sorted_exists(set: Set<Text>)
    requires
        set.finite(),
    ensures
        ascending(sorted(set)),
        sorted(set).to_set() == set,
    decreases set.len(),
{
    if set.len() == 0 {
        assert(set =~= Set::<Text>::empty());
        assert(ascending(Seq::<Text>::empty()));
        assert(Seq::<Text>::empty().to_set() =~= set);
    } else {
        let name = set.choose();
        let rest = set.remove(name);
        lemma_sorted_exists(rest);
        let list = sorted(rest);
        assert(!list.contains(name)) by {
            assert(!list.to_set().contains(name));
        }
        let at = lemma_place_exists(list, name, list.len() as int);
        lemma_insert_in_place(list, name, at);
        assert(list.insert(at, name).to_set() =~= set);
    }
}

/// The place of a name that an ascending list does not have.
proof fn lemma_place_exists(list: Seq<Text>, name: Text, to: int) -> (at: int)
    requires
        ascending(list),
        !list.contains(name),
        0 <= to <= list.len(),
        forall|k: int| to <= k < list.len() ==> text_lt(name, #[trigger] list[k]),
    ensures
        place(list, name, at),
    decreases to,
{
    if to == 0 {
        to
    } else {
        assert(list.contains(list[to - 1]));
        law_order_is_total(list[to - 1], name);
        if text_lt(name, list[to - 1]) {
            lemma_place_exists(list, name, to - 1)
        } else {
            assert forall|k: int| 0 <= k < to implies text_lt(#[trigger] list[k], name) by {
                if k < to - 1 {
                    law_order_is_transitive(list[k], list[to - 1], name);
                }
            }
            to
        }
    }
}

/// `name` has its place at `at` in an ascending list: all before `at` come
/// before it, and it comes before all from `at` on.
spec fn place(list: Seq<Text>, name: Text, at: int) -> bool {
    &&& 0 <= at <= list.len()
    &&& forall|k: int| 0 <= k < at ==> text_lt(#[trigger] list[k], name)
    &&& forall|k: int| at <= k < list.len() ==> text_lt(name, #[trigger] list[k])
}

/// Where `name` stands in an ascending list, or its place where it is not in it.
fn find(names: &Vec<String>, name: &str) -> (found: Result<usize, usize>)
    requires
        ascending(texts(names@)),
    ensures
        match found {
            Ok(at) => at < names.len() && texts(names@)[at as int] == name@,
            Err(at) => place(texts(names@), name@, at as int),
        },
{
    let ghost list = texts(names@);
    let mut low: usize = 0;
    let mut high: usize = names.len();
    while low < high
        invariant
            low <= high <= names.len(),
            list == texts(names@),
            ascending(list),
            forall|k: int| 0 <= k < low ==> text_lt(#[trigger] list[k], name@),
            forall|k: int| high <= k < list.len() ==> text_lt(name@, #[trigger] list[k]),
        decreases high - low,
    {
        let middle: usize = low + (high - low) / 2;
        assert(list[middle as int] == names[middle as int]@);
        if less(names[middle].as_str(), name) {
            proof {
                assert forall|k: int| 0 <= k < middle + 1 implies text_lt(
                    #[trigger] list[k],
                    name@,
                ) by {
                    if k < middle {
                        law_order_is_transitive(list[k], list[middle as int], name@);
                    }
                }
            }
            low = middle + 1;
        } else if less(name, names[middle].as_str()) {
            proof {
                assert forall|k: int| middle <= k < list.len() implies text_lt(
                    name@,
                    #[trigger] list[k],
                ) by {
                    if middle < k {
                        law_order_is_transitive(name@, list[middle as int], list[k]);
                    }
                }
            }
            high = middle;
        } else {
            proof {
                law_order_is_total(list[middle as int], name@);
            }
            return Ok(middle);
        }
    }
    Err(low)
}

proof fn lemma_not_in_list(list: Seq<Text>, name: Text, at: int)
    requires
        place(list, name, at),
    ensures
        !list.contains(name),
{
    if list.contains(name) {
        let k = choose|k: int| 0 <= k < list.len() && list[k] == name;
        assert(text_lt(list[k], name) || text_lt(name, list[k]));
        law_order_is_total(name, name);
    }
}

proof fn lemma_insert_in_place(list: Seq<Text>, name: Text, at: int)
    requires
        ascending(list),
        place(list, name, at),
    ensures
        ascending(list.insert(at, name)),
        list.insert(at, name).to_set() == list.to_set().insert(name),
{
    let longer = list.insert(at, name);
    assert forall|n: Text| longer.to_set().contains(n) <==> list.to_set().insert(name).contains(
        n,
    ) by {
        if longer.contains(n) && n != name {
            let k = choose|k: int| 0 <= k < longer.len() && longer[k] == n;
            if k < at {
                assert(list[k] == n);
            } else {
                assert(list[k - 1] == n);
            }
        }
        if list.contains(n) {
            let k = choose|k: int| 0 <= k < list.len() && list[k] == n;
            if k < at {
                assert(longer[k] == n);
            } else {
                assert(longer[k + 1] == n);
            }
        }
        assert(longer[at] == name);
    }
    assert forall|i: int, j: int| 0 <= i < j < longer.len() implies text_lt(
        longer[i],
        longer[j],
    ) by {
        if i < at && j > at {
            assert(longer[i] == list[i] && longer[j] == list[j - 1]);
        } else if i == at {
            assert(longer[j] == list[j - 1]);
        } else if j == at {
            assert(longer[i] == list[i]);
        }
    }
}

/// An ascending list has no name twice.
pub proof fn lemma_ascending_has_no_duplicates(list: Seq<Text>)
    requires
        ascending(list),
    ensures
        list.no_duplicates(),
{
    assert forall|i: int, j: int| 0 <= i < list.len() && 0 <= j < list.len() && i != j implies list[i]
        != list[j] by {
        law_order_is_total(list[i], list[i]);
        if i < j {
            assert(text_lt(list[i], list[j]));
        } else {
            assert(text_lt(list[j], list[i]));
        }
    }
}

/// Where a name stands among the sorted names of a set, and what they are without
/// it.
pub proof fn lemma_sorted_without(set: Set<Text>, name: Text) -> (at: int)
    requires
        set.finite(),
        set.contains(name),
    ensures
        0 <= at < sorted(set).len(),
        sorted(set)[at] == name,
        sorted(set.remove(name)) == sorted(set).remove(at),
{
    let list = sorted(set);
    lemma_sorted_exists(set);
    lemma_ascending_has_no_duplicates(list);
    assert(list.to_set().contains(name));
    let at = choose|at: int| 0 <= at < list.len() && list[at] == name;
    let rest = list.remove(at);
    assert forall|n: Text| rest.to_set().contains(n) <==> set.remove(name).contains(n) by {
        if rest.contains(n) {
            let k = choose|k: int| 0 <= k < rest.len() && rest[k] == n;
            let k_before = if k < at {
                k
            } else {
                k + 1
            };
            assert(list[k_before] == n);
            assert(list.to_set().contains(n));
        }
        if set.remove(name).contains(n) {
            assert(list.to_set().contains(n));
            let k = choose|k: int| 0 <= k < list.len() && list[k] == n;
            if k < at {
                assert(rest[k] == n);
            } else {
                assert(rest[k - 1] == n);
            }
        }
    }
    assert(rest.to_set() =~= set.remove(name));
    assert(ascending(rest));
    lemma_sorted_of_ascending(rest);
    at
}

/// A set of names.
#[derive(Debug, PartialEq, Eq)]
pub struct NameSet {
    names: Vec<String>,
}

impl View for NameSet {
    type V = Set<Text>;

    closed spec fn view(&self) -> Set<Text> {
        texts(self.names@).to_set()
    }
}

impl NameSet {
    #[verifier::type_invariant]
    spec fn well_formed(self) -> bool {
        ascending(texts(self.names@))
    }

    /// The set without names.
    pub fn new() -> (set: NameSet)
        ensures
            set@ == Set::<Text>::empty(),
    {
        let set = NameSet { names: Vec::new() };
        assert(set@ == Set::<Text>::empty());
        set
    }

    /// The names of the set, in ascending order.
    pub fn names(&self) -> (names: &Vec<String>)
        ensures
            texts(names@) == sorted(self@),
            ascending(texts(names@)),
            texts(names@).to_set() == self@,
            self@.finite(),
    {
        proof {
            use_type_invariant(self);
            vstd::seq_lib::seq_to_set_is_finite(texts(self.names@));
            lemma_sorted_of_ascending(texts(self.names@));
        }
        &self.names
    }

    /// Whether the set has `name`.
    pub fn contains(&self, name: &str) -> (has: bool)
        ensures
            has == self@.contains(name@),
    {
        proof {
            use_type_invariant(self);
        }
        match find(&self.names, name) {
            Ok(at) => true,
            Err(at) => {
                proof {
                    lemma_not_in_list(texts(self.names@), name@, at as int);
                }
                false
            },
        }
    }

    /// Puts `name` into the set.
    pub fn insert(&mut self, name: String)
        ensures
            final(self)@ == old(self)@.insert(name@),
    {
        proof {
            use_type_invariant(&*self);
        }
        match find(&self.names, name.as_str()) {
            Ok(at) => {
                assert(texts(self.names@).contains(name@));
                assert(self@.insert(name@) == self@);
            },
            Err(at) => {
                let mut names: Vec<String> = Vec::new();
                std::mem::swap(&mut names, &mut self.names);
                let ghost before = names@;
                proof {
                    lemma_insert_in_place(texts(before), name@, at as int);
                }
                names.insert(at, name);
                assert(texts(names@) == texts(before).insert(at as int, name@));
                self.names = names;
            },
        }
    }

    /// The set of the names in `list`.
    pub fn from_list(list: &Vec<String>) -> (set: NameSet)
        ensures
            set@ == texts(list@).to_set(),
    {
        let mut set = NameSet::new();
        let ghost all = texts(list@);
        let mut i: usize = 0;
        assert(all.take(0).to_set() == Set::<Text>::empty());
        while i < list.len()
            invariant
                i <= list.len(),
                all == texts(list@),
                set@ == all.take(i as int).to_set(),
            decreases list.len() - i,
        {
            set.insert(copy(list[i].as_str()));
            proof {
                lemma_set_of_push(all.take(i as int), all[i as int]);
                assert(all.take(i as int).push(all[i as int]) == all.take(i + 1));
            }
            i += 1;
        }
        assert(all.take(list.len() as int) == all);
        set
    }

    /// A set of its own with the same names.
    pub fn copied(&self) -> (set: NameSet)
        ensures
            set@ == self@,
    {
        NameSet::from_list(self.names())
    }

    /// The names that are in this set or in `other`.
    pub fn union(&self, other: &NameSet) -> (set: NameSet)
        ensures
            set@ == self@.union(other@),
    {
        let mut set = self.copied();
        let names = other.names();
        let ghost all = texts(names@);
        let mut i: usize = 0;
        assert(self@.union(all.take(0).to_set()) == self@);
        while i < names.len()
            invariant
                i <= names.len(),
                all == texts(names@),
                set@ == self@.union(all.take(i as int).to_set()),
            decreases names.len() - i,
        {
            set.insert(copy(names[i].as_str()));
            proof {
                lemma_set_of_push(all.take(i as int), all[i as int]);
                assert(all.take(i as int).push(all[i as int]) == all.take(i + 1));
                assert(self@.union(all.take(i as int).to_set()).insert(all[i as int])
                    == self@.union(all.take(i as int).to_set().insert(all[i as int])));
            }
            i += 1;
        }
        assert(all.take(names.len() as int) == all);
        set
    }

    /// Whether this set and `other` have the same names.
    pub fn same(&self, other: &NameSet) -> (same: bool)
        ensures
            same == (self@ == other@),
    {
        let a = self.names();
        let b = other.names();
        if a.len() != b.len() {
            assert(texts(a@).len() != texts(b@).len());
            return false;
        }
        let mut i: usize = 0;
        while i < a.len()
            invariant
                i <= a.len(),
                a.len() == b.len(),
                texts(a@) == sorted(self@),
                texts(b@) == sorted(other@),
                texts(a@).take(i as int) == texts(b@).take(i as int),
            decreases a.len() - i,
        {
            if !same_text(a[i].as_str(), b[i].as_str()) {
                assert(texts(a@)[i as int] != texts(b@)[i as int]);
                return false;
            }
            assert(texts(a@).take(i + 1) == texts(a@).take(i as int).push(a[i as int]@));
            assert(texts(b@).take(i + 1) == texts(b@).take(i as int).push(b[i as int]@));
            i += 1;
        }
        assert(texts(a@).take(a.len() as int) == texts(a@));
        assert(texts(b@).take(b.len() as int) == texts(b@));
        true
    }
}

/// Adding a name to a list adds it to the set of its names.
pub proof fn lemma_set_of_push(list: Seq<Text>, name: Text)
    ensures
        list.push(name).to_set() == list.to_set().insert(name),
{
    let longer = list.push(name);
    assert forall|n: Text| longer.to_set().contains(n) <==> list.to_set().insert(name).contains(
        n,
    ) by {
        if longer.contains(n) && n != name {
            let k = choose|k: int| 0 <= k < longer.len() && longer[k] == n;
            assert(list[k] == n);
        }
        if list.contains(n) {
            let k = choose|k: int| 0 <= k < list.len() && list[k] == n;
            assert(longer[k] == n);
        }
        assert(longer[list.len() as int] == name);
    }
}

/// A map from names.
#[derive(Debug)]
pub struct NameMap<V> {
    names: Vec<String>,
    values: Vec<V>,
}

impl<V: View> View for NameMap<V> {
    type V = Map<Text, V::V>;

    closed spec fn view(&self) -> Map<Text, V::V> {
        Map::new(
            |name: Text| texts(self.names@).contains(name),
            |name: Text| self.values@[texts(self.names@).index_of(name)]@,
        )
    }
}

impl<V> NameMap<V> {
    #[verifier::type_invariant]
    spec fn well_formed(self) -> bool {
        &&& ascending(texts(self.names@))
        &&& self.names@.len() == self.values@.len()
    }
}

impl<V: View> NameMap<V> {
    proof fn lemma_at(self, at: int)
        requires
            self.well_formed(),
            0 <= at < self.names@.len(),
        ensures
            self@.contains_key(texts(self.names@)[at]),
            self@[texts(self.names@)[at]] == self.values@[at]@,
    {
        let list = texts(self.names@);
        lemma_ascending_has_no_duplicates(list);
        assert(list.contains(list[at]));
        assert(list.index_of(list[at]) == at);
    }

    proof fn lemma_dom(self)
        requires
            self.well_formed(),
        ensures
            self@.dom() == texts(self.names@).to_set(),
    {
        assert(self@.dom() =~= texts(self.names@).to_set());
    }

    /// The map without entries.
    pub fn new() -> (map: NameMap<V>)
        ensures
            map@ == Map::<Text, V::V>::empty(),
    {
        let map = NameMap { names: Vec::new(), values: Vec::new() };
        assert(map@ =~= Map::<Text, V::V>::empty());
        map
    }

    /// The names that the map has an entry for, in ascending order.
    pub fn names(&self) -> (names: &Vec<String>)
        ensures
            texts(names@) == sorted(self@.dom()),
            ascending(texts(names@)),
            texts(names@).to_set() == self@.dom(),
            self@.dom().finite(),
    {
        proof {
            use_type_invariant(self);
            self.lemma_dom();
            vstd::seq_lib::seq_to_set_is_finite(texts(self.names@));
            lemma_sorted_of_ascending(texts(self.names@));
        }
        &self.names
    }

    /// The value of the entry whose name is the one at `at` in ascending order.
    pub fn value_at(&self, at: usize) -> (value: &V)
        requires
            at < sorted(self@.dom()).len(),
        ensures
            self@.contains_key(sorted(self@.dom())[at as int]),
            value@ == self@[sorted(self@.dom())[at as int]],
    {
        proof {
            use_type_invariant(self);
            self.lemma_dom();
            lemma_sorted_of_ascending(texts(self.names@));
            self.lemma_at(at as int);
        }
        &self.values[at]
    }

    /// The value of the entry for `name`.
    pub fn get(&self, name: &str) -> (value: Option<&V>)
        ensures
            match value {
                Some(v) => self@.contains_key(name@) && v@ == self@[name@],
                None => !self@.contains_key(name@),
            },
    {
        proof {
            use_type_invariant(self);
        }
        match find(&self.names, name) {
            Ok(at) => {
                proof {
                    self.lemma_at(at as int);
                }
                Some(&self.values[at])
            },
            Err(at) => {
                proof {
                    lemma_not_in_list(texts(self.names@), name@, at as int);
                }
                None
            },
        }
    }

    /// Whether the map has an entry for `name`.
    pub fn contains_key(&self, name: &str) -> (has: bool)
        ensures
            has == self@.contains_key(name@),
    {
        self.get(name).is_some()
    }

    /// Makes `value` the entry for `name`.
    pub fn insert(&mut self, name: String, value: V)
        ensures
            final(self)@ == old(self)@.insert(name@, value@),
    {
        proof {
            use_type_invariant(&*self);
        }
        let mut taken = NameMap { names: Vec::new(), values: Vec::new() };
        std::mem::swap(&mut taken, self);
        let NameMap { names: mut names, values: mut values } = taken;
        let ghost list = texts(names@);
        let ghost before = values@;
        match find(&names, name.as_str()) {
            Ok(at) => {
                values.set(at, value);
                *self = NameMap { names, values };
                proof {
                    lemma_ascending_has_no_duplicates(list);
                    assert(list.contains(name@));
                    assert(list.index_of(name@) == at);
                    assert(self@ =~= old(self)@.insert(name@, value@));
                }
            },
            Err(at) => {
                proof {
                    lemma_insert_in_place(list, name@, at as int);
                }
                names.insert(at, name);
                values.insert(at, value);
                assert(texts(names@) == list.insert(at as int, name@));
                *self = NameMap { names, values };
                proof {
                    let longer = texts(self.names@);
                    lemma_ascending_has_no_duplicates(list);
                    lemma_ascending_has_no_duplicates(longer);
                    assert(longer.to_set() == list.to_set().insert(name@));
                    assert forall|n: Text| self@.contains_key(n) == old(self)@.insert(
                        name@,
                        value@,
                    ).contains_key(n) by {
                        assert(longer.to_set().contains(n) == list.to_set().insert(
                            name@,
                        ).contains(n));
                    }
                    assert forall|n: Text| self@.contains_key(n) implies self@[n] == old(
                        self,
                    )@.insert(name@, value@)[n] by {
                        let k = longer.index_of(n);
                        assert(longer[k] == n);
                        assert(longer[at as int] == name@);
                        assert(self@[n] == self.values@[k]@);
                        assert(k != at ==> n != name@);
                        if k < at {
                            assert(list[k] == n);
                            assert(list.index_of(n) == k);
                            assert(old(self)@[n] == before[k]@);
                        } else if k > at {
                            assert(list[k - 1] == n);
                            assert(list.index_of(n) == k - 1);
                            assert(old(self)@[n] == before[k - 1]@);
                        }
                    }
                    assert(self@ =~= old(self)@.insert(name@, value@));
                }
            },
        }
    }
}

/// Law: of two names the one with the smaller code point comes first where they
/// first differ, and a name comes before those that it is the start of.
pub proof fn law_first_difference_decides(a: Text, b: Text, at: int)
    requires
        0 <= at <= a.len(),
        at < b.len(),
        a.take(at) == b.take(at),
        at < a.len() ==> a[at] != b[at],
    ensures
        text_lt(a, b) <==> (at == a.len() || a[at] < b[at]),
    decreases at,
{
    if at > 0 {
        assert(a.take(at)[0] == a[0] && b.take(at)[0] == b[0]);
        assert(a.skip(1).take(at - 1) == a.take(at).skip(1));
        assert(b.skip(1).take(at - 1) == b.take(at).skip(1));
        law_first_difference_decides(a.skip(1), b.skip(1), at - 1);
    }
}

/// Law: a name compares as less, equal or greater where it comes before the other, is
/// the other, or comes after it.
pub proof fn law_comparison(a: Text, b: Text)
    ensures
        text_ordering(a, b) == Ordering::Less <==> text_lt(a, b),
        text_ordering(a, b) == Ordering::Equal <==> a == b,
        text_ordering(a, b) == Ordering::Greater <==> text_lt(b, a),
{
    law_order_is_total(a, b);
    law_order_is_total(b, a);
}

} // verus!
