//! How often a dependency is asked for, and which are asked for often enough to
//! stand in a common layer.

use crate::names::{
    ascending, lemma_sorted_exists, lemma_sorted_of_ascending, sorted, text_lt, NameMap, NameSet,
};
use crate::plan::{Package, PackageView, Packages};
use crate::text::{copy, texts, Text};
use vstd::prelude::*;

verus! {

/// records how often a package is a dependency
pub type PackagePopularity = NameMap<u32>;

/// How many times `name` stands in `list`.
pub open spec fn times(list: Seq<Text>, name: Text) -> nat
    decreases list.len(),
{
    if list.len() == 0 {
        0
    } else {
        times(list.drop_last(), name) + (if list.last() == name {
            1nat
        } else {
            0nat
        })
    }
}

/// How often `name` was counted.
pub open spec fn counted(popularity: Map<Text, u32>, name: Text) -> nat {
    if popularity.contains_key(name) {
        popularity[name] as nat
    } else {
        0
    }
}

/// The counts after each name of `list` was counted once more for each time that
/// it stands there.
pub open spec fn tallied(popularity: Map<Text, u32>, list: Seq<Text>) -> Map<Text, u32> {
    Map::new(
        |name: Text| popularity.contains_key(name) || list.contains(name),
        |name: Text| (counted(popularity, name) + times(list, name)) as u32,
    )
}

/// Whether no count grows beyond what a `u32` holds.
pub open spec fn countable(popularity: Map<Text, u32>, list: Seq<Text>) -> bool {
    forall|name: Text| #[trigger] times(list, name) + counted(popularity, name) <= u32::MAX
}

proof fn lemma_times_of_sum(a: Seq<Text>, b: Seq<Text>, name: Text)
    ensures
        times(a + b, name) == times(a, name) + times(b, name),
    decreases b.len(),
{
    if b.len() == 0 {
        assert(a + b == a);
    } else {
        assert((a + b).drop_last() == a + b.drop_last());
        lemma_times_of_sum(a, b.drop_last(), name);
    }
}

proof fn lemma_times_of_prefix(list: Seq<Text>, i: int, name: Text)
    requires
        0 <= i <= list.len(),
    ensures
        times(list.take(i), name) <= times(list, name),
{
    assert(list == list.take(i) + list.skip(i));
    lemma_times_of_sum(list.take(i), list.skip(i), name);
}

proof fn lemma_tallied_twice(popularity: Map<Text, u32>, a: Seq<Text>, b: Seq<Text>)
    requires
        countable(popularity, a + b),
    ensures
        countable(popularity, a),
        countable(tallied(popularity, a), b),
        tallied(tallied(popularity, a), b) == tallied(popularity, a + b),
{
    let first = tallied(popularity, a);
    assert forall|name: Text| #[trigger] times(a, name) + counted(popularity, name) <= u32::MAX by {
        lemma_times_of_sum(a, b, name);
        assert(times(a + b, name) + counted(popularity, name) <= u32::MAX);
    }
    assert forall|name: Text| counted(first, name) == counted(popularity, name) + times(a, name) by {
        lemma_times_of_missing(a, name);
        assert(times(a, name) + counted(popularity, name) <= u32::MAX);
    }
    assert forall|name: Text| #[trigger] times(b, name) + counted(first, name) <= u32::MAX by {
        lemma_times_of_sum(a, b, name);
        assert(times(a + b, name) + counted(popularity, name) <= u32::MAX);
    }
    assert forall|name: Text| (a + b).contains(name) <==> a.contains(name) || b.contains(name) by {
        if a.contains(name) {
            let k = choose|k: int| 0 <= k < a.len() && a[k] == name;
            assert((a + b)[k] == name);
        }
        if b.contains(name) {
            let k = choose|k: int| 0 <= k < b.len() && b[k] == name;
            assert((a + b)[a.len() + k] == name);
        }
        if (a + b).contains(name) {
            let k = choose|k: int| 0 <= k < (a + b).len() && (a + b)[k] == name;
            if k < a.len() {
                assert(a[k] == name);
            } else {
                assert(b[k - a.len()] == name);
            }
        }
    }
    assert forall|name: Text| tallied(popularity, a + b).contains_key(name) implies tallied(first, b)[name]
        == tallied(popularity, a + b)[name] by {
        lemma_times_of_sum(a, b, name);
    }
    assert(tallied(first, b) =~= tallied(popularity, a + b));
}

proof fn lemma_times_of_missing(list: Seq<Text>, name: Text)
    ensures
        times(list, name) > 0 <==> list.contains(name),
    decreases list.len(),
{
    if list.len() > 0 {
        lemma_times_of_missing(list.drop_last(), name);
        if list.drop_last().contains(name) {
            let k = choose|k: int| 0 <= k < list.drop_last().len() && list.drop_last()[k] == name;
            assert(list[k] == name);
        }
        if list.last() == name {
            assert(list[list.len() - 1] == name);
        }
        if list.contains(name) && list.last() != name {
            let k = choose|k: int| 0 <= k < list.len() && list[k] == name;
            assert(list.drop_last()[k] == name);
        }
    }
}

/// Counts each dependency of `dependencies` once more for each time that it
/// stands there.
pub fn tally(popularity: &mut PackagePopularity, dependencies: &Vec<String>)
    requires
        countable(old(popularity)@, texts(dependencies@)),
    ensures
        final(popularity)@ == tallied(old(popularity)@, texts(dependencies@)),
{
    let ghost before = popularity@;
    let ghost all = texts(dependencies@);
    let mut i: usize = 0;
    assert(popularity@ =~= tallied(before, all.take(0)));
    while i < dependencies.len()
        invariant
            i <= dependencies.len(),
            all == texts(dependencies@),
            countable(before, all),
            popularity@ == tallied(before, all.take(i as int)),
        decreases dependencies.len() - i,
    {
        let name = dependencies[i].as_str();
        proof {
            assert(all.take(i as int) + seq![name@] == all.take(i + 1));
            assert forall|n: Text| #[trigger] times(all.take(i + 1), n) + counted(before, n)
                <= u32::MAX by {
                lemma_times_of_prefix(all, i + 1, n);
                assert(times(all, n) + counted(before, n) <= u32::MAX);
            }
            lemma_tallied_twice(before, all.take(i as int), seq![name@]);
            reveal_with_fuel(times, 2);
            assert(seq![name@].drop_last() == Seq::<Text>::empty());
            assert(times(seq![name@], name@) == 1);
            assert(times(seq![name@], name@) + counted(popularity@, name@) <= u32::MAX);
        }
        let count: u32 = match popularity.get(name) {
            Some(count) => *count + 1,
            None => 1,
        };
        proof {
            let now = popularity@;
            let one = seq![name@];
            assert(one[0] == name@);
            assert(one.contains(name@));
            assert forall|n: Text| n != name@ implies times(one, n) == 0 && !one.contains(n) by {
                assert(one.last() != n);
            }
            assert(now.insert(name@, count) =~= tallied(now, one));
        }
        popularity.insert(copy(name), count);
        i += 1;
    }
    assert(all.take(dependencies.len() as int) == all);
}

/// What the packages that were found amount to.
pub struct Survey {
    pub local_packages: Packages,
    pub build_popularity: PackagePopularity,
    pub exec_popularity: PackagePopularity,
}

/// The packages found, in the order in which they were found.
pub open spec fn found_view(found: Seq<(String, Package)>) -> Seq<(Text, PackageView)> {
    found.map_values(|entry: (String, Package)| (entry.0@, entry.1@))
}

/// The packages by name. Where two have one name, the one found last counts.
pub open spec fn packages_of(found: Seq<(Text, PackageView)>) -> Map<Text, PackageView>
    decreases found.len(),
{
    if found.len() == 0 {
        Map::empty()
    } else {
        packages_of(found.drop_last()).insert(found.last().0, found.last().1)
    }
}

/// All build dependencies of all packages.
pub open spec fn all_build(found: Seq<(Text, PackageView)>) -> Seq<Text>
    decreases found.len(),
{
    if found.len() == 0 {
        Seq::empty()
    } else {
        all_build(found.drop_last()) + found.last().1.build
    }
}

/// All run-time dependencies of all packages.
pub open spec fn all_run(found: Seq<(Text, PackageView)>) -> Seq<Text>
    decreases found.len(),
{
    if found.len() == 0 {
        Seq::empty()
    } else {
        all_run(found.drop_last()) + found.last().1.run
    }
}

proof fn lemma_all_of_prefix(found: Seq<(Text, PackageView)>, i: int)
    requires
        0 <= i <= found.len(),
        countable(Map::empty(), all_build(found)),
        countable(Map::empty(), all_run(found)),
    ensures
        countable(Map::empty(), all_build(found.take(i))),
        countable(Map::empty(), all_run(found.take(i))),
    decreases found.len(),
{
    if i == found.len() {
        assert(found.take(i) == found);
    } else {
        lemma_tallied_twice(Map::empty(), all_build(found.drop_last()), found.last().1.build);
        lemma_tallied_twice(Map::empty(), all_run(found.drop_last()), found.last().1.run);
        assert(found.drop_last().take(i) == found.take(i));
        lemma_all_of_prefix(found.drop_last(), i);
    }
}

impl Survey {
    /// A survey of no packages.
    pub fn new() -> (survey: Survey)
        ensures
            survey.local_packages@ == Map::<Text, PackageView>::empty(),
            survey.build_popularity@ == Map::<Text, u32>::empty(),
            survey.exec_popularity@ == Map::<Text, u32>::empty(),
    {
        Survey {
            local_packages: NameMap::new(),
            build_popularity: NameMap::new(),
            exec_popularity: NameMap::new(),
        }
    }

    /// Adds one more package.
    pub fn record(&mut self, name: String, package: Package)
        requires
            countable(old(self).build_popularity@, package@.build),
            countable(old(self).exec_popularity@, package@.run),
        ensures
            final(self).local_packages@ == old(self).local_packages@.insert(name@, package@),
            final(self).build_popularity@ == tallied(
                old(self).build_popularity@,
                package@.build,
            ),
            final(self).exec_popularity@ == tallied(old(self).exec_popularity@, package@.run),
    {
        tally(&mut self.build_popularity, &package.build);
        tally(&mut self.exec_popularity, &package.run);
        self.local_packages.insert(name, package);
    }
}

/// Surveys the packages found: the packages by name, and how often each
/// dependency is asked for when they are built and when they are run.
pub fn survey(found: Vec<(String, Package)>) -> (survey: Survey)
    requires
        countable(Map::empty(), all_build(found_view(found@))),
        countable(Map::empty(), all_run(found_view(found@))),
    ensures
        survey.local_packages@ == packages_of(found_view(found@)),
        survey.build_popularity@ == tallied(Map::empty(), all_build(found_view(found@))),
        survey.exec_popularity@ == tallied(Map::empty(), all_run(found_view(found@))),
{
    let mut survey = Survey::new();
    let ghost all = found_view(found@);
    proof {
        assert(all.take(0) == Seq::<(Text, PackageView)>::empty());
        assert(survey.build_popularity@ =~= tallied(Map::empty(), all_build(all.take(0))));
        assert(survey.exec_popularity@ =~= tallied(Map::empty(), all_run(all.take(0))));
    }
    for entry in it: found
        invariant
            all == found_view(it.seq()),
            countable(Map::empty(), all_build(all)),
            countable(Map::empty(), all_run(all)),
            survey.local_packages@ == packages_of(all.take(it.index() as int)),
            survey.build_popularity@ == tallied(
                Map::empty(),
                all_build(all.take(it.index() as int)),
            ),
            survey.exec_popularity@ == tallied(Map::empty(), all_run(all.take(it.index() as int))),
    {
        let (name, package) = entry;
        proof {
            let i = it.index() as int;
            let before = all.take(i);
            let after = all.take(i + 1);
            assert(after.drop_last() == before);
            assert(after.last() == (name@, package@));
            lemma_all_of_prefix(all, i + 1);
            lemma_tallied_twice(Map::empty(), all_build(before), package@.build);
            lemma_tallied_twice(Map::empty(), all_run(before), package@.run);
        }
        survey.record(name, package);
    }
    assert(all.take(all.len() as int) == all);
    survey
}

/// The names by how often they were counted. This allows constructing a layer
/// that only consists of a certain popularity or higher.
#[derive(Debug)]
pub struct PopularityIndex {
    counts: Vec<u32>,
    names: Vec<Vec<String>>,
}

/// Whether each count comes before the larger ones.
pub open spec fn increasing(counts: Seq<u32>) -> bool {
    forall|i: int, j: int| 0 <= i < j < counts.len() ==> counts[i] < counts[j]
}

impl View for PopularityIndex {
    type V = Map<u32, Seq<Text>>;

    closed spec fn view(&self) -> Map<u32, Seq<Text>> {
        Map::new(
            |count: u32| self.counts@.contains(count),
            |count: u32| texts(self.names@[self.counts@.index_of(count)]@),
        )
    }
}

impl PopularityIndex {
    #[verifier::type_invariant]
    spec fn well_formed(self) -> bool {
        &&& increasing(self.counts@)
        &&& self.counts@.len() == self.names@.len()
    }

    proof fn lemma_at(self, at: int)
        requires
            self.well_formed(),
            0 <= at < self.counts@.len(),
        ensures
            self@.contains_key(self.counts@[at]),
            self@[self.counts@[at]] == texts(self.names@[at]@),
    {
        let count = self.counts@[at];
        assert(self.counts@.contains(count));
        let k = self.counts@.index_of(count);
        assert(self.counts@[k] == count);
        assert(k == at) by {
            if k < at {
                assert(self.counts@[k] < self.counts@[at]);
            } else if at < k {
                assert(self.counts@[at] < self.counts@[k]);
            }
        }
    }

    /// The index without names.
    pub fn new() -> (index: PopularityIndex)
        ensures
            index@ == Map::<u32, Seq<Text>>::empty(),
    {
        let index = PopularityIndex { counts: Vec::new(), names: Vec::new() };
        assert(index@ =~= Map::<u32, Seq<Text>>::empty());
        index
    }

    /// The counts that some name has, in increasing order.
    pub fn counts(&self) -> (counts: &Vec<u32>)
        ensures
            increasing(counts@),
            counts@.to_set() == self@.dom(),
    {
        proof {
            use_type_invariant(self);
            assert(self.counts@.to_set() =~= self@.dom());
        }
        &self.counts
    }

    /// The names that were counted `count` times.
    pub fn names(&self, count: u32) -> (names: Option<&Vec<String>>)
        ensures
            match names {
                Some(list) => self@.contains_key(count) && texts(list@) == self@[count],
                None => !self@.contains_key(count),
            },
    {
        proof {
            use_type_invariant(self);
        }
        let mut i: usize = 0;
        while i < self.counts.len()
            invariant
                i <= self.counts.len(),
                self.well_formed(),
                forall|k: int| 0 <= k < i ==> self.counts@[k] != count,
            decreases self.counts.len() - i,
        {
            if self.counts[i] == count {
                proof {
                    self.lemma_at(i as int);
                }
                return Some(&self.names[i]);
            }
            i += 1;
        }
        None
    }

    /// Puts `name` behind the names that were counted `count` times.
    fn file(&mut self, count: u32, name: String)
        ensures
            final(self)@ == old(self)@.insert(
                count,
                (if old(self)@.contains_key(count) {
                    old(self)@[count]
                } else {
                    Seq::empty()
                }).push(name@),
            ),
    {
        proof {
            use_type_invariant(&*self);
        }
        let ghost before = *self;
        let mut taken = PopularityIndex { counts: Vec::new(), names: Vec::new() };
        std::mem::swap(&mut taken, self);
        let PopularityIndex { counts: mut counts, names: mut names } = taken;
        let mut at: usize = 0;
        while at < counts.len() && counts[at] < count
            invariant
                at <= counts.len(),
                forall|k: int| 0 <= k < at ==> counts@[k] < count,
            decreases counts.len() - at,
        {
            at += 1;
        }
        let ghost expected = before@.insert(
            count,
            (if before@.contains_key(count) {
                before@[count]
            } else {
                Seq::empty()
            }).push(name@),
        );
        if at < counts.len() && counts[at] == count {
            names[at].push(name);
            *self = PopularityIndex { counts, names };
            proof {
                before.lemma_at(at as int);
                assert(texts(self.names@[at as int]@) == texts(before.names@[at as int]@).push(
                    name@,
                ));
                assert forall|c: u32| self@.contains_key(c) implies self@[c] == expected[c] by {
                    let k = self.counts@.index_of(c);
                    assert(self.counts@[k] == c);
                    self.lemma_at(k);
                    before.lemma_at(k);
                    self.lemma_at(at as int);
                }
                assert(self@ =~= expected);
            }
        } else {
            let mut list: Vec<String> = Vec::new();
            list.push(name);
            counts.insert(at, count);
            names.insert(at, list);
            *self = PopularityIndex { counts, names };
            proof {
                assert(texts(list@) == Seq::<Text>::empty().push(name@));
                assert(!before.counts@.contains(count)) by {
                    if before.counts@.contains(count) {
                        let k = choose|k: int|
                            0 <= k < before.counts@.len() && before.counts@[k] == count;
                        assert(before.counts@[at as int] <= before.counts@[k]);
                    }
                }
                assert forall|c: u32| self@.contains_key(c) == expected.contains_key(c) by {
                    if before.counts@.contains(c) {
                        let k = choose|k: int|
                            0 <= k < before.counts@.len() && before.counts@[k] == c;
                        if k < at {
                            assert(self.counts@[k] == c);
                        } else {
                            assert(self.counts@[k + 1] == c);
                        }
                    }
                    assert(self.counts@[at as int] == count);
                    if self.counts@.contains(c) && c != count {
                        let k = choose|k: int|
                            0 <= k < self.counts@.len() && self.counts@[k] == c;
                        if k < at {
                            assert(before.counts@[k] == c);
                        } else {
                            assert(before.counts@[k - 1] == c);
                        }
                    }
                }
                assert forall|c: u32| self@.contains_key(c) implies self@[c] == expected[c] by {
                    let k = self.counts@.index_of(c);
                    assert(self.counts@[k] == c);
                    self.lemma_at(k);
                    if k < at {
                        before.lemma_at(k);
                        assert(c != count);
                    } else if k > at {
                        before.lemma_at(k - 1);
                        assert(self.counts@[at as int] < self.counts@[k]);
                    }
                }
                assert(self@ =~= expected);
            }
        }
    }
}

/// The names that are no local package and were counted `count` times.
pub open spec fn level(popularity: Map<Text, u32>, local: Set<Text>, count: u32) -> Set<Text> {
    Set::new(
        |name: Text|
            popularity.contains_key(name) && !local.contains(name) && popularity[name] == count,
    )
}

/// The names that are no local package, by how often they were counted, each
/// list in ascending order.
pub open spec fn by_popularity(popularity: Map<Text, u32>, local: Set<Text>) -> Map<u32, Seq<Text>> {
    Map::new(
        |count: u32| level(popularity, local, count) != Set::<Text>::empty(),
        |count: u32| sorted(level(popularity, local, count)),
    )
}

/// Those of `names` that are in `level(popularity, local, count)`, in order.
spec fn listed_level(
    names: Seq<Text>,
    popularity: Map<Text, u32>,
    local: Set<Text>,
    count: u32,
) -> Seq<Text>
    decreases names.len(),
{
    if names.len() == 0 {
        Seq::empty()
    } else {
        let before = listed_level(names.drop_last(), popularity, local, count);
        if level(popularity, local, count).contains(names.last()) {
            before.push(names.last())
        } else {
            before
        }
    }
}

proof fn lemma_listed_level(
    names: Seq<Text>,
    popularity: Map<Text, u32>,
    local: Set<Text>,
    count: u32,
)
    requires
        ascending(names),
    ensures
        ascending(listed_level(names, popularity, local, count)),
        forall|n: Text| #[trigger]
            listed_level(names, popularity, local, count).contains(n) <==> names.contains(n)
                && level(popularity, local, count).contains(n),
    decreases names.len(),
{
    let listed = listed_level(names, popularity, local, count);
    if names.len() > 0 {
        let front = names.drop_last();
        let before = listed_level(front, popularity, local, count);
        lemma_listed_level(front, popularity, local, count);
        assert forall|n: Text| #[trigger] listed.contains(n) <==> names.contains(n) && level(
            popularity,
            local,
            count,
        ).contains(n) by {
            if names.contains(n) && n != names.last() {
                let k = choose|k: int| 0 <= k < names.len() && names[k] == n;
                assert(front[k] == n);
            }
            if front.contains(n) {
                let k = choose|k: int| 0 <= k < front.len() && front[k] == n;
                assert(names[k] == n);
            }
            assert(names[names.len() - 1] == names.last());
            if before.contains(n) {
                let k = choose|k: int| 0 <= k < before.len() && before[k] == n;
                assert(listed[k] == n);
            }
            if listed.contains(n) && !before.contains(n) {
                let k = choose|k: int| 0 <= k < listed.len() && listed[k] == n;
                if k < before.len() {
                    assert(before[k] == n);
                }
            }
            if listed.len() > before.len() {
                assert(listed[before.len() as int] == names.last());
            }
        }
        if listed.len() > before.len() {
            assert forall|i: int, j: int| 0 <= i < j < listed.len() implies text_lt(
                listed[i],
                listed[j],
            ) by {
                if j == before.len() {
                    assert(before.contains(before[i]));
                    assert(front.contains(before[i]));
                    let k = choose|k: int| 0 <= k < front.len() && front[k] == before[i];
                    assert(names[k] == before[i]);
                } else {
                    assert(listed[i] == before[i] && listed[j] == before[j]);
                }
            }
        }
    }
}

/// Inverts name and count, so that ranges of popularity can be told, and leaves
/// out the local packages.
pub fn invert(popularity: &PackagePopularity, local_packages: &Packages) -> (index:
    PopularityIndex)
    ensures
        index@ == by_popularity(popularity@, local_packages@.dom()),
        popularity@.dom().finite(),
{
    let mut index = PopularityIndex::new();
    let names = popularity.names();
    let ghost all = texts(names@);
    let ghost local = local_packages@.dom();
    let mut i: usize = 0;
    while i < names.len()
        invariant
            i <= names.len(),
            all == texts(names@),
            all == sorted(popularity@.dom()),
            local == local_packages@.dom(),
            forall|count: u32| #[trigger]
                index@.contains_key(count) <==> listed_level(
                    all.take(i as int),
                    popularity@,
                    local,
                    count,
                ).len() > 0,
            forall|count: u32| #[trigger]
                index@.contains_key(count) ==> index@[count] == listed_level(
                    all.take(i as int),
                    popularity@,
                    local,
                    count,
                ),
        decreases names.len() - i,
    {
        let name = names[i].as_str();
        let count: u32 = *popularity.value_at(i);
        proof {
            assert(all.take(i + 1).drop_last() == all.take(i as int));
            assert(all.take(i + 1).last() == name@);
        }
        let ghost before = index@;
        if !local_packages.contains_key(name) {
            index.file(count, copy(name));
        }
        proof {
            assert forall|c: u32| #[trigger]
                index@.contains_key(c) <==> listed_level(
                    all.take(i + 1),
                    popularity@,
                    local,
                    c,
                ).len() > 0 by {
                assert(before.contains_key(c) <==> listed_level(
                    all.take(i as int),
                    popularity@,
                    local,
                    c,
                ).len() > 0);
            }
            assert forall|c: u32| #[trigger] index@.contains_key(c) implies index@[c]
                == listed_level(all.take(i + 1), popularity@, local, c) by {
                assert(before.contains_key(c) ==> before[c] == listed_level(
                    all.take(i as int),
                    popularity@,
                    local,
                    c,
                ));
                if !before.contains_key(c) {
                    assert(listed_level(all.take(i as int), popularity@, local, c)
                        == Seq::<Text>::empty());
                }
            }
        }
        i += 1;
    }
    proof {
        assert(all.take(names.len() as int) == all);
        assert forall|c: u32| listed_level(all, popularity@, local, c).to_set() == level(
            popularity@,
            local,
            c,
        ) by {
            lemma_listed_level(all, popularity@, local, c);
            assert forall|n: Text| level(popularity@, local, c).contains(n) implies all.contains(n) by {
                assert(all.to_set().contains(n));
            }
            assert(listed_level(all, popularity@, local, c).to_set() =~= level(
                popularity@,
                local,
                c,
            ));
        }
        assert forall|c: u32| #[trigger] index@.contains_key(c) <==> level(popularity@, local, c)
            != Set::<Text>::empty() by {
            let listed = listed_level(all, popularity@, local, c);
            assert(listed.to_set() == level(popularity@, local, c));
            if listed.len() > 0 {
                assert(listed.contains(listed[0]));
                assert(listed.to_set().contains(listed[0]));
            } else {
                assert(listed.to_set() =~= Set::<Text>::empty());
            }
        }
        assert forall|c: u32| #[trigger] index@.contains_key(c) implies index@[c] == sorted(
            level(popularity@, local, c),
        ) by {
            lemma_listed_level(all, popularity@, local, c);
            lemma_sorted_of_ascending(listed_level(all, popularity@, local, c));
            assert(listed_level(all, popularity@, local, c).to_set() == level(
                popularity@,
                local,
                c,
            ));
        }
        assert(index@ =~= by_popularity(popularity@, local));
    }
    index
}

/// Whether the index has a count of at least `minimum`.
pub open spec fn reaches(index: Map<u32, Seq<Text>>, minimum: u32) -> bool {
    exists|count: u32| #[trigger] index.contains_key(count) && count >= minimum
}

/// The names that the index has at counts of at least `minimum`.
pub open spec fn names_from(index: Map<u32, Seq<Text>>, minimum: u32) -> Set<Text> {
    Set::new(
        |name: Text|
            exists|count: u32| #[trigger]
                index.contains_key(count) && count >= minimum && index[count].contains(name),
    )
}

/// Makes a single layer from the most popular names: those that were counted at
/// least `minimum` times. There is none where no name was.
pub fn top_layer(index: &PopularityIndex, minimum: u32) -> (layer: Option<NameSet>)
    ensures
        match layer {
            Some(names) => reaches(index@, minimum) && names@ == names_from(index@, minimum),
            None => !reaches(index@, minimum),
        },
{
    let mut names = NameSet::new();
    let mut reached = false;
    let counts = index.counts();
    let mut i: usize = 0;
    while i < counts.len()
        invariant
            i <= counts.len(),
            counts@.to_set() == index@.dom(),
            reached <==> exists|k: int| 0 <= k < i && #[trigger] counts@[k] >= minimum,
            forall|n: Text| #[trigger]
                names@.contains(n) <==> exists|k: int|
                    0 <= k < i && #[trigger] counts@[k] >= minimum && index@[counts@[k]].contains(n),
        decreases counts.len() - i,
    {
        let count: u32 = counts[i];
        assert(counts@.to_set().contains(counts@[i as int]));
        let ghost before = names@;
        if count >= minimum {
            reached = true;
            if let Some(list) = index.names(count) {
                names = names.union(&NameSet::from_list(list));
                assert(names@ == before.union(index@[count].to_set()));
            }
        }
        proof {
            assert forall|n: Text| #[trigger]
                names@.contains(n) <==> exists|k: int|
                    0 <= k < i + 1 && #[trigger] counts@[k] >= minimum && index@[counts@[k]].contains(
                        n,
                    ) by {
                assert(before.contains(n) <==> exists|k: int|
                    0 <= k < i && #[trigger] counts@[k] >= minimum && index@[counts@[k]].contains(n));
                if exists|k: int|
                    0 <= k < i + 1 && #[trigger] counts@[k] >= minimum && index@[counts@[k]].contains(
                        n,
                    ) {
                    let k = choose|k: int|
                        0 <= k < i + 1 && #[trigger] counts@[k] >= minimum
                            && index@[counts@[k]].contains(n);
                    if k < i {
                        assert(before.contains(n));
                    }
                }
                if names@.contains(n) {
                    if before.contains(n) {
                        let k = choose|k: int|
                            0 <= k < i && #[trigger] counts@[k] >= minimum
                                && index@[counts@[k]].contains(n);
                        assert(0 <= k < i + 1 && counts@[k] >= minimum);
                    } else {
                        assert(counts@[i as int] >= minimum);
                        assert(index@[counts@[i as int]].contains(n));
                    }
                }
            }
        }
        i += 1;
    }
    proof {
        assert forall|c: u32| #[trigger] index@.contains_key(c) implies exists|k: int|
            0 <= k < counts@.len() && counts@[k] == c by {
            assert(counts@.to_set().contains(c));
        }
        if reached {
            let k = choose|k: int| 0 <= k < counts@.len() && #[trigger] counts@[k] >= minimum;
            assert(counts@.to_set().contains(counts@[k]));
            assert(index@.contains_key(counts@[k]));
        } else if reaches(index@, minimum) {
            let c = choose|c: u32| #[trigger] index@.contains_key(c) && c >= minimum;
            let k = choose|k: int| 0 <= k < counts@.len() && counts@[k] == c;
            assert(counts@[k] >= minimum);
        }
        assert forall|n: Text| names@.contains(n) <==> names_from(index@, minimum).contains(n) by {
            if names@.contains(n) {
                let k = choose|k: int|
                    0 <= k < counts@.len() && #[trigger] counts@[k] >= minimum
                        && index@[counts@[k]].contains(n);
                assert(counts@.to_set().contains(counts@[k]));
                assert(index@.contains_key(counts@[k]));
            }
            if names_from(index@, minimum).contains(n) {
                let c = choose|c: u32| #[trigger]
                    index@.contains_key(c) && c >= minimum && index@[c].contains(n);
                let k = choose|k: int| 0 <= k < counts@.len() && counts@[k] == c;
                assert(counts@[k] >= minimum);
            }
        }
        assert(names@ =~= names_from(index@, minimum));
    }
    if reached {
        Some(names)
    } else {
        None
    }
}

/// The names that are no local package and were counted at least `minimum`
/// times.
pub open spec fn popular(popularity: Map<Text, u32>, local: Set<Text>, minimum: u32) -> Set<Text> {
    Set::new(
        |name: Text|
            popularity.contains_key(name) && !local.contains(name) && popularity[name] >= minimum,
    )
}

/// Law: the top layer of counted dependencies has exactly those that are no
/// local package and were counted at least `minimum` times, and there is none
/// exactly where there are no such dependencies.
pub proof fn law_top_layer_is_the_popular_names(
    popularity: Map<Text, u32>,
    local: Set<Text>,
    minimum: u32,
)
    requires
        popularity.dom().finite(),
    ensures
        names_from(by_popularity(popularity, local), minimum) == popular(popularity, local, minimum),
        reaches(by_popularity(popularity, local), minimum) <==> popular(popularity, local, minimum)
            != Set::<Text>::empty(),
{
    let index = by_popularity(popularity, local);
    assert forall|c: u32| #[trigger] index.contains_key(c) implies index[c].to_set() == level(
        popularity,
        local,
        c,
    ) by {
        let here = level(popularity, local, c);
        assert(here.subset_of(popularity.dom()));
        vstd::set_lib::lemma_set_subset_finite(popularity.dom(), here);
        lemma_sorted_exists(here);
    }
    assert forall|n: Text| names_from(index, minimum).contains(n) <==> popular(
        popularity,
        local,
        minimum,
    ).contains(n) by {
        if names_from(index, minimum).contains(n) {
            let c = choose|c: u32| #[trigger]
                index.contains_key(c) && c >= minimum && index[c].contains(n);
            assert(index[c].to_set().contains(n));
            assert(level(popularity, local, c).contains(n));
        }
        if popular(popularity, local, minimum).contains(n) {
            let c = popularity[n];
            assert(level(popularity, local, c).contains(n));
            assert(index.contains_key(c));
            assert(index[c].to_set().contains(n));
        }
    }
    assert(names_from(index, minimum) =~= popular(popularity, local, minimum));
    if reaches(index, minimum) {
        let c = choose|c: u32| #[trigger] index.contains_key(c) && c >= minimum;
        let n = choose|n: Text| level(popularity, local, c).contains(n);
        assert(exists|n: Text| level(popularity, local, c).contains(n)) by {
            if forall|n: Text| !level(popularity, local, c).contains(n) {
                assert(level(popularity, local, c) =~= Set::<Text>::empty());
            }
        }
        assert(popular(popularity, local, minimum).contains(n));
    }
    if popular(popularity, local, minimum) != Set::<Text>::empty() {
        if forall|n: Text| !popular(popularity, local, minimum).contains(n) {
            assert(popular(popularity, local, minimum) =~= Set::<Text>::empty());
        }
        let n = choose|n: Text| popular(popularity, local, minimum).contains(n);
        assert(level(popularity, local, popularity[n]).contains(n));
        assert(index.contains_key(popularity[n]));
    }
}

/// The dependencies of all packages are those of one package and those of the
/// others.
proof fn lemma_times_without(found: Seq<(Text, PackageView)>, at: int, name: Text)
    requires
        0 <= at < found.len(),
    ensures
        times(all_build(found), name) == times(all_build(found.remove(at)), name) + times(
            found[at].1.build,
            name,
        ),
        times(all_run(found), name) == times(all_run(found.remove(at)), name) + times(
            found[at].1.run,
            name,
        ),
    decreases found.len(),
{
    let front = found.drop_last();
    let rest = found.remove(at);
    lemma_times_of_sum(all_build(front), found.last().1.build, name);
    lemma_times_of_sum(all_run(front), found.last().1.run, name);
    if at == found.len() - 1 {
        assert(rest == front);
    } else {
        assert(rest.drop_last() == front.remove(at));
        assert(rest.last() == found.last());
        lemma_times_without(front, at, name);
        lemma_times_of_sum(all_build(front.remove(at)), found.last().1.build, name);
        lemma_times_of_sum(all_run(front.remove(at)), found.last().1.run, name);
    }
}

/// The same packages in another order ask for each dependency as often.
proof fn lemma_times_in_any_order(
    found: Seq<(Text, PackageView)>,
    other: Seq<(Text, PackageView)>,
    name: Text,
)
    requires
        found.to_multiset() == other.to_multiset(),
    ensures
        times(all_build(found), name) == times(all_build(other), name),
        times(all_run(found), name) == times(all_run(other), name),
    decreases found.len(),
{
    broadcast use vstd::seq_lib::group_to_multiset_ensures;

    assert(found.to_multiset().len() == found.len());
    assert(other.to_multiset().len() == other.len());
    if found.len() > 0 {
        let last = found.last();
        assert(found.contains(last));
        assert(found.to_multiset().contains(last));
        assert(other.to_multiset().contains(last));
        assert(other.contains(last));
        let at = choose|at: int| 0 <= at < other.len() && other[at] == last;
        let end = found.len() - 1;
        assert(found.remove(end) == found.drop_last());
        assert(found.drop_last().to_multiset() =~= other.remove(at).to_multiset());
        lemma_times_in_any_order(found.drop_last(), other.remove(at), name);
        lemma_times_without(found, end, name);
        lemma_times_without(other, at, name);
    }
}

/// Whether no two of the packages have one name.
pub open spec fn names_differ(found: Seq<(Text, PackageView)>) -> bool {
    forall|i: int, j: int| 0 <= i < j < found.len() ==> found[i].0 != found[j].0
}

/// Where no two packages have one name, each is found under its name.
proof fn lemma_packages_of(found: Seq<(Text, PackageView)>)
    requires
        names_differ(found),
    ensures
        forall|i: int| #![trigger found[i]]
            0 <= i < found.len() ==> packages_of(found).contains_key(found[i].0)
                && packages_of(found)[found[i].0] == found[i].1,
        forall|name: Text| #[trigger]
            packages_of(found).contains_key(name) ==> found.contains(
                (name, packages_of(found)[name]),
            ),
    decreases found.len(),
{
    if found.len() > 0 {
        let front = found.drop_last();
        lemma_packages_of(front);
        assert forall|i: int| #![trigger found[i]] 0 <= i < found.len() implies packages_of(
            found,
        ).contains_key(found[i].0) && packages_of(found)[found[i].0] == found[i].1 by {
            if i < front.len() {
                assert(front[i] == found[i]);
                assert(found[i].0 != found[found.len() - 1].0);
            }
        }
        assert forall|name: Text| #[trigger]
            packages_of(found).contains_key(name) implies found.contains(
            (name, packages_of(found)[name]),
        ) by {
            if name == found.last().0 {
                assert(found[found.len() - 1] == (name, packages_of(found)[name]));
            } else {
                assert(packages_of(front).contains_key(name));
                let k = choose|k: int|
                    0 <= k < front.len() && front[k] == (name, packages_of(front)[name]);
                assert(found[k] == (name, packages_of(found)[name]));
            }
        }
    }
}

/// Law: where no two packages have one name, the survey does not depend on the
/// order in which they were found.
pub proof fn law_survey_in_any_order(
    found: Seq<(Text, PackageView)>,
    other: Seq<(Text, PackageView)>,
)
    requires
        found.to_multiset() == other.to_multiset(),
        names_differ(found),
    ensures
        packages_of(found) == packages_of(other),
        tallied(Map::empty(), all_build(found)) == tallied(Map::empty(), all_build(other)),
        tallied(Map::empty(), all_run(found)) == tallied(Map::empty(), all_run(other)),
{
    broadcast use vstd::seq_lib::group_to_multiset_ensures;

    assert forall|name: Text| all_build(found).contains(name) <==> all_build(other).contains(
        name,
    ) by {
        lemma_times_in_any_order(found, other, name);
        lemma_times_of_missing(all_build(found), name);
        lemma_times_of_missing(all_build(other), name);
    }
    assert forall|name: Text| all_run(found).contains(name) <==> all_run(other).contains(name) by {
        lemma_times_in_any_order(found, other, name);
        lemma_times_of_missing(all_run(found), name);
        lemma_times_of_missing(all_run(other), name);
    }
    let none = Map::<Text, u32>::empty();
    assert forall|name: Text|
        tallied(none, all_build(found)).contains_key(name) implies tallied(
        none,
        all_build(found),
    )[name] == tallied(none, all_build(other))[name] by {
        lemma_times_in_any_order(found, other, name);
    }
    assert forall|name: Text| tallied(none, all_run(found)).contains_key(name) implies tallied(
        none,
        all_run(found),
    )[name] == tallied(none, all_run(other))[name] by {
        lemma_times_in_any_order(found, other, name);
    }
    assert(tallied(none, all_build(found)) =~= tallied(none, all_build(other)));
    assert(tallied(none, all_run(found)) =~= tallied(none, all_run(other)));
    assert forall|entry: (Text, PackageView)| found.contains(entry) <==> other.contains(entry) by {
        assert(found.to_multiset().contains(entry) <==> other.to_multiset().contains(entry));
        assert(found.contains(entry) <==> found.to_multiset().count(entry) > 0);
        assert(other.contains(entry) <==> other.to_multiset().count(entry) > 0);
    }
    assert(found.no_duplicates());
    found.lemma_multiset_has_no_duplicates();
    other.lemma_multiset_has_no_duplicates_conv();
    assert forall|i: int, j: int| 0 <= i < j < other.len() implies other[i].0 != other[j].0 by {
        assert(other.contains(other[i]) && other.contains(other[j]));
        let i_found = choose|k: int| 0 <= k < found.len() && found[k] == other[i];
        let j_found = choose|k: int| 0 <= k < found.len() && found[k] == other[j];
        assert(other[i] != other[j]);
        assert(i_found < j_found || j_found < i_found);
    }
    lemma_packages_of(found);
    lemma_packages_of(other);
    assert forall|name: Text| packages_of(found).contains_key(name) implies packages_of(
        other,
    ).contains_key(name) && packages_of(other)[name] == packages_of(found)[name] by {
        let entry = (name, packages_of(found)[name]);
        assert(other.contains(entry));
        let k = choose|k: int| 0 <= k < other.len() && other[k] == entry;
        assert(other[k].0 == name);
    }
    assert forall|name: Text| packages_of(other).contains_key(name) implies packages_of(
        found,
    ).contains_key(name) by {
        let entry = (name, packages_of(other)[name]);
        assert(found.contains(entry));
        let k = choose|k: int| 0 <= k < found.len() && found[k] == entry;
        assert(found[k].0 == name);
    }
    assert(packages_of(found) =~= packages_of(other));
}

/// How many times a name stands in a list is how often the list's multiset has it.
proof fn lemma_times_is_count(list: Seq<Text>, name: Text)
    ensures
        times(list, name) == list.to_multiset().count(name),
    decreases list.len(),
{
    broadcast use vstd::seq_lib::group_to_multiset_ensures;

    if list.len() == 0 {
        assert(!list.contains(name));
        assert(list.to_multiset().count(name) == 0) by {
            assert(list.contains(name) <==> list.to_multiset().count(name) > 0);
        }
    } else {
        let front = list.drop_last();
        assert(list == front.push(list.last()));
        lemma_times_is_count(front, name);
        vstd::seq_lib::to_multiset_build(front, list.last());
    }
}

/// Law: counting a list raises the count of each name by how many times it stands in
/// the list, and exactly the names counted before and those of the list have a count.
pub proof fn law_tally(popularity: Map<Text, u32>, list: Seq<Text>, name: Text)
    requires
        countable(popularity, list),
    ensures
        tallied(popularity, list).contains_key(name) <==> popularity.contains_key(name)
            || list.contains(name),
        list.contains(name) ==> tallied(popularity, list)[name] == (if popularity.contains_key(
            name,
        ) {
            popularity[name] as int
        } else {
            0
        }) + list.to_multiset().count(name),
        popularity.contains_key(name) && !list.contains(name) ==> tallied(popularity, list)[name]
            == popularity[name],
{
    lemma_times_is_count(list, name);
    lemma_times_of_missing(list, name);
    assert(times(list, name) + counted(popularity, name) <= u32::MAX);
}

/// Law: one more package raises the count of each dependency by how many times the
/// package asks for it, for its build and for its run apart. No packages ask for
/// nothing.
pub proof fn law_one_more_package(
    found: Seq<(Text, PackageView)>,
    entry: (Text, PackageView),
    name: Text,
)
    ensures
        all_build(found.push(entry)).to_multiset().count(name) == all_build(
            found,
        ).to_multiset().count(name) + entry.1.build.to_multiset().count(name),
        all_run(found.push(entry)).to_multiset().count(name) == all_run(found).to_multiset().count(
            name,
        ) + entry.1.run.to_multiset().count(name),
        all_build(found.push(entry)).contains(name) <==> all_build(found).contains(name)
            || entry.1.build.contains(name),
        all_run(found.push(entry)).contains(name) <==> all_run(found).contains(name)
            || entry.1.run.contains(name),
        all_build(Seq::empty()) == Seq::<Text>::empty(),
        all_run(Seq::empty()) == Seq::<Text>::empty(),
{
    let longer = found.push(entry);
    assert(longer.drop_last() == found);
    lemma_times_of_sum(all_build(found), entry.1.build, name);
    lemma_times_of_sum(all_run(found), entry.1.run, name);
    lemma_times_is_count(all_build(longer), name);
    lemma_times_is_count(all_build(found), name);
    lemma_times_is_count(entry.1.build, name);
    lemma_times_is_count(all_run(longer), name);
    lemma_times_is_count(all_run(found), name);
    lemma_times_is_count(entry.1.run, name);
    lemma_times_of_missing(all_build(longer), name);
    lemma_times_of_missing(all_build(found), name);
    lemma_times_of_missing(entry.1.build, name);
    lemma_times_of_missing(all_run(longer), name);
    lemma_times_of_missing(all_run(found), name);
    lemma_times_of_missing(entry.1.run, name);
}

/// Law: of the packages that were found under one name the last one counts.
pub proof fn law_last_package_counts(found: Seq<(Text, PackageView)>, at: int)
    requires
        0 <= at < found.len(),
        forall|j: int| at < j < found.len() ==> (#[trigger] found[j]).0 != found[at].0,
    ensures
        packages_of(found).contains_key(found[at].0),
        packages_of(found)[found[at].0] == found[at].1,
    decreases found.len(),
{
    if at < found.len() - 1 {
        let front = found.drop_last();
        assert forall|j: int| at < j < front.len() implies (#[trigger] front[j]).0
            != front[at].0 by {
            assert(front[j] == found[j]);
        }
        assert(found[found.len() - 1].0 != found[at].0);
        law_last_package_counts(front, at);
    }
}

/// Law: there is no package under a name under which none was found.
pub proof fn law_no_package_is_made_up(found: Seq<(Text, PackageView)>, name: Text)
    requires
        forall|j: int| 0 <= j < found.len() ==> (#[trigger] found[j]).0 != name,
    ensures
        !packages_of(found).contains_key(name),
    decreases found.len(),
{
    if found.len() > 0 {
        let front = found.drop_last();
        assert forall|j: int| 0 <= j < front.len() implies (#[trigger] front[j]).0 != name by {
            assert(front[j] == found[j]);
        }
        assert(found[found.len() - 1].0 != name);
        law_no_package_is_made_up(front, name);
    }
}

/// Law: the index has under each count exactly the names that are no local package and
/// were counted so often, in ascending order, and no count without names.
pub proof fn law_index(popularity: Map<Text, u32>, local: Set<Text>, count: u32, name: Text)
    requires
        popularity.dom().finite(),
    ensures
        by_popularity(popularity, local).contains_key(count) ==> {
            &&& ascending(by_popularity(popularity, local)[count])
            &&& by_popularity(popularity, local)[count].len() > 0
            &&& by_popularity(popularity, local)[count].contains(name)
                <==> popularity.contains_key(name) && !local.contains(name) && popularity[name]
                == count
        },
        popularity.contains_key(name) && !local.contains(name) ==> by_popularity(
            popularity,
            local,
        ).contains_key(popularity[name]),
{
    let here = level(popularity, local, count);
    vstd::set_lib::lemma_set_subset_finite(popularity.dom(), here);
    lemma_sorted_exists(here);
    assert(sorted(here).to_set().contains(name) <==> here.contains(name));
    if sorted(here).len() == 0 {
        assert(sorted(here).to_set() =~= Set::<Text>::empty());
    }
    if popularity.contains_key(name) && !local.contains(name) {
        assert(level(popularity, local, popularity[name]).contains(name));
    }
}

/// Law: the top layer that an index gives has exactly the names that are no local
/// package and were counted at least `minimum` times, and it is given exactly where
/// there are some.
pub proof fn law_top_layer(popularity: Map<Text, u32>, local: Set<Text>, minimum: u32)
    requires
        popularity.dom().finite(),
    ensures
        forall|name: Text| #[trigger]
            names_from(by_popularity(popularity, local), minimum).contains(name)
                <==> popularity.contains_key(name) && !local.contains(name) && popularity[name]
                >= minimum,
        reaches(by_popularity(popularity, local), minimum) <==> exists|name: Text| #[trigger]
            popularity.contains_key(name) && !local.contains(name) && popularity[name] >= minimum,
{
    law_top_layer_is_the_popular_names(popularity, local, minimum);
    let names = popular(popularity, local, minimum);
    if names != Set::<Text>::empty() {
        assert(exists|name: Text| names.contains(name)) by {
            if forall|name: Text| !names.contains(name) {
                assert(names =~= Set::<Text>::empty());
            }
        }
        let name = choose|name: Text| names.contains(name);
        assert(popularity.contains_key(name));
    }
    if exists|name: Text| #[trigger]
        popularity.contains_key(name) && !local.contains(name) && popularity[name] >= minimum {
        let name = choose|name: Text| #[trigger]
            popularity.contains_key(name) && !local.contains(name) && popularity[name] >= minimum;
        assert(names.contains(name));
    }
}

/// Law: the packages found are what was found, each with its name, its directory and
/// its dependencies, in order.
pub proof fn law_found(found: Seq<(String, Package)>, i: int)
    requires
        0 <= i < found.len(),
    ensures
        found_view(found).len() == found.len(),
        found_view(found)[i].0 == found[i].0@,
        found_view(found)[i].1.path == found[i].1.path@,
        found_view(found)[i].1.build == texts(found[i].1.build@),
        found_view(found)[i].1.run == texts(found[i].1.run@),
{
}

} // verus!
