//! Commands for the dependencies that a pattern names.
//!
//! A resolver is a pattern, a regular expression of the crate `regex-lite`, and a
//! command. A pattern names a dependency where it matches the whole name. Where
//! several patterns name one dependency, the one given last counts.

use crate::names::{lemma_set_of_push, NameMap};
use crate::text::{copy, optional_text, texts, Text};
use regex_lite::Regex;
use vstd::prelude::*;
use vstd::string::*;

verus! {

/// What a list of resolvers is: each pattern with its command, in the order given.
pub open spec fn resolver_list(resolvers: Seq<(String, String)>) -> Seq<(Text, Text)> {
    resolvers.map_values(|resolver: (String, String)| (resolver.0@, resolver.1@))
}

/// Whether `Regex::is_match` finds the pattern in the text; nothing where
/// `Regex::new` refuses the pattern.
pub uninterp spec fn pattern_found(pattern: Text, text: Text) -> Option<bool>;

/// The characters that stand for something else than themselves.
pub open spec fn special(c: char) -> bool {
    ||| c == '\\' || c == '.' || c == '^' || c == '$'
    ||| c == '(' || c == ')' || c == '|' || c == '['
    ||| c == '?' || c == '*' || c == '+' || c == '{'
}

/// Whether all characters of `pattern` stand for themselves. A pattern of a
/// hundred thousand of them is well below the size that is refused.
pub open spec fn plain(pattern: Text) -> bool {
    &&& pattern.len() <= 100_000
    &&& forall|i: int| 0 <= i < pattern.len() ==> !special(#[trigger] pattern[i])
}

/// The pattern that matches a text only as a whole.
pub open spec fn anchored(pattern: Text) -> Text {
    "^(?:"@ + pattern + ")$"@
}

/// `Regex::new` compiles a pattern, or refuses one that is no regular expression or
/// too large when compiled, and `Regex::is_match` tells whether the pattern matches
/// anywhere in a text. A pattern whose characters all
/// stand for themselves compiles, and anchored it matches its own text and no
/// other.
#[verifier::external_body]
fn is_match(pattern: &str, text: &str) -> (found: Option<bool>)
    ensures
        found == pattern_found(pattern@, text@),
        plain(pattern@) ==> found is Some,
        forall|name: Text| #![trigger anchored(name)]
            pattern@ == anchored(name) && plain(name) ==> found == Some(text@ == name),
{
    Regex::new(pattern).ok().map(|regex| regex.is_match(text))
}

/// Whether `pattern` matches the whole of `name`.
pub open spec fn named_by(pattern: Text, name: Text) -> bool {
    pattern_found(anchored(pattern), name) == Some(true)
}

/// Whether `pattern` is a regular expression, alone and anchored.
pub open spec fn is_pattern(pattern: Text) -> bool {
    pattern_found(pattern, Seq::empty()) is Some && pattern_found(
        anchored(pattern),
        Seq::empty(),
    ) is Some
}

/// The pattern that matches a text only as a whole.
pub fn anchor(pattern: &str) -> (whole: String)
    ensures
        whole@ == anchored(pattern@),
{
    copy("^(?:").concat(pattern).concat(")$")
}

/// Whether `pattern` matches the whole of `name`.
pub fn pattern_names(pattern: &str, name: &str) -> (names: bool)
    ensures
        names == named_by(pattern@, name@),
        plain(pattern@) ==> names == (pattern@ == name@),
{
    match is_match(anchor(pattern).as_str(), name) {
        Some(found) => found,
        None => false,
    }
}

/// Whether `pattern` is a regular expression, alone and anchored.
pub fn pattern_compiles(pattern: &str) -> (compiles: bool)
    ensures
        compiles == is_pattern(pattern@),
        plain(pattern@) ==> compiles,
{
    let nothing = String::new();
    assert(nothing@ == Seq::<char>::empty());
    is_match(pattern, nothing.as_str()).is_some() && is_match(
        anchor(pattern).as_str(),
        nothing.as_str(),
    ).is_some()
}

/// The command that applies where `matches` tells of each pattern whether it names
/// the dependency: that of the last one that does.
pub open spec fn matched(resolvers: Seq<(Text, Text)>, matches: Seq<bool>) -> Option<Text>
    decreases resolvers.len(),
{
    if resolvers.len() == 0 {
        None
    } else if matches[resolvers.len() - 1] {
        Some(resolvers.last().1)
    } else {
        matched(resolvers.drop_last(), matches)
    }
}

/// Which patterns name `name`.
pub open spec fn matches_of(resolvers: Seq<(Text, Text)>, name: Text) -> Seq<bool> {
    Seq::new(resolvers.len(), |k: int| named_by(resolvers[k].0, name))
}

/// Which patterns are `name`, letter for letter.
pub open spec fn equal_patterns(resolvers: Seq<(Text, Text)>, name: Text) -> Seq<bool> {
    Seq::new(resolvers.len(), |k: int| resolvers[k].0 == name)
}

/// Whether all characters of all patterns stand for themselves.
pub open spec fn all_plain(resolvers: Seq<(Text, Text)>) -> bool {
    forall|k: int| 0 <= k < resolvers.len() ==> plain((#[trigger] resolvers[k]).0)
}

/// The command for the dependency `name`, where a pattern names it.
pub open spec fn command_for(resolvers: Seq<(Text, Text)>, name: Text) -> Option<Text> {
    matched(resolvers, matches_of(resolvers, name))
}

/// The command that applies where `matches` tells of each pattern whether it names
/// the dependency.
pub fn matched_command(resolvers: &Vec<(String, String)>, matches: &Vec<bool>) -> (command: Option<
    String,
>)
    requires
        matches.len() == resolvers.len(),
    ensures
        optional_text(command) == matched(resolver_list(resolvers@), matches@),
{
    let ghost all = resolver_list(resolvers@);
    let mut i: usize = resolvers.len();
    assert(all.take(resolvers.len() as int) == all);
    while i > 0
        invariant
            i <= resolvers.len(),
            matches.len() == resolvers.len(),
            all == resolver_list(resolvers@),
            matched(all, matches@) == matched(all.take(i as int), matches@),
        decreases i,
    {
        i -= 1;
        proof {
            assert(all.take(i + 1).drop_last() == all.take(i as int));
            assert(all.take(i + 1).last() == all[i as int]);
        }
        if matches[i] {
            return Some(copy(resolvers[i].1.as_str()));
        }
    }
    None
}

/// The command for the dependency `name`, where a pattern names it.
pub fn command_of(resolvers: &Vec<(String, String)>, name: &str) -> (command: Option<String>)
    ensures
        optional_text(command) == command_for(resolver_list(resolvers@), name@),
        all_plain(resolver_list(resolvers@)) ==> matches_of(resolver_list(resolvers@), name@)
            == equal_patterns(resolver_list(resolvers@), name@),
{
    let ghost all = resolver_list(resolvers@);
    let mut matches: Vec<bool> = Vec::new();
    let mut i: usize = 0;
    while i < resolvers.len()
        invariant
            i <= resolvers.len(),
            all == resolver_list(resolvers@),
            matches@ == matches_of(all, name@).take(i as int),
            all_plain(all) ==> matches@ == equal_patterns(all, name@).take(i as int),
        decreases resolvers.len() - i,
    {
        assert(all[i as int] == (resolvers[i as int].0@, resolvers[i as int].1@));
        let names = pattern_names(resolvers[i].0.as_str(), name);
        matches.push(names);
        i += 1;
        assert(matches@ == matches_of(all, name@).take(i as int));
        assert(all_plain(all) ==> matches@ == equal_patterns(all, name@).take(i as int));
    }
    assert(matches@ == matches_of(all, name@));
    assert(equal_patterns(all, name@).take(i as int) == equal_patterns(all, name@));
    matched_command(resolvers, &matches)
}

/// The commands for those of `names` that a pattern names.
pub open spec fn own_resolvers(names: Set<Text>, resolvers: Seq<(Text, Text)>) -> Map<Text, Text> {
    Map::new(
        |name: Text| names.contains(name) && command_for(resolvers, name) is Some,
        |name: Text| command_for(resolvers, name).unwrap(),
    )
}

/// The commands for those of `names` that are a pattern, letter for letter.
pub open spec fn equal_resolvers(names: Set<Text>, resolvers: Seq<(Text, Text)>) -> Map<
    Text,
    Text,
> {
    Map::new(
        |name: Text|
            names.contains(name) && matched(resolvers, equal_patterns(resolvers, name)) is Some,
        |name: Text| matched(resolvers, equal_patterns(resolvers, name)).unwrap(),
    )
}

/// The commands for those of `names` that a pattern names.
pub fn resolvers_for(names: &Vec<String>, resolvers: &Vec<(String, String)>) -> (own: NameMap<
    String,
>)
    ensures
        own@ == own_resolvers(texts(names@).to_set(), resolver_list(resolvers@)),
        all_plain(resolver_list(resolvers@)) ==> own@ == equal_resolvers(
            texts(names@).to_set(),
            resolver_list(resolvers@),
        ),
{
    let ghost list = resolver_list(resolvers@);
    let ghost all = texts(names@);
    let mut own: NameMap<String> = NameMap::new();
    let mut i: usize = 0;
    assert(own@ =~= own_resolvers(all.take(0).to_set(), list));
    while i < names.len()
        invariant
            i <= names.len(),
            all == texts(names@),
            list == resolver_list(resolvers@),
            own@ == own_resolvers(all.take(i as int).to_set(), list),
            all_plain(list) ==> forall|k: int|
                0 <= k < i ==> matches_of(list, #[trigger] all[k]) == equal_patterns(list, all[k]),
        decreases names.len() - i,
    {
        let name = names[i].as_str();
        assert(all[i as int] == name@);
        proof {
            lemma_set_of_push(all.take(i as int), name@);
            assert(all.take(i as int).push(name@) == all.take(i + 1));
        }
        let ghost before = own_resolvers(all.take(i as int).to_set(), list);
        let ghost after = own_resolvers(all.take(i + 1).to_set(), list);
        match command_of(resolvers, name) {
            Some(command) => {
                assert(before.insert(name@, command@) =~= after);
                own.insert(copy(name), command);
            },
            None => {
                assert(before =~= after);
            },
        }
        i += 1;
    }
    proof {
        assert(all.take(names.len() as int) == all);
        if all_plain(list) {
            assert forall|name: Text| all.to_set().contains(name) implies matches_of(list, name)
                == equal_patterns(list, name) by {
                let k = choose|k: int| 0 <= k < all.len() && all[k] == name;
                assert(matches_of(list, all[k]) == equal_patterns(list, all[k]));
            }
            assert(own@ =~= equal_resolvers(all.to_set(), list));
        }
    }
    own
}

/// Law: of several patterns that name a dependency the last one counts, and where
/// none does there is no command.
pub proof fn law_last_match_counts(resolvers: Seq<(Text, Text)>, name: Text)
    ensures
        match command_for(resolvers, name) {
            Some(command) => exists|k: int|
                0 <= k < resolvers.len() && named_by((#[trigger] resolvers[k]).0, name)
                    && resolvers[k].1 == command && forall|j: int|
                    k < j < resolvers.len() ==> !named_by((#[trigger] resolvers[j]).0, name),
            None => forall|k: int|
                0 <= k < resolvers.len() ==> !named_by((#[trigger] resolvers[k]).0, name),
        },
{
    lemma_last_match(resolvers, matches_of(resolvers, name));
    if let Some(command) = command_for(resolvers, name) {
        let matches = matches_of(resolvers, name);
        let k = choose|k: int|
            0 <= k < resolvers.len() && #[trigger] matches[k] && resolvers[k].1 == command
                && forall|j: int| k < j < resolvers.len() ==> !#[trigger] matches[j];
        assert(named_by(resolvers[k].0, name));
        assert forall|j: int| k < j < resolvers.len() implies !named_by(
            (#[trigger] resolvers[j]).0,
            name,
        ) by {
            assert(!matches[j]);
        }
    } else {
        assert forall|k: int| 0 <= k < resolvers.len() implies !named_by(
            (#[trigger] resolvers[k]).0,
            name,
        ) by {
            assert(!matches_of(resolvers, name)[k]);
        }
    }
}

proof fn lemma_last_match(resolvers: Seq<(Text, Text)>, matches: Seq<bool>)
    requires
        matches.len() >= resolvers.len(),
    ensures
        match matched(resolvers, matches) {
            Some(command) => exists|k: int|
                0 <= k < resolvers.len() && #[trigger] matches[k] && resolvers[k].1 == command
                    && forall|j: int| k < j < resolvers.len() ==> !#[trigger] matches[j],
            None => forall|k: int| 0 <= k < resolvers.len() ==> !#[trigger] matches[k],
        },
    decreases resolvers.len(),
{
    if resolvers.len() > 0 && !matches[resolvers.len() - 1] {
        let front = resolvers.drop_last();
        lemma_last_match(front, matches);
        if let Some(command) = matched(front, matches) {
            let k = choose|k: int|
                0 <= k < front.len() && #[trigger] matches[k] && front[k].1 == command
                    && forall|j: int| k < j < front.len() ==> !#[trigger] matches[j];
            assert(matches[k] && resolvers[k].1 == command);
        }
    }
}

/// Law: a pattern names a dependency exactly where it matches from the start of the
/// name to its end, and it is accepted exactly where it compiles both alone and so.
pub proof fn law_whole_names(pattern: Text, name: Text)
    ensures
        named_by(pattern, name) <==> pattern_found("^(?:"@ + pattern + ")$"@, name) == Some(true),
        is_pattern(pattern) <==> pattern_found(pattern, Seq::empty()) is Some && pattern_found(
            "^(?:"@ + pattern + ")$"@,
            Seq::empty(),
        ) is Some,
{
}

/// Law: of the patterns that are told to name a dependency the last one counts, and
/// where none is there is no command.
pub proof fn law_last_of_the_matches_counts(resolvers: Seq<(Text, Text)>, matches: Seq<bool>)
    requires
        matches.len() >= resolvers.len(),
    ensures
        match matched(resolvers, matches) {
            Some(command) => exists|k: int|
                0 <= k < resolvers.len() && #[trigger] matches[k] && resolvers[k].1 == command
                    && forall|j: int| k < j < resolvers.len() ==> !#[trigger] matches[j],
            None => forall|k: int| 0 <= k < resolvers.len() ==> !#[trigger] matches[k],
        },
{
    lemma_last_match(resolvers, matches);
}

/// Law: the names with a command of their own are exactly those that a pattern names,
/// and each has the command for it. Where patterns are taken letter for letter, they
/// are exactly those that are a pattern.
pub proof fn law_own_resolvers(names: Set<Text>, resolvers: Seq<(Text, Text)>, name: Text)
    ensures
        own_resolvers(names, resolvers).contains_key(name) <==> names.contains(name) && exists|
            k: int,
        | 0 <= k < resolvers.len() && named_by((#[trigger] resolvers[k]).0, name),
        own_resolvers(names, resolvers).contains_key(name) ==> command_for(resolvers, name) == Some(
            own_resolvers(names, resolvers)[name],
        ),
        equal_resolvers(names, resolvers).contains_key(name) <==> names.contains(name) && exists|
            k: int,
        | 0 <= k < resolvers.len() && (#[trigger] resolvers[k]).0 == name,
        forall|k: int| #![trigger resolvers[k]]
            names.contains(name) && 0 <= k < resolvers.len() && resolvers[k].0 == name && (forall|
                j: int,
            | k < j < resolvers.len() ==> (#[trigger] resolvers[j]).0 != name)
                ==> equal_resolvers(names, resolvers)[name] == resolvers[k].1,
{
    law_last_match_counts(resolvers, name);
    let equal = equal_patterns(resolvers, name);
    lemma_last_match(resolvers, equal);
    assert(forall|k: int|
        0 <= k < resolvers.len() ==> (#[trigger] equal[k] <==> resolvers[k].0 == name));
    if exists|k: int| 0 <= k < resolvers.len() && (#[trigger] resolvers[k]).0 == name {
        let k = choose|k: int| 0 <= k < resolvers.len() && (#[trigger] resolvers[k]).0 == name;
        assert(equal[k]);
    }
    match matched(resolvers, equal) {
        Some(command) => {
            let m = choose|k: int|
                0 <= k < resolvers.len() && #[trigger] equal[k] && resolvers[k].1 == command
                    && forall|j: int| k < j < resolvers.len() ==> !#[trigger] equal[j];
            assert(resolvers[m].0 == name);
            assert forall|k: int| #![trigger resolvers[k]]
                names.contains(name) && 0 <= k < resolvers.len() && resolvers[k].0 == name && (
                forall|j: int|
                    k < j < resolvers.len() ==> (#[trigger] resolvers[j]).0
                        != name) implies equal_resolvers(names, resolvers)[name]
                == resolvers[k].1 by {
                assert(equal[k]);
                if k < m {
                    assert(resolvers[m].0 != name);
                }
                assert(k == m);
            }
        },
        None => {
            assert forall|k: int| 0 <= k < resolvers.len() implies (#[trigger] resolvers[k]).0
                != name by {
                assert(!equal[k]);
            }
        },
    }
}

/// Law: a list of resolvers is what was given, each pattern with its command, in order.
pub proof fn law_resolver_list(resolvers: Seq<(String, String)>)
    ensures
        resolver_list(resolvers).len() == resolvers.len(),
        forall|i: int|
            0 <= i < resolvers.len() ==> #[trigger] resolver_list(resolvers)[i] == (
                resolvers[i].0@,
                resolvers[i].1@,
            ),
{
}

} // verus!
