//! Arguments of the form `regex:command`.

use crate::patterns::{is_pattern, pattern_compiles, pattern_found, plain, resolver_list};
use crate::text::{
    copy, law_split_at_first, law_split_without_mark, split_at_first, split_once, texts, Text,
};
use vstd::prelude::*;

verus! {

/// The resolvers that `arguments` give, in order: each argument is a pattern and a
/// command with the first colon between them. Otherwise, the first argument that
/// has no colon or, as `patterns` tells, no regular expression in front of it.
pub open spec fn resolvers_from(arguments: Seq<Text>, patterns: Seq<bool>) -> Result<
    Seq<(Text, Text)>,
    Text,
>
    decreases arguments.len(),
{
    if arguments.len() == 0 {
        Ok(Seq::empty())
    } else {
        match resolvers_from(arguments.drop_last(), patterns) {
            Ok(before) => match split_at_first(arguments.last(), ':') {
                Some((pattern, command)) => if patterns[arguments.len() - 1] {
                    Ok(before.push((pattern, command)))
                } else {
                    Err(arguments.last())
                },
                None => Err(arguments.last()),
            },
            Err(argument) => Err(argument),
        }
    }
}

/// Whether a regular expression stands in front of the first colon of `argument`.
pub open spec fn has_pattern(argument: Text) -> bool {
    match split_at_first(argument, ':') {
        Some((pattern, _)) => is_pattern(pattern),
        None => false,
    }
}

/// Of which arguments a regular expression stands in front of the first colon.
pub open spec fn patterns_of(arguments: Seq<Text>) -> Seq<bool> {
    arguments.map_values(|argument: Text| has_pattern(argument))
}

/// Whether in front of the first colon of `argument` all characters stand for
/// themselves.
pub open spec fn has_plain_pattern(argument: Text) -> bool {
    match split_at_first(argument, ':') {
        Some((pattern, _)) => plain(pattern),
        None => false,
    }
}

/// An error stays the error whatever arguments follow.
proof fn lemma_error_stays(arguments: Seq<Text>, i: int, patterns: Seq<bool>)
    requires
        0 <= i <= arguments.len(),
        resolvers_from(arguments.take(i), patterns) is Err,
    ensures
        resolvers_from(arguments, patterns) == resolvers_from(arguments.take(i), patterns),
    decreases arguments.len(),
{
    if i == arguments.len() {
        assert(arguments.take(i) == arguments);
    } else {
        assert(arguments.drop_last().take(i) == arguments.take(i));
        lemma_error_stays(arguments.drop_last(), i, patterns);
    }
}

/// Reads the arguments that give resolvers, where `patterns` tells of which
/// arguments a regular expression stands in front of the first colon.
pub fn read_resolvers(arguments: &Vec<String>, patterns: &Vec<bool>) -> (resolvers: Result<
    Vec<(String, String)>,
    String,
>)
    requires
        patterns.len() == arguments.len(),
    ensures
        match resolvers {
            Ok(list) => resolvers_from(texts(arguments@), patterns@) == Ok::<
                Seq<(Text, Text)>,
                Text,
            >(resolver_list(list@)),
            Err(argument) => resolvers_from(texts(arguments@), patterns@) == Err::<
                Seq<(Text, Text)>,
                Text,
            >(argument@),
        },
{
    let mut list: Vec<(String, String)> = Vec::new();
    let ghost all = texts(arguments@);
    let mut i: usize = 0;
    assert(resolver_list(list@) == Seq::<(Text, Text)>::empty());
    while i < arguments.len()
        invariant
            i <= arguments.len(),
            patterns.len() == arguments.len(),
            all == texts(arguments@),
            resolvers_from(all.take(i as int), patterns@) == Ok::<Seq<(Text, Text)>, Text>(
                resolver_list(list@),
            ),
        decreases arguments.len() - i,
    {
        proof {
            assert(all.take(i + 1).drop_last() == all.take(i as int));
            assert(all.take(i + 1).last() == arguments[i as int]@);
            if resolvers_from(all.take(i + 1), patterns@) is Err {
                lemma_error_stays(all, i + 1, patterns@);
            }
        }
        match split_once(arguments[i].as_str(), ':') {
            Some((pattern, command)) => {
                if !patterns[i] {
                    return Err(copy(arguments[i].as_str()));
                }
                let ghost before = list@;
                let ghost added = (pattern@, command@);
                list.push((pattern, command));
                assert(resolver_list(list@) == resolver_list(before).push(added));
            },
            None => {
                return Err(copy(arguments[i].as_str()));
            },
        }
        i += 1;
    }
    assert(all.take(arguments.len() as int) == all);
    Ok(list)
}

/// Reads the arguments that give commands for the packages that a pattern names.
pub fn package_resolvers(arguments: &Vec<String>) -> (resolvers: Result<
    Vec<(String, String)>,
    String,
>)
    ensures
        match resolvers {
            Ok(list) => resolvers_from(texts(arguments@), patterns_of(texts(arguments@))) == Ok::<
                Seq<(Text, Text)>,
                Text,
            >(resolver_list(list@)),
            Err(argument) => resolvers_from(texts(arguments@), patterns_of(texts(arguments@)))
                == Err::<Seq<(Text, Text)>, Text>(argument@),
        },
        (forall|i: int|
            0 <= i < arguments.len() ==> has_plain_pattern(#[trigger] texts(arguments@)[i]))
            ==> resolvers is Ok,
{
    let ghost all = texts(arguments@);
    let mut patterns: Vec<bool> = Vec::new();
    let mut i: usize = 0;
    while i < arguments.len()
        invariant
            i <= arguments.len(),
            all == texts(arguments@),
            patterns@ == patterns_of(all).take(i as int),
            forall|k: int|
                0 <= k < i && has_plain_pattern(#[trigger] all[k]) ==> has_pattern(all[k]),
        decreases arguments.len() - i,
    {
        assert(all[i as int] == arguments[i as int]@);
        let compiles = match split_once(arguments[i].as_str(), ':') {
            Some((pattern, _)) => pattern_compiles(pattern.as_str()),
            None => false,
        };
        patterns.push(compiles);
        i += 1;
        assert(patterns@ == patterns_of(all).take(i as int));
    }
    assert(patterns@ == patterns_of(all));
    proof {
        law_refused_without_pattern(all, patterns@);
        if forall|k: int| 0 <= k < arguments.len() ==> has_plain_pattern(#[trigger] all[k]) {
            assert forall|k: int| 0 <= k < all.len() implies !refused(all, patterns@, k) by {
                assert(has_plain_pattern(all[k]));
                assert(has_pattern(all[k]));
                law_split_without_mark(all[k], ':');
            }
        }
    }
    read_resolvers(arguments, &patterns)
}

/// Whether the argument at `i` has no colon or no regular expression in front of
/// it.
pub open spec fn refused(arguments: Seq<Text>, patterns: Seq<bool>, i: int) -> bool {
    !arguments[i].contains(':') || !patterns[i]
}

/// Law: the arguments are refused exactly where one of them has no colon or no
/// regular expression in front of it, and the first of these is named.
pub proof fn law_refused_without_pattern(arguments: Seq<Text>, patterns: Seq<bool>)
    requires
        patterns.len() >= arguments.len(),
    ensures
        match resolvers_from(arguments, patterns) {
            Ok(_) => forall|i: int|
                0 <= i < arguments.len() ==> !#[trigger] refused(arguments, patterns, i),
            Err(argument) => exists|i: int|
                0 <= i < arguments.len() && #[trigger] refused(arguments, patterns, i)
                    && arguments[i] == argument && forall|j: int|
                    0 <= j < i ==> !#[trigger] refused(arguments, patterns, j),
        },
    decreases arguments.len(),
{
    if arguments.len() > 0 {
        let front = arguments.drop_last();
        let last = arguments.len() - 1;
        law_refused_without_pattern(front, patterns);
        law_split_without_mark(arguments.last(), ':');
        assert forall|i: int| 0 <= i < last implies refused(front, patterns, i) == #[trigger] refused(
            arguments,
            patterns,
            i,
        ) by {
            assert(front[i] == arguments[i]);
        }
        match resolvers_from(front, patterns) {
            Ok(_) => {
                assert(resolvers_from(arguments, patterns) is Err <==> refused(
                    arguments,
                    patterns,
                    last,
                ));
            },
            Err(argument) => {
                let i = choose|i: int|
                    0 <= i < front.len() && #[trigger] refused(front, patterns, i) && front[i]
                        == argument && forall|j: int|
                        0 <= j < i ==> !#[trigger] refused(front, patterns, j);
                assert(refused(arguments, patterns, i) && arguments[i] == argument);
                assert forall|j: int| 0 <= j < i implies !#[trigger] refused(
                    arguments,
                    patterns,
                    j,
                ) by {
                    assert(!refused(front, patterns, j));
                }
            },
        }
    }
}

/// Law: where the arguments are accepted there is one resolver for each, in order: its
/// pattern is what stands in front of the argument's first colon, and its command is
/// what stands behind it.
pub proof fn law_resolvers_are_the_arguments(arguments: Seq<Text>, patterns: Seq<bool>)
    ensures
        resolvers_from(arguments, patterns) matches Ok(resolvers) ==> resolvers.len()
            == arguments.len() && forall|i: int|
            0 <= i < resolvers.len() ==> arguments[i] == (#[trigger] resolvers[i]).0.push(':')
                + resolvers[i].1 && !resolvers[i].0.contains(':'),
    decreases arguments.len(),
{
    if arguments.len() > 0 {
        let front = arguments.drop_last();
        law_resolvers_are_the_arguments(front, patterns);
        if let Ok(resolvers) = resolvers_from(arguments, patterns) {
            let last = resolvers.len() - 1;
            law_split_at_first(arguments.last(), ':', resolvers[last].0, resolvers[last].1);
            assert forall|i: int| 0 <= i < resolvers.len() implies arguments[i] == (
            #[trigger] resolvers[i]).0.push(':') + resolvers[i].1 && !resolvers[i].0.contains(
                ':',
            ) by {
                if i < last {
                    let before = resolvers_from(front, patterns)->Ok_0;
                    assert(resolvers[i] == before[i]);
                    assert(front[i] == arguments[i]);
                }
            }
        }
    }
}

/// Law: what is told of each argument is whether what stands in front of its first
/// colon is a regular expression, alone and anchored.
pub proof fn law_patterns_of(arguments: Seq<Text>, i: int)
    requires
        0 <= i < arguments.len(),
    ensures
        patterns_of(arguments).len() == arguments.len(),
        patterns_of(arguments)[i] <==> (split_at_first(arguments[i], ':') matches Some((p, _))
            && pattern_found(p, Seq::empty()) is Some && pattern_found(
            "^(?:"@ + p + ")$"@,
            Seq::empty(),
        ) is Some),
{
}

} // verus!
