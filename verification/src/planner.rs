//! From the packages found to the layers of the Dockerfile.

use crate::dockerfile::{all_layer_lines, LayerErrorView, SettingsView};
use crate::graph::{
    copies_from, finite_layers, has_copy, has_layer, law_edges_are_copies, layer_graph,
    layer_order, topological, visit_order,
};
use crate::names::{ascending, NameSet};
use crate::patterns::{command_for, resolver_list};
use crate::plan::{
    build_layers, exec_layers, exec_name, law_layer_of, local_dependencies, names_exec_layer,
    package_of_exec, planned_build_layers, planned_exec_layers, system_dependencies, Layers,
    PackageView, Rules, SourceView,
};
use crate::popularity::{
    by_popularity, invert, law_top_layer_is_the_popular_names, popular, top_layer, PopularityIndex,
    Survey,
};
use crate::template::expanded;
use crate::text::{joined, texts, Text};
use vstd::prelude::*;

verus! {

/// The minimum popularity for a top layer where the user gives none.
pub const DEFAULT_MIN_POPULARITY: u32 = 4;

/// What the user decides about a plan.
#[derive(Debug)]
pub struct Choices {
    /// the minimum popularity a package needs to be in the build top layer
    pub min_build_popularity: u32,
    /// the minimum popularity a package needs to be in the exec top layer
    pub min_exec_popularity: u32,
    /// dependencies to ignore if they are seen
    pub ignore: NameSet,
    /// the patterns of packages with their commands, in the order given
    pub package_resolvers: Vec<(String, String)>,
    /// the command for all other packages
    pub default_resolver: String,
}

/// The planned layers.
#[derive(Debug)]
pub struct Plan {
    pub build_top_layer: NameSet,
    pub exec_top_layer: NameSet,
    pub build_layers: Layers,
    pub exec_layers: Layers,
    /// the names of the layers, each after those of the layers that it copies from
    pub order: Vec<String>,
}

/// Why there is no plan: no dependency is popular enough for a top layer. The
/// index tells how popular they are.
#[derive(Debug)]
pub enum PlanError {
    NoBuildTopLayer(PopularityIndex),
    NoExecTopLayer(PopularityIndex),
}

/// The dependencies that are popular enough for the build top layer.
pub open spec fn popular_builds(survey: Survey, choices: Choices) -> Set<Text> {
    popular(
        survey.build_popularity@,
        survey.local_packages@.dom(),
        choices.min_build_popularity,
    )
}

/// The dependencies that are popular enough for the exec top layer.
pub open spec fn popular_runs(survey: Survey, choices: Choices) -> Set<Text> {
    popular(survey.exec_popularity@, survey.local_packages@.dom(), choices.min_exec_popularity)
}

/// The rules for layers that start with the names of `top_layer` installed.
pub open spec fn rules_above(survey: Survey, top_layer: Set<Text>, choices: Choices) -> Rules {
    Rules {
        local: survey.local_packages@.dom(),
        ignore: top_layer.union(choices.ignore@),
        resolvers: resolver_list(choices.package_resolvers@),
        default_resolver: choices.default_resolver@,
    }
}

/// Whether `plan` is the plan of the packages surveyed.
pub open spec fn is_plan(plan: Plan, survey: Survey, choices: Choices) -> bool {
    &&& plan.build_top_layer@ == popular_builds(survey, choices)
    &&& plan.exec_top_layer@ == popular_runs(survey, choices)
    &&& plan.build_layers@ == planned_build_layers(
        survey.local_packages@,
        rules_above(survey, popular_builds(survey, choices), choices),
    )
    &&& plan.exec_layers@ == planned_exec_layers(
        survey.local_packages@,
        rules_above(survey, popular_runs(survey, choices), choices),
    )
    &&& texts(plan.order@) == visit_order(
        layer_graph(plan.build_layers@, plan.exec_layers@).nodes,
        layer_graph(plan.build_layers@, plan.exec_layers@).edges,
    )
    &&& topological(texts(plan.order@), layer_graph(plan.build_layers@, plan.exec_layers@))
}

/// Plans the layers of the packages surveyed.
pub fn plan(survey: &Survey, choices: &Choices) -> (plan: Result<Plan, PlanError>)
    ensures
        match plan {
            Ok(plan) => {
                &&& popular_builds(*survey, *choices) != Set::<Text>::empty()
                &&& popular_runs(*survey, *choices) != Set::<Text>::empty()
                &&& is_plan(plan, *survey, *choices)
                &&& survey.local_packages@.dom().finite()
            },
            Err(PlanError::NoBuildTopLayer(index)) => {
                &&& popular_builds(*survey, *choices) == Set::<Text>::empty()
                &&& index@ == by_popularity(
                    survey.build_popularity@,
                    survey.local_packages@.dom(),
                )
            },
            Err(PlanError::NoExecTopLayer(index)) => {
                &&& popular_builds(*survey, *choices) != Set::<Text>::empty()
                &&& popular_runs(*survey, *choices) == Set::<Text>::empty()
                &&& index@ == by_popularity(survey.exec_popularity@, survey.local_packages@.dom())
            },
        },
{
    let build_index = invert(&survey.build_popularity, &survey.local_packages);
    let exec_index = invert(&survey.exec_popularity, &survey.local_packages);
    proof {
        law_top_layer_is_the_popular_names(
            survey.build_popularity@,
            survey.local_packages@.dom(),
            choices.min_build_popularity,
        );
        law_top_layer_is_the_popular_names(
            survey.exec_popularity@,
            survey.local_packages@.dom(),
            choices.min_exec_popularity,
        );
    }
    let build_top_layer = match top_layer(&build_index, choices.min_build_popularity) {
        Some(names) => names,
        None => {
            return Err(PlanError::NoBuildTopLayer(build_index));
        },
    };
    let exec_top_layer = match top_layer(&exec_index, choices.min_exec_popularity) {
        Some(names) => names,
        None => {
            return Err(PlanError::NoExecTopLayer(exec_index));
        },
    };
    let default_resolver = choices.default_resolver.as_str();
    let build_ignore = build_top_layer.union(&choices.ignore);
    let build = build_layers(
        &survey.local_packages,
        &build_ignore,
        &choices.package_resolvers,
        default_resolver,
    );
    let exec_ignore = exec_top_layer.union(&choices.ignore);
    let run = exec_layers(
        &survey.local_packages,
        &exec_ignore,
        &choices.package_resolvers,
        default_resolver,
    );
    let order = layer_order(&build, &run);
    Ok(Plan { build_top_layer, exec_top_layer, build_layers: build, exec_layers: run, order })
}

/// Law: each package has one build layer, under its own name, and one run-time
/// layer, and no run-time layer is that of two packages.
pub proof fn law_one_layer_each(
    packages: Map<Text, PackageView>,
    build_rules: Rules,
    run_rules: Rules,
    name: Text,
    other: Text,
)
    ensures
        planned_build_layers(packages, build_rules).dom() == packages.dom(),
        packages.contains_key(name) ==> planned_build_layers(packages, build_rules)[name].name
            == name,
        packages.contains_key(name) <==> planned_exec_layers(packages, run_rules).contains_key(
            exec_name(name),
        ),
        packages.contains_key(name) ==> planned_exec_layers(packages, run_rules)[exec_name(
            name,
        )].name == exec_name(name),
        planned_exec_layers(packages, run_rules).contains_key(other) ==> packages.contains_key(
            package_of_exec(other),
        ) && other == exec_name(package_of_exec(other)),
        exec_name(name) == exec_name(other) ==> name == other,
{
    assert(planned_build_layers(packages, build_rules).dom() =~= packages.dom());
    assert(package_of_exec(exec_name(name)) == name);
    assert(package_of_exec(exec_name(other)) == other);
}

/// Law: above a top layer, each dependency of a package is ignored by the user, or
/// a local package that is copied, or in the top layer, or installed in the
/// package's own layer. What is in the top layer is not installed again.
pub proof fn law_dependencies_are_provided(
    survey: Survey,
    choices: Choices,
    top_layer: Set<Text>,
    dependencies: Seq<Text>,
    name: Text,
)
    requires
        dependencies.contains(name),
    ensures
        choices.ignore@.contains(name) || top_layer.contains(name) || local_dependencies(
            dependencies,
            rules_above(survey, top_layer, choices).local,
        ).contains(name) || system_dependencies(
            dependencies,
            rules_above(survey, top_layer, choices).local,
            rules_above(survey, top_layer, choices).ignore,
        ).contains(name),
        top_layer.contains(name) ==> !system_dependencies(
            dependencies,
            rules_above(survey, top_layer, choices).local,
            rules_above(survey, top_layer, choices).ignore,
        ).contains(name),
{
}

/// Whether `rules` are rules for `packages`.
pub open spec fn rules_for(packages: Map<Text, PackageView>, rules: Rules) -> bool {
    packages.dom().finite() && rules.local == packages.dom()
}

/// What the planned layers copy from.
proof fn lemma_planned_layers(
    packages: Map<Text, PackageView>,
    build_rules: Rules,
    run_rules: Rules,
)
    requires
        rules_for(packages, build_rules),
        rules_for(packages, run_rules),
    ensures
        finite_layers(planned_build_layers(packages, build_rules)),
        finite_layers(planned_exec_layers(packages, run_rules)),
        forall|from: Text, to: Text| #[trigger]
            has_copy(planned_build_layers(packages, build_rules), from, to)
                <==> packages.contains_key(to) && packages.contains_key(from)
                && packages[to].build.contains(from),
        forall|from: Text, to: Text| #[trigger]
            has_copy(planned_exec_layers(packages, run_rules), from, to) <==> names_exec_layer(
                packages,
                to,
            ) && (from == package_of_exec(to) || (packages.contains_key(from)
                && packages[package_of_exec(to)].run.contains(from))),
        forall|name: Text| #[trigger]
            has_layer(planned_build_layers(packages, build_rules), name) <==> packages.contains_key(
                name,
            ),
        forall|name: Text| #[trigger]
            has_layer(planned_exec_layers(packages, run_rules), name) <==> names_exec_layer(
                packages,
                name,
            ),
{
    let build = planned_build_layers(packages, build_rules);
    let run = planned_exec_layers(packages, run_rules);
    assert(build.dom() =~= packages.dom());
    assert forall|dependencies: Seq<Text>, local: Set<Text>| #[trigger]
        local_dependencies(dependencies, local).finite() by {
        vstd::seq_lib::seq_to_set_is_finite(dependencies);
        assert(local_dependencies(dependencies, local).subset_of(dependencies.to_set()));
        vstd::set_lib::lemma_set_subset_finite(
            dependencies.to_set(),
            local_dependencies(dependencies, local),
        );
    }
    let to_exec = |name: Text| exec_name(name);
    packages.dom().lemma_map_finite(to_exec);
    assert(run.dom() =~= packages.dom().map(to_exec)) by {
        assert forall|name: Text| run.dom().contains(name) implies packages.dom().map(
            to_exec,
        ).contains(name) by {
            assert(name == to_exec(package_of_exec(name)));
        }
        assert forall|name: Text| packages.dom().map(to_exec).contains(name) implies run.dom().contains(
            name,
        ) by {
            let of = choose|of: Text| packages.dom().contains(of) && name == to_exec(of);
            assert(package_of_exec(name) == of);
        }
    }
    assert forall|from: Text, to: Text| #[trigger]
        has_copy(build, from, to) <==> packages.contains_key(to) && packages.contains_key(from)
            && packages[to].build.contains(from) by {
        if packages.contains_key(to) && packages.contains_key(from) && packages[to].build.contains(
            from,
        ) {
            assert(packages[to].build.to_set().contains(from));
            assert(build.contains_key(to));
            assert(copies_from(build[to], from));
        }
    }
    assert forall|from: Text, to: Text| #[trigger]
        has_copy(run, from, to) <==> names_exec_layer(packages, to) && (from == package_of_exec(to)
            || (packages.contains_key(from) && packages[package_of_exec(to)].run.contains(from))) by {
        if names_exec_layer(packages, to) && (from == package_of_exec(to) || (
        packages.contains_key(from) && packages[package_of_exec(to)].run.contains(from))) {
            assert(from != package_of_exec(to) ==> packages[package_of_exec(
                to,
            )].run.to_set().contains(from));
            assert(run.contains_key(to));
            assert(copies_from(run[to], from));
        }
    }
    assert forall|name: Text| #[trigger]
        has_layer(build, name) <==> packages.contains_key(name) by {
        if packages.contains_key(name) {
            assert(build.contains_key(name));
        }
    }
    assert forall|name: Text| #[trigger]
        has_layer(run, name) <==> names_exec_layer(packages, name) by {
        if names_exec_layer(packages, name) {
            assert(run.contains_key(name));
        }
    }
}

/// Law: every name in the graph of the planned layers is that of a planned layer.
pub proof fn law_every_node_is_a_layer(
    packages: Map<Text, PackageView>,
    build_rules: Rules,
    run_rules: Rules,
    name: Text,
)
    requires
        rules_for(packages, build_rules),
        rules_for(packages, run_rules),
        layer_graph(
            planned_build_layers(packages, build_rules),
            planned_exec_layers(packages, run_rules),
        ).nodes.contains(name),
    ensures
        planned_build_layers(packages, build_rules).contains_key(name) || planned_exec_layers(
            packages,
            run_rules,
        ).contains_key(name),
{
    let build = planned_build_layers(packages, build_rules);
    let run = planned_exec_layers(packages, run_rules);
    lemma_planned_layers(packages, build_rules, run_rules);
    law_edges_are_copies(build, run);
    if exists|to: Text| has_copy(build, name, to) || has_copy(run, name, to) {
        let to = choose|to: Text| has_copy(build, name, to) || has_copy(run, name, to);
        assert(packages.contains_key(name));
    }
}

/// Law: the planned layers are written without an error, unless the name of a
/// package is that of another one's run-time layer; then the error names such a
/// package.
pub proof fn law_planned_layers_are_written(
    packages: Map<Text, PackageView>,
    build_rules: Rules,
    run_rules: Rules,
    order: Seq<Text>,
    settings: SettingsView,
)
    requires
        rules_for(packages, build_rules),
        rules_for(packages, run_rules),
        forall|i: int|
            0 <= i < order.len() ==> layer_graph(
                planned_build_layers(packages, build_rules),
                planned_exec_layers(packages, run_rules),
            ).nodes.contains(#[trigger] order[i]),
    ensures
        match all_layer_lines(
            order,
            planned_build_layers(packages, build_rules),
            planned_exec_layers(packages, run_rules),
            settings,
        ) {
            Ok(_) => forall|i: int|
                0 <= i < order.len() ==> !(packages.contains_key(#[trigger] order[i])
                    && names_exec_layer(packages, order[i])),
            Err(LayerErrorView::Ambiguous(name)) => packages.contains_key(name) && names_exec_layer(
                packages,
                name,
            ),
            Err(LayerErrorView::Missing(_)) => false,
        },
    decreases order.len(),
{
    let build = planned_build_layers(packages, build_rules);
    let run = planned_exec_layers(packages, run_rules);
    if order.len() > 0 {
        let front = order.drop_last();
        assert forall|i: int| 0 <= i < front.len() implies layer_graph(build, run).nodes.contains(
            #[trigger] front[i],
        ) by {
            assert(order[i] == front[i]);
        }
        law_planned_layers_are_written(packages, build_rules, run_rules, front, settings);
        assert(order[order.len() - 1] == order.last());
        law_every_node_is_a_layer(packages, build_rules, run_rules, order.last());
        if all_layer_lines(order, build, run, settings) is Ok {
            assert forall|i: int| 0 <= i < order.len() implies !(packages.contains_key(
                #[trigger] order[i],
            ) && names_exec_layer(packages, order[i])) by {
                if i < front.len() {
                    assert(front[i] == order[i]);
                }
            }
        }
    }
}

/// Law: where the packages can be ranked so that each ranks above those that it
/// builds with, and no name of a package is that of a run-time layer, every
/// package is built and has its run-time layer.
pub proof fn law_every_package_has_its_layers(
    packages: Map<Text, PackageView>,
    build_rules: Rules,
    run_rules: Rules,
    order: Seq<Text>,
    rank: spec_fn(Text) -> nat,
    name: Text,
)
    requires
        rules_for(packages, build_rules),
        rules_for(packages, run_rules),
        topological(
            order,
            layer_graph(
                planned_build_layers(packages, build_rules),
                planned_exec_layers(packages, run_rules),
            ),
        ),
        forall|from: Text, to: Text| #[trigger]
            packages.contains_key(from) && #[trigger] packages.contains_key(to)
                && packages[to].build.contains(from) ==> rank(from) < rank(to),
        forall|n: Text| packages.contains_key(n) ==> !#[trigger] names_exec_layer(packages, n),
        packages.contains_key(name),
    ensures
        order.contains(name),
        order.contains(exec_name(name)),
{
    let build = planned_build_layers(packages, build_rules);
    let run = planned_exec_layers(packages, run_rules);
    let graph = layer_graph(build, run);
    lemma_planned_layers(packages, build_rules, run_rules);
    law_edges_are_copies(build, run);
    assert(package_of_exec(exec_name(name)) == name);
    lemma_builds_are_ordered(packages, build_rules, run_rules, order, rank, name);
    assert(graph.nodes.contains(exec_name(name))) by {
        assert(names_exec_layer(packages, exec_name(name)));
        assert(has_layer(run, exec_name(name)));
    }
    assert forall|from: Text| #[trigger] graph.edges.contains((from, exec_name(name))) implies order.contains(
        from,
    ) by {
        assert(names_exec_layer(packages, exec_name(name)));
        assert(!packages.contains_key(exec_name(name)));
        assert(has_copy(run, from, exec_name(name)));
        assert(packages.contains_key(from));
        lemma_builds_are_ordered(packages, build_rules, run_rules, order, rank, from);
    }
}

/// The build layer of every package is in the order.
proof fn lemma_builds_are_ordered(
    packages: Map<Text, PackageView>,
    build_rules: Rules,
    run_rules: Rules,
    order: Seq<Text>,
    rank: spec_fn(Text) -> nat,
    name: Text,
)
    requires
        rules_for(packages, build_rules),
        rules_for(packages, run_rules),
        topological(
            order,
            layer_graph(
                planned_build_layers(packages, build_rules),
                planned_exec_layers(packages, run_rules),
            ),
        ),
        forall|from: Text, to: Text| #[trigger]
            packages.contains_key(from) && #[trigger] packages.contains_key(to)
                && packages[to].build.contains(from) ==> rank(from) < rank(to),
        forall|n: Text| packages.contains_key(n) ==> !#[trigger] names_exec_layer(packages, n),
        packages.contains_key(name),
    ensures
        order.contains(name),
    decreases rank(name),
{
    let build = planned_build_layers(packages, build_rules);
    let run = planned_exec_layers(packages, run_rules);
    let graph = layer_graph(build, run);
    lemma_planned_layers(packages, build_rules, run_rules);
    law_edges_are_copies(build, run);
    assert(has_layer(build, name));
    assert(graph.nodes.contains(name));
    assert forall|from: Text| #[trigger] graph.edges.contains((from, name)) implies order.contains(
        from,
    ) by {
        assert(!names_exec_layer(packages, name));
        assert(has_copy(build, from, name));
        assert(packages.contains_key(from));
        lemma_builds_are_ordered(packages, build_rules, run_rules, order, rank, from);
    }
}

/// Law: the build layer of a package comes after those of the local packages that
/// it builds with, and its run-time layer after its build layer and after those
/// of the local packages that it runs with.
pub proof fn law_packages_follow_their_dependencies(
    packages: Map<Text, PackageView>,
    build_rules: Rules,
    run_rules: Rules,
    order: Seq<Text>,
    name: Text,
    dependency: Text,
    i: int,
)
    requires
        rules_for(packages, build_rules),
        rules_for(packages, run_rules),
        topological(
            order,
            layer_graph(
                planned_build_layers(packages, build_rules),
                planned_exec_layers(packages, run_rules),
            ),
        ),
        packages.contains_key(name),
        packages.contains_key(dependency),
        0 <= i < order.len(),
    ensures
        order[i] == name && packages[name].build.contains(dependency) ==> order.take(i).contains(
            dependency,
        ),
        order[i] == exec_name(name) ==> order.take(i).contains(name),
        order[i] == exec_name(name) && packages[name].run.contains(dependency) ==> order.take(
            i,
        ).contains(dependency),
{
    let build = planned_build_layers(packages, build_rules);
    let run = planned_exec_layers(packages, run_rules);
    let graph = layer_graph(build, run);
    lemma_planned_layers(packages, build_rules, run_rules);
    law_edges_are_copies(build, run);
    assert(package_of_exec(exec_name(name)) == name);
    assert(names_exec_layer(packages, exec_name(name)));
    assert(has_copy(run, name, exec_name(name)));
    assert(graph.edges.contains((name, exec_name(name))));
    if packages[name].build.contains(dependency) {
        assert(has_copy(build, dependency, name));
        assert(graph.edges.contains((dependency, name)));
    }
    if packages[name].run.contains(dependency) {
        assert(has_copy(run, dependency, exec_name(name)));
        assert(graph.edges.contains((dependency, exec_name(name))));
    }
}

/// Law: in a plan, the build layer of a package is made from its directory, copies
/// exactly from the local packages that it builds with, and installs exactly what else
/// it builds with, but for what the user ignores and what is in the build top layer,
/// which build layers start from. What only the exec top layer has is installed. The
/// law returns what is installed with a command of its own and what is installed
/// together.
pub proof fn law_build_layer_of_a_plan(
    plan: Plan,
    survey: Survey,
    choices: Choices,
    name: Text,
) -> (parts: (Seq<Text>, Seq<Text>))
    requires
        is_plan(plan, survey, choices),
        survey.local_packages@.contains_key(name),
    ensures
        ({
            let key = name;
            let layer = plan.build_layers@[key];
            let needed = survey.local_packages@[name].build;
            let local = survey.local_packages@;
            let resolvers = resolver_list(choices.package_resolvers@);
            let (single, common) = parts;
            &&& plan.build_layers@.contains_key(key)
            &&& layer.name == key
            &&& layer.source == SourceView::Path(survey.local_packages@[name].path)
            &&& forall|n: Text| #[trigger]
                layer.local.contains(n) <==> needed.contains(n) && local.contains_key(n)
            &&& ascending(single) && ascending(common)
            &&& forall|n: Text| #[trigger]
                single.contains(n) <==> needed.contains(n) && !local.contains_key(n)
                    && !choices.ignore@.contains(n) && !plan.build_top_layer@.contains(n) && (
                command_for(resolvers, n) matches Some(command) && command.len() > 0)
            &&& forall|n: Text| #[trigger]
                common.contains(n) <==> needed.contains(n) && !local.contains_key(n)
                    && !choices.ignore@.contains(n) && !plan.build_top_layer@.contains(n)
                    && command_for(resolvers, n) is None
            &&& layer.commands is None <==> forall|n: Text| #[trigger]
                needed.contains(n) ==> local.contains_key(n) || choices.ignore@.contains(n)
                    || plan.build_top_layer@.contains(n)
            &&& layer.commands matches Some(commands) ==> {
                &&& commands.len() == single.len() + 1
                &&& forall|i: int|
                    0 <= i < single.len() ==> #[trigger] commands[i] == expanded(
                        command_for(resolvers, single[i]).unwrap(),
                        single[i],
                    )
                &&& commands[single.len() as int] == expanded(
                    choices.default_resolver@,
                    joined(common, seq![' ']),
                )
            }
        }),
{
    let rules = rules_above(survey, popular_builds(survey, choices), choices);
    assert(plan.build_layers@.contains_key(name));
    law_layer_of(
        name,
        SourceView::Path(survey.local_packages@[name].path),
        survey.local_packages@[name].build,
        rules,
    )
}

/// Law: in a plan, the run-time layer of a package is made from its build layer, copies
/// exactly from the local packages that it runs with, and installs exactly what else it
/// runs with, but for what the user ignores and what is in the exec top layer, which
/// run-time layers start from. What only the build top layer has is installed. The law
/// returns what is installed with a command of its own and what is installed together.
pub proof fn law_run_time_layer_of_a_plan(
    plan: Plan,
    survey: Survey,
    choices: Choices,
    name: Text,
) -> (parts: (Seq<Text>, Seq<Text>))
    requires
        is_plan(plan, survey, choices),
        survey.local_packages@.contains_key(name),
    ensures
        ({
            let key = name + seq!['_', 'e', 'x', 'e', 'c'];
            let layer = plan.exec_layers@[key];
            let needed = survey.local_packages@[name].run;
            let local = survey.local_packages@;
            let resolvers = resolver_list(choices.package_resolvers@);
            let (single, common) = parts;
            &&& plan.exec_layers@.contains_key(key)
            &&& layer.name == key
            &&& layer.source == SourceView::LayerName(name)
            &&& forall|n: Text| #[trigger]
                layer.local.contains(n) <==> needed.contains(n) && local.contains_key(n)
            &&& ascending(single) && ascending(common)
            &&& forall|n: Text| #[trigger]
                single.contains(n) <==> needed.contains(n) && !local.contains_key(n)
                    && !choices.ignore@.contains(n) && !plan.exec_top_layer@.contains(n) && (
                command_for(resolvers, n) matches Some(command) && command.len() > 0)
            &&& forall|n: Text| #[trigger]
                common.contains(n) <==> needed.contains(n) && !local.contains_key(n)
                    && !choices.ignore@.contains(n) && !plan.exec_top_layer@.contains(n)
                    && command_for(resolvers, n) is None
            &&& layer.commands is None <==> forall|n: Text| #[trigger]
                needed.contains(n) ==> local.contains_key(n) || choices.ignore@.contains(n)
                    || plan.exec_top_layer@.contains(n)
            &&& layer.commands matches Some(commands) ==> {
                &&& commands.len() == single.len() + 1
                &&& forall|i: int|
                    0 <= i < single.len() ==> #[trigger] commands[i] == expanded(
                        command_for(resolvers, single[i]).unwrap(),
                        single[i],
                    )
                &&& commands[single.len() as int] == expanded(
                    choices.default_resolver@,
                    joined(common, seq![' ']),
                )
            }
        }),
{
    let rules = rules_above(survey, popular_runs(survey, choices), choices);
    assert(package_of_exec(exec_name(name)) == name);
    assert(exec_name(name) == name + seq!['_', 'e', 'x', 'e', 'c']);
    assert(names_exec_layer(survey.local_packages@, exec_name(name)));
    assert(plan.exec_layers@.contains_key(exec_name(name)));
    law_layer_of(
        exec_name(name),
        SourceView::LayerName(name),
        survey.local_packages@[name].run,
        rules,
    )
}

/// Law: a plan has a build layer under the name of each package, a run-time layer under
/// that name followed by `_exec`, and no others.
pub proof fn law_layers_of_a_plan(plan: Plan, survey: Survey, choices: Choices, key: Text)
    requires
        is_plan(plan, survey, choices),
    ensures
        plan.build_layers@.contains_key(key) <==> survey.local_packages@.contains_key(key),
        plan.exec_layers@.contains_key(key) <==> exists|name: Text| #[trigger]
            survey.local_packages@.contains_key(name) && key == name + seq![
                '_',
                'e',
                'x',
                'e',
                'c',
            ],
{
    if plan.exec_layers@.contains_key(key) {
        let name = package_of_exec(key);
        assert(survey.local_packages@.contains_key(name));
        assert(key == name + seq!['_', 'e', 'x', 'e', 'c']);
    }
    if exists|name: Text| #[trigger]
        survey.local_packages@.contains_key(name) && key == name + seq!['_', 'e', 'x', 'e', 'c'] {
        let name = choose|name: Text| #[trigger]
            survey.local_packages@.contains_key(name) && key == name + seq![
                '_',
                'e',
                'x',
                'e',
                'c',
            ];
        assert(package_of_exec(key) == name);
        assert(key == exec_name(name));
    }
}

/// Law: a dependency is popular enough for a top layer exactly where it is no local
/// package and is asked for at least as often as the user demands of this top layer. A
/// top layer of a plan has exactly these dependencies.
pub proof fn law_top_layers_of_a_plan(plan: Plan, survey: Survey, choices: Choices, name: Text)
    ensures
        popular_builds(survey, choices).contains(name) <==> survey.build_popularity@.contains_key(
            name,
        ) && !survey.local_packages@.contains_key(name) && survey.build_popularity@[name]
            >= choices.min_build_popularity,
        popular_runs(survey, choices).contains(name) <==> survey.exec_popularity@.contains_key(name)
            && !survey.local_packages@.contains_key(name) && survey.exec_popularity@[name]
            >= choices.min_exec_popularity,
        is_plan(plan, survey, choices) ==> (plan.build_top_layer@.contains(name)
            <==> survey.build_popularity@.contains_key(name)
            && !survey.local_packages@.contains_key(name) && survey.build_popularity@[name]
            >= choices.min_build_popularity),
        is_plan(plan, survey, choices) ==> (plan.exec_top_layer@.contains(name)
            <==> survey.exec_popularity@.contains_key(name)
            && !survey.local_packages@.contains_key(name) && survey.exec_popularity@[name]
            >= choices.min_exec_popularity),
{
}

/// Law: the order of a plan has no layer twice and only layers of the plan. The build
/// layer of a package comes after those of the local packages that it builds with, and
/// its run-time layer after its build layer and after the build layers of the local
/// packages that it runs with.
pub proof fn law_order_of_a_plan(
    plan: Plan,
    survey: Survey,
    choices: Choices,
    name: Text,
    dependency: Text,
    i: int,
)
    requires
        is_plan(plan, survey, choices),
        survey.local_packages@.dom().finite(),
        survey.local_packages@.contains_key(name),
        0 <= i < plan.order@.len(),
    ensures
        ({
            let order = texts(plan.order@);
            let packages = survey.local_packages@;
            let run = name + seq!['_', 'e', 'x', 'e', 'c'];
            &&& order.no_duplicates()
            &&& plan.build_layers@.contains_key(order[i]) || plan.exec_layers@.contains_key(
                order[i],
            )
            &&& order[i] == name && packages[name].build.contains(dependency)
                && packages.contains_key(dependency) ==> order.take(i).contains(dependency)
            &&& order[i] == run ==> order.take(i).contains(name)
            &&& order[i] == run && packages[name].run.contains(dependency)
                && packages.contains_key(dependency) ==> order.take(i).contains(dependency)
        }),
{
    let order = texts(plan.order@);
    let packages = survey.local_packages@;
    let build_rules = rules_above(survey, popular_builds(survey, choices), choices);
    let run_rules = rules_above(survey, popular_runs(survey, choices), choices);
    assert(exec_name(name) == name + seq!['_', 'e', 'x', 'e', 'c']);
    law_every_node_is_a_layer(packages, build_rules, run_rules, order[i]);
    law_packages_follow_their_dependencies(
        packages,
        build_rules,
        run_rules,
        order,
        name,
        name,
        i,
    );
    if packages.contains_key(dependency) {
        law_packages_follow_their_dependencies(
            packages,
            build_rules,
            run_rules,
            order,
            name,
            dependency,
            i,
        );
    }
}

/// Law: where the packages can be ranked so that each ranks above those that it builds
/// with, and none is named like the run-time layer of another, the order of a plan has
/// both layers of every package.
pub proof fn law_order_of_a_plan_is_complete(
    plan: Plan,
    survey: Survey,
    choices: Choices,
    rank: spec_fn(Text) -> nat,
    name: Text,
)
    requires
        is_plan(plan, survey, choices),
        survey.local_packages@.dom().finite(),
        forall|from: Text, to: Text| #[trigger]
            survey.local_packages@.contains_key(from) && #[trigger]
            survey.local_packages@.contains_key(to) && survey.local_packages@[to].build.contains(
                from,
            ) ==> rank(from) < rank(to),
        forall|n: Text, m: Text| #[trigger]
            survey.local_packages@.contains_key(n) && #[trigger]
            survey.local_packages@.contains_key(m) ==> n != m + seq!['_', 'e', 'x', 'e', 'c'],
        survey.local_packages@.contains_key(name),
    ensures
        texts(plan.order@).contains(name),
        texts(plan.order@).contains(name + seq!['_', 'e', 'x', 'e', 'c']),
{
    let packages = survey.local_packages@;
    let build_rules = rules_above(survey, popular_builds(survey, choices), choices);
    let run_rules = rules_above(survey, popular_runs(survey, choices), choices);
    assert forall|n: Text| packages.contains_key(n) implies !#[trigger] names_exec_layer(
        packages,
        n,
    ) by {
        if names_exec_layer(packages, n) {
            assert(n == package_of_exec(n) + seq!['_', 'e', 'x', 'e', 'c']);
        }
    }
    assert(exec_name(name) == name + seq!['_', 'e', 'x', 'e', 'c']);
    law_every_package_has_its_layers(
        packages,
        build_rules,
        run_rules,
        texts(plan.order@),
        rank,
        name,
    );
}

} // verus!
