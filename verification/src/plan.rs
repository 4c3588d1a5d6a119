//! The plan of a Dockerfile: which layers it has, and what each installs and
//! copies.

use crate::layers::{both, listed, ColconPackage};
use crate::names::{
    ascending, compare, lemma_set_of_push, lemma_sorted_exists, lemma_sorted_without, sorted,
    text_lt, text_ordering, NameMap, NameSet,
};
use crate::patterns::{
    all_plain, command_for, equal_resolvers, own_resolvers, resolver_list, resolvers_for,
};
use crate::template::{expanded, resolve_commands};
use crate::text::{copy, joined, texts, Text};
use std::cmp::Ordering;
use vstd::prelude::*;
use vstd::string::*;

verus! {

/// The packages found, by name.
pub type Packages = NameMap<Package>;

/// The planned layers, by name.
pub type Layers = NameMap<Layer>;

/// A package: where it is, and what it depends on when it is built and when it
/// is run.
#[derive(Debug)]
pub struct Package {
    pub path: String,
    pub build: Vec<String>,
    pub run: Vec<String>,
}

/// What a package is.
pub struct PackageView {
    pub path: Text,
    pub build: Seq<Text>,
    pub run: Seq<Text>,
}

impl View for Package {
    type V = PackageView;

    open spec fn view(&self) -> PackageView {
        PackageView { path: self.path@, build: texts(self.build@), run: texts(self.run@) }
    }
}

impl Package {
    /// The package at `path` that `colcon_package` describes: what it builds
    /// with and what it runs with, each followed by what it depends on for both.
    pub fn from_colcon_package(path: String, colcon_package: ColconPackage) -> (package: Package)
        ensures
            package@ == (PackageView {
                path: path@,
                build: listed(colcon_package.build_depend) + listed(colcon_package.depend),
                run: listed(colcon_package.exec_depend) + listed(colcon_package.depend),
            }),
    {
        let build = both(&colcon_package.build_depend, &colcon_package.depend);
        let run = both(&colcon_package.exec_depend, &colcon_package.depend);
        Package { path, build, run }
    }
}

/// A layer of the Dockerfile.
#[derive(Debug, Eq, PartialEq)]
pub struct Layer {
    pub name: String,
    pub source: Source,
    pub system_dependencies: Dependencies,
    pub local_dependencies: NameSet,
}

/// a layer either depends on a path, because it uses something from the file system, or a
/// previous layer
#[derive(Debug, Eq, PartialEq)]
pub enum Source {
    Path(String),
    LayerName(String),
}

/// a layer has either no system dependencies or they are docker `run` command constructed to
/// install those dependencies
#[derive(Eq, PartialEq, Debug)]
pub enum Dependencies {
    Nothing,
    Resolved(Vec<String>),
}

/// What a layer is.
pub struct LayerView {
    pub name: Text,
    pub source: SourceView,
    pub commands: Option<Seq<Text>>,
    pub local: Set<Text>,
}

/// What a layer is made from.
pub enum SourceView {
    Path(Text),
    LayerName(Text),
}

impl View for Source {
    type V = SourceView;

    open spec fn view(&self) -> SourceView {
        match self {
            Source::Path(path) => SourceView::Path(path@),
            Source::LayerName(name) => SourceView::LayerName(name@),
        }
    }
}

impl View for Dependencies {
    type V = Option<Seq<Text>>;

    open spec fn view(&self) -> Option<Seq<Text>> {
        match self {
            Dependencies::Nothing => None,
            Dependencies::Resolved(commands) => Some(texts(commands@)),
        }
    }
}

impl View for Layer {
    type V = LayerView;

    open spec fn view(&self) -> LayerView {
        LayerView {
            name: self.name@,
            source: self.source@,
            commands: self.system_dependencies@,
            local: self.local_dependencies@,
        }
    }
}

impl Layer {
    /// Layers are ordered by their names, such that they respect Docker rules.
    pub fn cmp(&self, other: &Layer) -> (r: Ordering)
        ensures
            r == text_ordering(self.name@, other.name@),
    {
        compare(self.name.as_str(), other.name.as_str())
    }
}

impl PartialOrd for Layer {
    fn partial_cmp(&self, other: &Layer) -> (r: Option<Ordering>) {
        Some(self.cmp(other))
    }
}

impl vstd::std_specs::cmp::PartialOrdSpecImpl for Layer {
    open spec fn obeys_partial_cmp_spec() -> bool {
        true
    }

    open spec fn partial_cmp_spec(&self, other: &Layer) -> Option<Ordering> {
        Some(text_ordering(self.name@, other.name@))
    }
}

/// What decides how a dependency is met.
pub struct Rules {
    /// the packages that are built here
    pub local: Set<Text>,
    /// the dependencies that need nothing
    pub ignore: Set<Text>,
    /// the patterns of dependencies with their commands, in the order given
    pub resolvers: Seq<(Text, Text)>,
    /// the command for the other dependencies
    pub default_resolver: Text,
}

/// The dependencies that are packages of this system.
pub open spec fn local_dependencies(dependencies: Seq<Text>, local: Set<Text>) -> Set<Text> {
    dependencies.to_set().intersect(local)
}

/// The dependencies that the system has to provide.
pub open spec fn system_dependencies(
    dependencies: Seq<Text>,
    local: Set<Text>,
    ignore: Set<Text>,
) -> Set<Text> {
    dependencies.to_set().difference(local).difference(ignore)
}

/// The commands for those of `names` that have a command of their own, in order. A
/// blank command resolves nothing.
pub open spec fn own_commands(names: Seq<Text>, own: Map<Text, Text>) -> Seq<Text>
    decreases names.len(),
{
    if names.len() == 0 {
        Seq::empty()
    } else {
        let before = own_commands(names.drop_last(), own);
        let name = names.last();
        if own.contains_key(name) && own[name].len() > 0 {
            before.push(expanded(own[name], name))
        } else {
            before
        }
    }
}

/// The command for all dependencies of `system` without a command of their own.
pub open spec fn common_command(
    system: Set<Text>,
    own: Map<Text, Text>,
    default_resolver: Text,
) -> Text {
    expanded(default_resolver, joined(sorted(system.difference(own.dom())), seq![' ']))
}

/// The commands that install the dependencies of `system`; nothing where there
/// are none.
pub open spec fn install_commands(
    system: Set<Text>,
    own: Map<Text, Text>,
    default_resolver: Text,
) -> Option<Seq<Text>> {
    if system == Set::<Text>::empty() {
        None
    } else {
        Some(
            own_commands(sorted(system), own).push(common_command(system, own, default_resolver)),
        )
    }
}

/// The layer `name` from `source` with `dependencies`, some of which have a command
/// of their own.
pub open spec fn layer_from(
    name: Text,
    source: SourceView,
    dependencies: Seq<Text>,
    local: Set<Text>,
    ignore: Set<Text>,
    own: Map<Text, Text>,
    default_resolver: Text,
) -> LayerView {
    LayerView {
        name,
        source,
        commands: install_commands(
            system_dependencies(dependencies, local, ignore),
            own,
            default_resolver,
        ),
        local: local_dependencies(dependencies, local),
    }
}

/// The layer `name` from `source` with `dependencies`. A dependency has a command of
/// its own where a pattern names it.
pub open spec fn layer_of(
    name: Text,
    source: SourceView,
    dependencies: Seq<Text>,
    rules: Rules,
) -> LayerView {
    layer_from(
        name,
        source,
        dependencies,
        rules.local,
        rules.ignore,
        own_resolvers(dependencies.to_set(), rules.resolvers),
        rules.default_resolver,
    )
}

/// The names that a list adds to a set when one name follows.
proof fn lemma_split_dependencies(
    dependencies: Seq<Text>,
    i: int,
    local: Set<Text>,
    ignore: Set<Text>,
)
    requires
        0 <= i < dependencies.len(),
    ensures
        local_dependencies(dependencies.take(i + 1), local) == (if local.contains(dependencies[i]) {
            local_dependencies(dependencies.take(i), local).insert(dependencies[i])
        } else {
            local_dependencies(dependencies.take(i), local)
        }),
        system_dependencies(dependencies.take(i + 1), local, ignore) == (if !local.contains(
            dependencies[i],
        ) && !ignore.contains(dependencies[i]) {
            system_dependencies(dependencies.take(i), local, ignore).insert(dependencies[i])
        } else {
            system_dependencies(dependencies.take(i), local, ignore)
        }),
{
    let name = dependencies[i];
    let before = dependencies.take(i);
    let after = dependencies.take(i + 1);
    lemma_set_of_push(before, name);
    assert(before.push(name) == after);
    assert(local_dependencies(after, local) =~= (if local.contains(name) {
        local_dependencies(before, local).insert(name)
    } else {
        local_dependencies(before, local)
    }));
    assert(system_dependencies(after, local, ignore) =~= (if !local.contains(name)
        && !ignore.contains(name) {
        system_dependencies(before, local, ignore).insert(name)
    } else {
        system_dependencies(before, local, ignore)
    }));
}

/// The commands that install the dependencies of `system`, some of which have a
/// command of their own.
pub fn resolve_system_dependencies(
    system: &NameSet,
    own: &NameMap<String>,
    default_resolver: &str,
) -> (dependencies: Dependencies)
    ensures
        dependencies@ == install_commands(system@, own@, default_resolver@),
{
    let names = system.names();
    let ghost all = texts(names@);
    if names.len() == 0 {
        assert(system@ =~= Set::<Text>::empty());
        return Dependencies::Nothing;
    }
    assert(all.contains(all[0]));
    assert(system@.contains(all[0]));
    let mut resolved: Vec<String> = Vec::new();
    let mut remaining = NameSet::new();
    let mut i: usize = 0;
    assert(remaining@ =~= all.take(0).to_set().difference(own@.dom()));
    while i < names.len()
        invariant
            i <= names.len(),
            all == texts(names@),
            texts(resolved@) == own_commands(all.take(i as int), own@),
            remaining@ == all.take(i as int).to_set().difference(own@.dom()),
        decreases names.len() - i,
    {
        let name = names[i].as_str();
        proof {
            assert(all.take(i + 1).drop_last() == all.take(i as int));
            assert(all.take(i + 1).last() == name@);
            lemma_set_of_push(all.take(i as int), name@);
            assert(all.take(i as int).push(name@) == all.take(i + 1));
        }
        match own.get(name) {
            Some(command) => {
                proof {
                    assert(all.take(i + 1).to_set().difference(own@.dom()) =~= all.take(
                        i as int,
                    ).to_set().difference(own@.dom()));
                }
                if !command.as_str().is_empty() {
                    let mut one: Vec<String> = Vec::new();
                    one.push(copy(name));
                    let ghost before = resolved@;
                    let line = resolve_commands(command.as_str(), &one);
                    resolved.push(line);
                    assert(texts(one@) == seq![name@]);
                    assert(texts(resolved@) == texts(before).push(line@));
                }
            },
            None => {
                remaining.insert(copy(name));
                proof {
                    assert(all.take(i + 1).to_set().difference(own@.dom()) =~= all.take(
                        i as int,
                    ).to_set().difference(own@.dom()).insert(name@));
                }
            },
        }
        i += 1;
    }
    assert(all.take(names.len() as int) == all);
    let ghost before = resolved@;
    let line = resolve_commands(default_resolver, remaining.names());
    resolved.push(line);
    assert(texts(resolved@) == texts(before).push(line@));
    Dependencies::Resolved(resolved)
}

/// Creates a layer, which requires separating local dependencies (packages that
/// are on this system) and system dependencies, which are resolved, whilst ignoring
/// the dependencies in `ignore`. Some dependencies have a command of their own, the
/// rest use the default resolver.
pub fn layer_with(
    layer_name: String,
    source: Source,
    dependencies: &Vec<String>,
    local_packages: &Packages,
    ignore: &NameSet,
    own: &NameMap<String>,
    default_resolver: &str,
) -> (layer: Layer)
    ensures
        layer@ == layer_from(
            layer_name@,
            source@,
            texts(dependencies@),
            local_packages@.dom(),
            ignore@,
            own@,
            default_resolver@,
        ),
{
    let ghost packages = local_packages@.dom();
    let ghost all = texts(dependencies@);
    let mut system = NameSet::new();
    let mut local = NameSet::new();
    let mut i: usize = 0;
    assert(system@ =~= system_dependencies(all.take(0), packages, ignore@));
    assert(local@ =~= local_dependencies(all.take(0), packages));
    while i < dependencies.len()
        invariant
            i <= dependencies.len(),
            all == texts(dependencies@),
            packages == local_packages@.dom(),
            system@ == system_dependencies(all.take(i as int), packages, ignore@),
            local@ == local_dependencies(all.take(i as int), packages),
        decreases dependencies.len() - i,
    {
        let dependency = dependencies[i].as_str();
        assert(all[i as int] == dependency@);
        proof {
            lemma_split_dependencies(all, i as int, packages, ignore@);
        }
        if local_packages.contains_key(dependency) {
            local.insert(copy(dependency));
        } else if !ignore.contains(dependency) {
            system.insert(copy(dependency));
        }
        i += 1;
    }
    assert(all.take(dependencies.len() as int) == all);
    let system_dependencies = resolve_system_dependencies(&system, own, default_resolver);
    Layer { name: layer_name, source, system_dependencies, local_dependencies: local }
}

/// Creates a layer. The dependencies that a pattern of `package_resolvers` names
/// have the command of this pattern, the rest use the default resolver.
pub fn generate_layer(
    layer_name: String,
    source: Source,
    dependencies: &Vec<String>,
    local_packages: &Packages,
    ignore: &NameSet,
    package_resolvers: &Vec<(String, String)>,
    default_resolver: &str,
) -> (layer: Layer)
    ensures
        layer@ == layer_of(
            layer_name@,
            source@,
            texts(dependencies@),
            rules_of(*local_packages, *ignore, package_resolvers@, default_resolver),
        ),
        all_plain(resolver_list(package_resolvers@)) ==> layer@ == layer_from(
            layer_name@,
            source@,
            texts(dependencies@),
            local_packages@.dom(),
            ignore@,
            equal_resolvers(texts(dependencies@).to_set(), resolver_list(package_resolvers@)),
            default_resolver@,
        ),
{
    let own = resolvers_for(dependencies, package_resolvers);
    layer_with(
        layer_name,
        source,
        dependencies,
        local_packages,
        ignore,
        &own,
        default_resolver,
    )
}

/// The rules that packages, ignored names and resolvers make.
pub open spec fn rules_of(
    local_packages: Packages,
    ignore: NameSet,
    package_resolvers: Seq<(String, String)>,
    default_resolver: &str,
) -> Rules {
    Rules {
        local: local_packages@.dom(),
        ignore: ignore@,
        resolvers: resolver_list(package_resolvers),
        default_resolver: default_resolver@,
    }
}

/// The build layer of the package `name`.
pub open spec fn build_layer(packages: Map<Text, PackageView>, rules: Rules, name: Text) -> LayerView {
    layer_of(name, SourceView::Path(packages[name].path), packages[name].build, rules)
}

/// One build layer per package, under the package's name.
pub open spec fn planned_build_layers(packages: Map<Text, PackageView>, rules: Rules) -> Map<
    Text,
    LayerView,
> {
    Map::new(|name: Text| packages.contains_key(name), |name: Text| build_layer(packages, rules, name))
}

/// What the name of a run-time layer adds to that of its package.
pub open spec fn exec_suffix() -> Text {
    seq!['_', 'e', 'x', 'e', 'c']
}

/// The name of the run-time layer of the package `name`.
pub open spec fn exec_name(name: Text) -> Text {
    name + exec_suffix()
}

/// The name of the package whose run-time layer is named `name`.
pub open spec fn package_of_exec(name: Text) -> Text {
    name.take(name.len() - exec_suffix().len())
}

/// Whether `name` names the run-time layer of a package.
pub open spec fn names_exec_layer(packages: Map<Text, PackageView>, name: Text) -> bool {
    packages.contains_key(package_of_exec(name)) && name == exec_name(package_of_exec(name))
}

/// The run-time layer of the package `name`.
pub open spec fn exec_layer(packages: Map<Text, PackageView>, rules: Rules, name: Text) -> LayerView {
    layer_of(exec_name(name), SourceView::LayerName(name), packages[name].run, rules)
}

/// One run-time layer per package, under the package's name and the suffix.
pub open spec fn planned_exec_layers(packages: Map<Text, PackageView>, rules: Rules) -> Map<
    Text,
    LayerView,
> {
    Map::new(
        |name: Text| names_exec_layer(packages, name),
        |name: Text| exec_layer(packages, rules, package_of_exec(name)),
    )
}

/// Plans the build layers.
pub fn build_layers(
    local_packages: &Packages,
    ignore: &NameSet,
    package_resolvers: &Vec<(String, String)>,
    default_resolver: &str,
) -> (layers: Layers)
    ensures
        layers@ == planned_build_layers(
            local_packages@,
            rules_of(*local_packages, *ignore, package_resolvers@, default_resolver),
        ),
        local_packages@.dom().finite(),
{
    let ghost rules = rules_of(*local_packages, *ignore, package_resolvers@, default_resolver);
    let ghost planned = planned_build_layers(local_packages@, rules);
    let mut layers: Layers = NameMap::new();
    let names = local_packages.names();
    let ghost all = texts(names@);
    let mut i: usize = 0;
    assert(layers@ =~= planned.restrict(all.take(0).to_set()));
    while i < names.len()
        invariant
            i <= names.len(),
            all == texts(names@),
            all == sorted(local_packages@.dom()),
            all.to_set() == local_packages@.dom(),
            rules == rules_of(*local_packages, *ignore, package_resolvers@, default_resolver),
            planned == planned_build_layers(local_packages@, rules),
            layers@ == planned.restrict(all.take(i as int).to_set()),
            local_packages@.dom().finite(),
        decreases names.len() - i,
    {
        let name = names[i].as_str();
        let package = local_packages.value_at(i);
        let layer = generate_layer(
            copy(name),
            Source::Path(copy(package.path.as_str())),
            &package.build,
            local_packages,
            ignore,
            package_resolvers,
            default_resolver,
        );
        let ghost view = layer@;
        layers.insert(copy(name), layer);
        proof {
            lemma_set_of_push(all.take(i as int), name@);
            assert(all.take(i as int).push(name@) == all.take(i + 1));
            assert(view == build_layer(local_packages@, rules, name@));
            assert(planned.restrict(all.take(i as int).to_set()).insert(name@, view)
                =~= planned.restrict(all.take(i + 1).to_set()));
        }
        i += 1;
    }
    assert(all.take(names.len() as int) == all);
    assert(planned.restrict(all.to_set()) =~= planned);
    layers
}

/// The run-time layers of the packages in `names`.
spec fn exec_part(planned: Map<Text, LayerView>, names: Set<Text>) -> Map<Text, LayerView> {
    planned.restrict(Set::new(|name: Text| names.contains(package_of_exec(name))))
}

/// Plans the run-time layers.
pub fn exec_layers(
    local_packages: &Packages,
    ignore: &NameSet,
    package_resolvers: &Vec<(String, String)>,
    default_resolver: &str,
) -> (layers: Layers)
    ensures
        layers@ == planned_exec_layers(
            local_packages@,
            rules_of(*local_packages, *ignore, package_resolvers@, default_resolver),
        ),
{
    let ghost rules = rules_of(*local_packages, *ignore, package_resolvers@, default_resolver);
    let ghost planned = planned_exec_layers(local_packages@, rules);
    proof {
        reveal_strlit("_exec");
        assert("_exec"@ == exec_suffix());
    }
    let mut layers: Layers = NameMap::new();
    let names = local_packages.names();
    let ghost all = texts(names@);
    let mut i: usize = 0;
    assert(layers@ =~= exec_part(planned, all.take(0).to_set()));
    while i < names.len()
        invariant
            i <= names.len(),
            all == texts(names@),
            all == sorted(local_packages@.dom()),
            all.to_set() == local_packages@.dom(),
            rules == rules_of(*local_packages, *ignore, package_resolvers@, default_resolver),
            planned == planned_exec_layers(local_packages@, rules),
            "_exec"@ == exec_suffix(),
            layers@ == exec_part(planned, all.take(i as int).to_set()),
        decreases names.len() - i,
    {
        let name = names[i].as_str();
        let package = local_packages.value_at(i);
        let layer_name = copy(name).concat("_exec");
        let layer = generate_layer(
            copy(layer_name.as_str()),
            Source::LayerName(copy(name)),
            &package.run,
            local_packages,
            ignore,
            package_resolvers,
            default_resolver,
        );
        let ghost view = layer@;
        let ghost key = layer_name@;
        layers.insert(layer_name, layer);
        proof {
            lemma_set_of_push(all.take(i as int), name@);
            assert(all.take(i as int).push(name@) == all.take(i + 1));
            assert(key == exec_name(name@));
            assert(package_of_exec(key) == name@);
            assert(view == exec_layer(local_packages@, rules, name@));
            let before = exec_part(planned, all.take(i as int).to_set());
            let after = exec_part(planned, all.take(i + 1).to_set());
            assert(before.insert(key, view) =~= after);
        }
        i += 1;
    }
    assert(all.take(names.len() as int) == all);
    assert(exec_part(planned, all.to_set()) =~= planned);
    layers
}

/// Law: each dependency is met in exactly one way: it is a local package, it is
/// ignored, or the system has to provide it. Nothing else is copied or provided.
pub proof fn law_dependencies_are_met_once(
    dependencies: Seq<Text>,
    local: Set<Text>,
    ignore: Set<Text>,
    name: Text,
)
    ensures
        local_dependencies(dependencies, local).contains(name) <==> dependencies.contains(name)
            && local.contains(name),
        system_dependencies(dependencies, local, ignore).contains(name) <==> dependencies.contains(
            name,
        ) && !local.contains(name) && !ignore.contains(name),
        !(local_dependencies(dependencies, local).contains(name) && system_dependencies(
            dependencies,
            local,
            ignore,
        ).contains(name)),
{
}

/// Law: a dependency with a command of its own that is not blank is resolved with
/// this command, and each command but the common one is of this kind.
pub proof fn law_own_commands(names: Seq<Text>, own: Map<Text, Text>)
    ensures
        forall|name: Text| #[trigger]
            names.contains(name) && own.contains_key(name) && own[name].len() > 0
                ==> own_commands(names, own).contains(expanded(own[name], name)),
        forall|command: Text| #[trigger]
            own_commands(names, own).contains(command) ==> exists|name: Text| #[trigger]
                names.contains(name) && own.contains_key(name) && own[name].len() > 0
                    && command == expanded(own[name], name),
    decreases names.len(),
{
    let commands = own_commands(names, own);
    if names.len() > 0 {
        let front = names.drop_last();
        let last = names.last();
        let before = own_commands(front, own);
        law_own_commands(front, own);
        assert(names[names.len() - 1] == last);
        assert forall|name: Text| front.contains(name) implies names.contains(name) by {
            let k = choose|k: int| 0 <= k < front.len() && front[k] == name;
            assert(names[k] == name);
        }
        assert forall|command: Text| before.contains(command) implies commands.contains(command) by {
            let k = choose|k: int| 0 <= k < before.len() && before[k] == command;
            assert(commands[k] == command);
        }
        assert forall|name: Text| #[trigger]
            names.contains(name) && own.contains_key(name) && own[name].len()
                > 0 implies commands.contains(expanded(own[name], name)) by {
            if name == last {
                assert(commands[before.len() as int] == expanded(own[name], name));
            } else {
                let k = choose|k: int| 0 <= k < names.len() && names[k] == name;
                assert(front[k] == name);
                assert(front.contains(name));
            }
        }
        assert forall|command: Text| #[trigger] commands.contains(command) implies exists|name: Text|
            #[trigger]
            names.contains(name) && own.contains_key(name) && own[name].len() > 0
                && command == expanded(own[name], name) by {
            let k = choose|k: int| 0 <= k < commands.len() && commands[k] == command;
            if k < before.len() {
                assert(before[k] == command);
                assert(before.contains(command));
                let name = choose|name: Text| #[trigger]
                    front.contains(name) && own.contains_key(name) && own[name].len()
                        > 0 && command == expanded(own[name], name);
                assert(names.contains(name));
            } else {
                assert(names.contains(last));
            }
        }
    }
}

/// Law: a layer installs something exactly where the system has to provide
/// something, and the last of its commands is the one for all dependencies
/// without a command of their own.
pub proof fn law_install_commands(
    system: Set<Text>,
    own: Map<Text, Text>,
    default_resolver: Text,
)
    ensures
        install_commands(system, own, default_resolver) is None <==> system
            == Set::<Text>::empty(),
        install_commands(system, own, default_resolver) matches Some(commands) ==> commands.last()
            == common_command(system, own, default_resolver) && commands.drop_last()
            == own_commands(sorted(system), own),
{
    if let Some(commands) = install_commands(system, own, default_resolver) {
        assert(commands.drop_last() == own_commands(sorted(system), own));
    }
}

/// A name with a blank command adds no command.
proof fn lemma_blank_adds_no_command(names: Seq<Text>, at: int, own: Map<Text, Text>)
    requires
        0 <= at < names.len(),
        own.contains_key(names[at]),
        own[names[at]].len() == 0,
    ensures
        own_commands(names, own) == own_commands(names.remove(at), own),
    decreases names.len(),
{
    let rest = names.remove(at);
    if at == names.len() - 1 {
        assert(rest == names.drop_last());
    } else {
        assert(rest.drop_last() == names.drop_last().remove(at));
        assert(rest.last() == names.last());
        lemma_blank_adds_no_command(names.drop_last(), at, own);
    }
}

/// Law: a dependency whose own command is blank is simply not resolved. The other
/// dependencies are installed as if it were not there.
pub proof fn law_blank_resolver_resolves_nothing(
    system: Set<Text>,
    own: Map<Text, Text>,
    default_resolver: Text,
    name: Text,
)
    requires
        system.finite(),
        own.contains_key(name),
        own[name].len() == 0,
    ensures
        own_commands(sorted(system), own) == own_commands(sorted(system.remove(name)), own),
        common_command(system, own, default_resolver) == common_command(
            system.remove(name),
            own,
            default_resolver,
        ),
        system.remove(name) != Set::<Text>::empty() ==> install_commands(
            system,
            own,
            default_resolver,
        ) == install_commands(system.remove(name), own, default_resolver),
{
    assert(system.difference(own.dom()) =~= system.remove(name).difference(own.dom()));
    if system.contains(name) {
        let at = lemma_sorted_without(system, name);
        lemma_blank_adds_no_command(sorted(system), at, own);
    } else {
        assert(system.remove(name) =~= system);
    }
}

/// Those of `names` whose own command is not blank, in order.
spec fn commanded(names: Seq<Text>, own: Map<Text, Text>) -> Seq<Text>
    decreases names.len(),
{
    if names.len() == 0 {
        Seq::empty()
    } else {
        let before = commanded(names.drop_last(), own);
        if own.contains_key(names.last()) && own[names.last()].len() > 0 {
            before.push(names.last())
        } else {
            before
        }
    }
}

proof fn lemma_commanded(names: Seq<Text>, own: Map<Text, Text>)
    requires
        ascending(names),
    ensures
        ascending(commanded(names, own)),
        forall|n: Text| #[trigger]
            commanded(names, own).contains(n) <==> names.contains(n) && own.contains_key(n)
                && own[n].len() > 0,
        own_commands(names, own).len() == commanded(names, own).len(),
        forall|i: int| #![trigger own_commands(names, own)[i]]
            0 <= i < commanded(names, own).len() ==> own_commands(names, own)[i] == expanded(
                own[commanded(names, own)[i]],
                commanded(names, own)[i],
            ),
    decreases names.len(),
{
    if names.len() > 0 {
        let front = names.drop_last();
        let last = names.last();
        let before = commanded(front, own);
        let after = commanded(names, own);
        lemma_commanded(front, own);
        assert(names[names.len() - 1] == last);
        assert forall|n: Text| names.contains(n) <==> front.contains(n) || n == last by {
            if names.contains(n) && n != last {
                let k = choose|k: int| 0 <= k < names.len() && names[k] == n;
                assert(front[k] == n);
            }
            if front.contains(n) {
                let k = choose|k: int| 0 <= k < front.len() && front[k] == n;
                assert(names[k] == n);
            }
        }
        if after.len() > before.len() {
            assert forall|n: Text| after.contains(n) <==> before.contains(n) || n == last by {
                assert(after[before.len() as int] == last);
                if before.contains(n) {
                    let k = choose|k: int| 0 <= k < before.len() && before[k] == n;
                    assert(after[k] == n);
                }
                if after.contains(n) && n != last {
                    let k = choose|k: int| 0 <= k < after.len() && after[k] == n;
                    assert(before[k] == n);
                }
            }
            assert forall|i: int, j: int| 0 <= i < j < after.len() implies text_lt(
                after[i],
                after[j],
            ) by {
                assert(after[i] == before[i]);
                if j == before.len() {
                    assert(before.contains(before[i]));
                    assert(front.contains(before[i]));
                    let k = choose|k: int| 0 <= k < front.len() && front[k] == before[i];
                    assert(names[k] == before[i]);
                } else {
                    assert(after[j] == before[j]);
                }
            }
        }
    }
}

/// Law: the commands that install some dependencies are one for each dependency whose
/// own command is not blank, in ascending order, and then one for all that have no
/// command of their own, in ascending order with a space between each two. The law
/// returns the former dependencies and the latter.
pub proof fn law_all_are_installed(
    system: Set<Text>,
    own: Map<Text, Text>,
    default_resolver: Text,
) -> (parts: (Seq<Text>, Seq<Text>))
    requires
        system.finite(),
    ensures
        ({
            let (single, common) = parts;
            &&& ascending(single) && ascending(common)
            &&& forall|n: Text| #[trigger]
                single.contains(n) <==> system.contains(n) && own.contains_key(n) && own[n].len()
                    > 0
            &&& forall|n: Text| #[trigger]
                common.contains(n) <==> system.contains(n) && !own.contains_key(n)
            &&& install_commands(system, own, default_resolver) is None <==> forall|n: Text|
                !#[trigger] system.contains(n)
            &&& install_commands(system, own, default_resolver) matches Some(commands) ==> {
                &&& commands.len() == single.len() + 1
                &&& forall|i: int|
                    0 <= i < single.len() ==> #[trigger] commands[i] == expanded(
                        own[single[i]],
                        single[i],
                    )
                &&& commands[single.len() as int] == expanded(
                    default_resolver,
                    joined(common, seq![' ']),
                )
            }
        }),
{
    let list = sorted(system);
    lemma_sorted_exists(system);
    let single = commanded(list, own);
    lemma_commanded(list, own);
    let rest = system.difference(own.dom());
    vstd::set_lib::lemma_set_subset_finite(system, rest);
    lemma_sorted_exists(rest);
    let common = sorted(rest);
    assert forall|n: Text| #[trigger]
        single.contains(n) <==> system.contains(n) && own.contains_key(n) && own[n].len() > 0 by {
        assert(list.to_set().contains(n) <==> system.contains(n));
    }
    assert forall|n: Text| #[trigger]
        common.contains(n) <==> system.contains(n) && !own.contains_key(n) by {
        assert(common.to_set().contains(n) <==> rest.contains(n));
    }
    if forall|n: Text| !#[trigger] system.contains(n) {
        assert(system =~= Set::<Text>::empty());
    }
    if let Some(commands) = install_commands(system, own, default_resolver) {
        let before = own_commands(list, own);
        assert forall|i: int| 0 <= i < single.len() implies #[trigger] commands[i] == expanded(
            own[single[i]],
            single[i],
        ) by {
            assert(commands[i] == before[i]);
        }
    }
    (single, common)
}

/// Law: a layer copies exactly from those of its dependencies that are local packages,
/// and installs exactly the others that are not ignored: each with the command of the
/// last pattern that names it, unless that is blank, and those that no pattern names
/// together with the default resolver. The law returns the dependencies with a command
/// of their own and those without.
pub proof fn law_layer_of(
    name: Text,
    source: SourceView,
    dependencies: Seq<Text>,
    rules: Rules,
) -> (parts: (Seq<Text>, Seq<Text>))
    ensures
        ({
            let layer = layer_of(name, source, dependencies, rules);
            let (single, common) = parts;
            &&& layer.name == name
            &&& layer.source == source
            &&& layer.local.finite()
            &&& forall|n: Text| #[trigger]
                layer.local.contains(n) <==> dependencies.contains(n) && rules.local.contains(n)
            &&& ascending(single) && ascending(common)
            &&& forall|n: Text| #[trigger]
                single.contains(n) <==> dependencies.contains(n) && !rules.local.contains(n)
                    && !rules.ignore.contains(n) && (command_for(rules.resolvers, n) matches Some(
                    command,
                ) && command.len() > 0)
            &&& forall|n: Text| #[trigger]
                common.contains(n) <==> dependencies.contains(n) && !rules.local.contains(n)
                    && !rules.ignore.contains(n) && command_for(rules.resolvers, n) is None
            &&& layer.commands is None <==> forall|n: Text| #[trigger]
                dependencies.contains(n) ==> rules.local.contains(n) || rules.ignore.contains(n)
            &&& layer.commands matches Some(commands) ==> {
                &&& commands.len() == single.len() + 1
                &&& forall|i: int|
                    0 <= i < single.len() ==> #[trigger] commands[i] == expanded(
                        command_for(rules.resolvers, single[i]).unwrap(),
                        single[i],
                    )
                &&& commands[single.len() as int] == expanded(
                    rules.default_resolver,
                    joined(common, seq![' ']),
                )
            }
        }),
{
    let system = system_dependencies(dependencies, rules.local, rules.ignore);
    let own = own_resolvers(dependencies.to_set(), rules.resolvers);
    let layer = layer_of(name, source, dependencies, rules);
    vstd::seq_lib::seq_to_set_is_finite(dependencies);
    vstd::set_lib::lemma_set_subset_finite(dependencies.to_set(), system);
    vstd::set_lib::lemma_set_subset_finite(dependencies.to_set(), layer.local);
    let (single, common) = law_all_are_installed(system, own, rules.default_resolver);
    assert forall|n: Text| #[trigger] dependencies.contains(n) implies (system.contains(n)
        <==> !rules.local.contains(n) && !rules.ignore.contains(n)) by {
        assert(dependencies.to_set().contains(n));
    }
    assert forall|n: Text| #[trigger] system.contains(n) implies dependencies.contains(n) by {
        assert(dependencies.to_set().contains(n));
    }
    assert forall|n: Text| #[trigger] layer.local.contains(n) <==> dependencies.contains(n)
        && rules.local.contains(n) by {
        assert(dependencies.to_set().contains(n) <==> dependencies.contains(n));
    }
    assert forall|n: Text| #[trigger] single.contains(n) <==> dependencies.contains(n)
        && !rules.local.contains(n) && !rules.ignore.contains(n) && (command_for(
        rules.resolvers,
        n,
    ) matches Some(command) && command.len() > 0) by {
        assert(dependencies.to_set().contains(n) <==> dependencies.contains(n));
        assert(single.contains(n) <==> system.contains(n) && own.contains_key(n) && own[n].len()
            > 0);
    }
    assert forall|n: Text| #[trigger] common.contains(n) <==> dependencies.contains(n)
        && !rules.local.contains(n) && !rules.ignore.contains(n) && command_for(
        rules.resolvers,
        n,
    ) is None by {
        assert(dependencies.to_set().contains(n) <==> dependencies.contains(n));
        assert(common.contains(n) <==> system.contains(n) && !own.contains_key(n));
    }
    if forall|n: Text| #[trigger]
        dependencies.contains(n) ==> rules.local.contains(n) || rules.ignore.contains(n) {
        assert forall|n: Text| !#[trigger] system.contains(n) by {}
    }
    if layer.commands is None {
        assert forall|n: Text| #[trigger] dependencies.contains(n) implies rules.local.contains(n)
            || rules.ignore.contains(n) by {
            assert(!system.contains(n));
        }
    }
    if let Some(commands) = layer.commands {
        assert forall|i: int| 0 <= i < single.len() implies #[trigger] commands[i] == expanded(
            command_for(rules.resolvers, single[i]).unwrap(),
            single[i],
        ) by {
            assert(single.contains(single[i]));
            assert(own.contains_key(single[i]));
            assert(commands[i] == expanded(own[single[i]], single[i]));
        }
    }
    (single, common)
}

} // verus!
