//! The text of the Dockerfile.

use crate::names::{
    ascending, lemma_ascending_has_no_duplicates, lemma_sorted_exists, sorted, NameSet,
};
use crate::plan::{Dependencies, Layer, LayerView, Layers, Source, SourceView};
use crate::template::{expanded, law_unescaped_braces_are_replaced, resolve_commands};
use crate::text::{
    copy, is_word, join, joined, law_joined_holds_each, law_words_of_joined, split_words, texts,
    words, Text,
};
use vstd::prelude::*;
use vstd::seq_lib::lemma_flatten_concat;
use vstd::string::*;
use vstd::utf8::encode_utf8;

verus! {

/// The name of the layer that all build layers start from.
pub const BUILD_BASE: &'static str = "base";

/// The name of the layer that all run-time layers start from.
pub const EXEC_BASE: &'static str = "base_exec";

/// The line under the heads of included files.
pub const RULE: &'static str =
    "--------------------------------------------------------------------------------";

/// What the layers of a Dockerfile have in common.
#[derive(Debug)]
pub struct Settings {
    /// the image that the base layers start from
    pub base_image: String,
    /// where in each layer the build artifacts are stored
    pub artifact_dir: String,
    /// the command that builds a package
    pub build_command: String,
    /// the command that runs a package
    pub exec_command: String,
}

/// What the settings are.
pub struct SettingsView {
    pub base_image: Text,
    pub artifact_dir: Text,
    pub build_command: Text,
    pub exec_command: Text,
}

impl View for Settings {
    type V = SettingsView;

    open spec fn view(&self) -> SettingsView {
        SettingsView {
            base_image: self.base_image@,
            artifact_dir: self.artifact_dir@,
            build_command: self.build_command@,
            exec_command: self.exec_command@,
        }
    }
}

/// The line that starts the layer `name` from `base`.
pub open spec fn from_line(base: Text, name: Text) -> Text {
    "from "@ + base + " as "@ + name + "\n"@
}

/// The line that runs `command`.
pub open spec fn run_line(command: Text) -> Text {
    "run "@ + command + "\n"@
}

/// The lines that run `commands`, the last one first.
pub open spec fn run_lines(commands: Seq<Text>) -> Text
    decreases commands.len(),
{
    if commands.len() == 0 {
        Seq::empty()
    } else {
        run_line(commands.last()) + run_lines(commands.drop_last())
    }
}

/// The line that copies the artifacts of the layer `local`.
pub open spec fn artifact_line(local: Text, artifact_dir: Text) -> Text {
    "copy --link --from="@ + local + " /package/"@ + artifact_dir + " ./dependencies/"@ + local
        + "/"@ + artifact_dir + "/\n"@
}

/// The lines that copy the artifacts of the layers in `locals`.
pub open spec fn artifact_lines(locals: Seq<Text>, artifact_dir: Text) -> Text
    decreases locals.len(),
{
    if locals.len() == 0 {
        Seq::empty()
    } else {
        artifact_lines(locals.drop_last(), artifact_dir) + artifact_line(
            locals.last(),
            artifact_dir,
        )
    }
}

/// A command in the array form of Docker.
pub open spec fn array_form(command: Text) -> Text {
    "[\""@ + joined(words(command), "\", \""@) + "\"]"@
}

/// Where a package is built.
pub open spec fn package_path(name: Text) -> Text {
    "/package/"@ + name
}

/// The lines that make the layer `name` from its source.
pub open spec fn source_lines(name: Text, source: SourceView, settings: SettingsView) -> Text {
    match source {
        SourceView::Path(path) => "copy "@ + path + " "@ + package_path(name) + "\n"@ + run_line(
            expanded(settings.build_command, package_path(name)),
        ),
        SourceView::LayerName(from) => "copy --link --from="@ + from + " /package/ ./"@ + from
            + "/\n"@ + ("entrypoint "@ + array_form(expanded(settings.exec_command, from)) + "\n"@),
    }
}

/// The lines of a layer that starts from `base`.
pub open spec fn layer_lines(base: Text, layer: LayerView, settings: SettingsView) -> Text {
    let runs = match layer.commands {
        Some(commands) => run_lines(commands),
        None => Seq::empty(),
    };
    "\n"@ + from_line(base, layer.name) + "workdir /package\n"@ + runs + artifact_lines(
        sorted(layer.local),
        settings.artifact_dir,
    ) + source_lines(layer.name, layer.source, settings)
}

/// The lines of the two base layers, which install the top layers.
pub open spec fn base_lines(
    settings: SettingsView,
    build_command: Text,
    exec_command: Text,
) -> Text {
    from_line(settings.base_image, BUILD_BASE@) + run_line(build_command) + "\n"@ + from_line(
        settings.base_image,
        EXEC_BASE@,
    ) + run_line(exec_command)
}

fn append_from_line(out: &mut String, base: &str, name: &str)
    ensures
        final(out)@ == old(out)@ + from_line(base@, name@),
{
    out.append("from ");
    out.append(base);
    out.append(" as ");
    out.append(name);
    out.append("\n");
    assert(out@ == old(out)@ + from_line(base@, name@));
}

fn append_run_line(out: &mut String, command: &str)
    ensures
        final(out)@ == old(out)@ + run_line(command@),
{
    out.append("run ");
    out.append(command);
    out.append("\n");
    assert(out@ == old(out)@ + run_line(command@));
}

fn append_run_lines(out: &mut String, commands: &Vec<String>)
    ensures
        final(out)@ == old(out)@ + run_lines(texts(commands@)),
{
    let ghost before = out@;
    let ghost all = texts(commands@);
    let mut i: usize = commands.len();
    assert(all.take(commands.len() as int) == all);
    while i > 0
        invariant
            i <= commands.len(),
            all == texts(commands@),
            out@ + run_lines(all.take(i as int)) == before + run_lines(all),
        decreases i,
    {
        i -= 1;
        let ghost now = out@;
        append_run_line(out, commands[i].as_str());
        proof {
            assert(all.take(i + 1).drop_last() == all.take(i as int));
            assert(all.take(i + 1).last() == commands[i as int]@);
            assert(now + (run_line(commands[i as int]@) + run_lines(all.take(i as int))) == now
                + run_line(commands[i as int]@) + run_lines(all.take(i as int)));
        }
    }
    assert(out@ + run_lines(all.take(0)) == out@);
}

fn append_artifact_lines(out: &mut String, locals: &NameSet, artifact_dir: &str)
    ensures
        final(out)@ == old(out)@ + artifact_lines(sorted(locals@), artifact_dir@),
{
    let ghost before = out@;
    let names = locals.names();
    let ghost all = texts(names@);
    let mut i: usize = 0;
    assert(out@ == before + artifact_lines(all.take(0), artifact_dir@));
    while i < names.len()
        invariant
            i <= names.len(),
            all == texts(names@),
            out@ == before + artifact_lines(all.take(i as int), artifact_dir@),
        decreases names.len() - i,
    {
        let local = names[i].as_str();
        let ghost now = out@;
        out.append("copy --link --from=");
        out.append(local);
        out.append(" /package/");
        out.append(artifact_dir);
        out.append(" ./dependencies/");
        out.append(local);
        out.append("/");
        out.append(artifact_dir);
        out.append("/\n");
        i += 1;
        proof {
            assert(out@ == now + artifact_line(local@, artifact_dir@));
            assert(all.take(i as int).drop_last() == all.take(i - 1));
            assert(all.take(i as int).last() == local@);
            assert(out@ == before + artifact_lines(all.take(i as int), artifact_dir@));
        }
    }
    assert(all.take(names.len() as int) == all);
}

/// The command in the array form of Docker.
pub fn to_array_form(command: &str) -> (form: String)
    ensures
        form@ == array_form(command@),
{
    let mut form = copy("[\"");
    form.append(join(&split_words(command), "\", \"").as_str());
    form.append("\"]");
    form
}

fn append_source_lines(out: &mut String, name: &str, source: &Source, settings: &Settings)
    ensures
        final(out)@ == old(out)@ + source_lines(name@, source@, settings@),
{
    match source {
        Source::Path(path) => {
            let layer_path = copy("/package/").concat(name);
            out.append("copy ");
            out.append(path.as_str());
            out.append(" ");
            out.append(layer_path.as_str());
            out.append("\n");
            let mut args: Vec<String> = Vec::new();
            args.push(layer_path);
            assert(texts(args@) == seq![package_path(name@)]);
            let command = resolve_commands(settings.build_command.as_str(), &args);
            append_run_line(out, command.as_str());
        },
        Source::LayerName(from) => {
            out.append("copy --link --from=");
            out.append(from.as_str());
            out.append(" /package/ ./");
            out.append(from.as_str());
            out.append("/\n");
            let mut args: Vec<String> = Vec::new();
            args.push(copy(from.as_str()));
            assert(texts(args@) == seq![from@]);
            let command = resolve_commands(settings.exec_command.as_str(), &args);
            out.append("entrypoint ");
            out.append(to_array_form(command.as_str()).as_str());
            out.append("\n");
        },
    }
    assert(out@ == old(out)@ + source_lines(name@, source@, settings@));
}

/// Writes a layer that starts from `base`.
pub fn append_layer(out: &mut String, base: &str, layer: &Layer, settings: &Settings)
    ensures
        final(out)@ == old(out)@ + layer_lines(base@, layer@, settings@),
{
    out.append("\n");
    append_from_line(out, base, layer.name.as_str());
    out.append("workdir /package\n");
    if let Dependencies::Resolved(commands) = &layer.system_dependencies {
        append_run_lines(out, commands);
    }
    append_artifact_lines(out, &layer.local_dependencies, settings.artifact_dir.as_str());
    append_source_lines(out, layer.name.as_str(), &layer.source, settings);
    assert(out@ == old(out)@ + layer_lines(base@, layer@, settings@));
}

/// Why a Dockerfile could not be written.
#[derive(Debug, PartialEq, Eq)]
pub enum LayerError {
    /// a layer should be in either build or exec
    Missing(String),
    /// a layer cannot be in both the build and exec layer sets
    Ambiguous(String),
}

/// Which layer has the error.
pub enum LayerErrorView {
    Missing(Text),
    Ambiguous(Text),
}

impl View for LayerError {
    type V = LayerErrorView;

    open spec fn view(&self) -> LayerErrorView {
        match self {
            LayerError::Missing(name) => LayerErrorView::Missing(name@),
            LayerError::Ambiguous(name) => LayerErrorView::Ambiguous(name@),
        }
    }
}

/// The layer under `name` with what it starts from: a build layer or a run-time
/// layer, but not both.
pub open spec fn layer_under(
    name: Text,
    build: Map<Text, LayerView>,
    run: Map<Text, LayerView>,
) -> Result<(Text, LayerView), LayerErrorView> {
    if build.contains_key(name) && run.contains_key(name) {
        Err(LayerErrorView::Ambiguous(name))
    } else if build.contains_key(name) {
        Ok((BUILD_BASE@, build[name]))
    } else if run.contains_key(name) {
        Ok((EXEC_BASE@, run[name]))
    } else {
        Err(LayerErrorView::Missing(name))
    }
}

/// The lines of the layers under the names of `order`, one after the other, or
/// the error of the first that has one.
pub open spec fn all_layer_lines(
    order: Seq<Text>,
    build: Map<Text, LayerView>,
    run: Map<Text, LayerView>,
    settings: SettingsView,
) -> Result<Text, LayerErrorView>
    decreases order.len(),
{
    if order.len() == 0 {
        Ok(Seq::empty())
    } else {
        match all_layer_lines(order.drop_last(), build, run, settings) {
            Ok(before) => match layer_under(order.last(), build, run) {
                Ok((base, layer)) => Ok(before + layer_lines(base, layer, settings)),
                Err(error) => Err(error),
            },
            Err(error) => Err(error),
        }
    }
}

/// An error stays the error whatever layers follow.
proof fn lemma_error_stays(
    order: Seq<Text>,
    i: int,
    build: Map<Text, LayerView>,
    run: Map<Text, LayerView>,
    settings: SettingsView,
)
    requires
        0 <= i <= order.len(),
        all_layer_lines(order.take(i), build, run, settings) is Err,
    ensures
        all_layer_lines(order, build, run, settings) == all_layer_lines(
            order.take(i),
            build,
            run,
            settings,
        ),
    decreases order.len(),
{
    if i == order.len() {
        assert(order.take(i) == order);
    } else {
        assert(order.drop_last().take(i) == order.take(i));
        lemma_error_stays(order.drop_last(), i, build, run, settings);
    }
}

/// Writes the layers under the names of `order`.
pub fn layers_text(
    order: &Vec<String>,
    build_layers: &Layers,
    exec_layers: &Layers,
    settings: &Settings,
) -> (text: Result<String, LayerError>)
    ensures
        match text {
            Ok(text) => all_layer_lines(texts(order@), build_layers@, exec_layers@, settings@)
                == Ok::<Text, LayerErrorView>(text@),
            Err(error) => all_layer_lines(texts(order@), build_layers@, exec_layers@, settings@)
                == Err::<Text, LayerErrorView>(error@),
        },
{
    let mut out = String::new();
    let ghost all = texts(order@);
    let mut i: usize = 0;
    while i < order.len()
        invariant
            i <= order.len(),
            all == texts(order@),
            all_layer_lines(all.take(i as int), build_layers@, exec_layers@, settings@) == Ok::<
                Text,
                LayerErrorView,
            >(out@),
        decreases order.len() - i,
    {
        let name = order[i].as_str();
        proof {
            assert(all.take(i + 1).drop_last() == all.take(i as int));
            assert(all.take(i + 1).last() == name@);
            if layer_under(name@, build_layers@, exec_layers@) is Err {
                lemma_error_stays(all, i + 1, build_layers@, exec_layers@, settings@);
            }
        }
        match (build_layers.get(name), exec_layers.get(name)) {
            (None, None) => {
                return Err(LayerError::Missing(copy(name)));
            },
            (Some(_), Some(_)) => {
                return Err(LayerError::Ambiguous(copy(name)));
            },
            (Some(layer), None) => {
                append_layer(&mut out, BUILD_BASE, layer, settings);
            },
            (None, Some(layer)) => {
                append_layer(&mut out, EXEC_BASE, layer, settings);
            },
        }
        i += 1;
    }
    assert(all.take(order.len() as int) == all);
    Ok(out)
}

/// The text of the layers under the names of `order`, where none has an error.
pub open spec fn written(
    order: Seq<Text>,
    build: Map<Text, LayerView>,
    run: Map<Text, LayerView>,
    settings: SettingsView,
) -> Text {
    match all_layer_lines(order, build, run, settings) {
        Ok(text) => text,
        Err(_) => Seq::empty(),
    }
}

/// Law: where no layer has an error, the layer under each name of `order` is
/// written right behind those under the names in front of it.
pub proof fn law_layers_are_written_in_order(
    order: Seq<Text>,
    i: int,
    build: Map<Text, LayerView>,
    run: Map<Text, LayerView>,
    settings: SettingsView,
)
    requires
        0 <= i < order.len(),
        all_layer_lines(order, build, run, settings) is Ok,
    ensures
        layer_under(order[i], build, run) matches Ok((base, layer)) && (written(
            order.take(i),
            build,
            run,
            settings,
        ) + layer_lines(base, layer, settings)).is_prefix_of(written(order, build, run, settings)),
    decreases order.len(),
{
    let front = order.drop_last();
    if i == front.len() {
        assert(order.take(i) == front);
    } else {
        law_layers_are_written_in_order(front, i, build, run, settings);
        assert(front.take(i) == order.take(i));
        assert(front[i] == order[i]);
        assert(written(front, build, run, settings).is_prefix_of(
            written(order, build, run, settings),
        ));
    }
}

/// A file that is put in front of the layers.
#[derive(Debug)]
pub struct Include {
    pub name: String,
    pub contents: Vec<u8>,
}

/// What stands in front of an included file.
pub open spec fn include_head(name: Text) -> Text {
    "#--- include `"@ + name + "` ---\n#"@ + RULE@ + "\n"@
}

/// What stands behind an included file.
pub open spec fn include_foot(name: Text) -> Text {
    "\n#--- end `"@ + name + "` ---\n#"@ + RULE@ + "\n\n\n"@
}

/// The included files, each with its head and its foot.
pub open spec fn included(includes: Seq<Include>) -> Seq<u8>
    decreases includes.len(),
{
    if includes.len() == 0 {
        Seq::empty()
    } else {
        let last = includes.last();
        included(includes.drop_last()) + encode_utf8(include_head(last.name@)) + last.contents@
            + encode_utf8(include_foot(last.name@))
    }
}

/// What stands in front of the included file `name`.
pub fn head_of_include(name: &str) -> (head: String)
    ensures
        head@ == include_head(name@),
{
    let mut head = copy("#--- include `");
    head.append(name);
    head.append("` ---\n#");
    head.append(RULE);
    head.append("\n");
    head
}

/// What stands behind the included file `name`.
pub fn foot_of_include(name: &str) -> (foot: String)
    ensures
        foot@ == include_foot(name@),
{
    let mut foot = copy("\n#--- end `");
    foot.append(name);
    foot.append("` ---\n#");
    foot.append(RULE);
    foot.append("\n\n\n");
    foot
}

fn append_bytes(out: &mut Vec<u8>, bytes: &[u8])
    ensures
        final(out)@ == old(out)@ + bytes@,
{
    out.extend_from_slice(bytes);
    assert(out@ == old(out)@ + bytes@);
}

/// The whole Dockerfile: the included files, the base layers with the top layers
/// and the layers of the packages.
pub fn dockerfile(
    includes: &Vec<Include>,
    build_top_layer: &NameSet,
    exec_top_layer: &NameSet,
    default_resolver: &str,
    order: &Vec<String>,
    build_layers: &Layers,
    exec_layers: &Layers,
    settings: &Settings,
) -> (file: Result<Vec<u8>, LayerError>)
    ensures
        match file {
            Ok(bytes) => {
                &&& all_layer_lines(texts(order@), build_layers@, exec_layers@, settings@) matches Ok(
                    layers,
                )
                &&& bytes@ == included(includes@) + encode_utf8(
                    base_lines(
                        settings@,
                        top_layer_command(build_top_layer@, default_resolver@),
                        top_layer_command(exec_top_layer@, default_resolver@),
                    ) + layers,
                )
            },
            Err(error) => all_layer_lines(texts(order@), build_layers@, exec_layers@, settings@)
                == Err::<Text, LayerErrorView>(error@),
        },
{
    let layers = layers_text(order, build_layers, exec_layers, settings)?;
    let build_command = resolve_commands(default_resolver, build_top_layer.names());
    let exec_command = resolve_commands(default_resolver, exec_top_layer.names());
    let mut text = String::new();
    append_from_line(&mut text, settings.base_image.as_str(), BUILD_BASE);
    append_run_line(&mut text, build_command.as_str());
    text.append("\n");
    append_from_line(&mut text, settings.base_image.as_str(), EXEC_BASE);
    append_run_line(&mut text, exec_command.as_str());
    assert(text@ == base_lines(settings@, build_command@, exec_command@));
    text.append(layers.as_str());

    let mut bytes: Vec<u8> = Vec::new();
    let mut i: usize = 0;
    while i < includes.len()
        invariant
            i <= includes.len(),
            bytes@ == included(includes@.take(i as int)),
        decreases includes.len() - i,
    {
        let head = head_of_include(includes[i].name.as_str());
        let foot = foot_of_include(includes[i].name.as_str());
        append_bytes(&mut bytes, head.as_str().as_bytes());
        append_bytes(&mut bytes, includes[i].contents.as_slice());
        append_bytes(&mut bytes, foot.as_str().as_bytes());
        i += 1;
        assert(includes@.take(i as int).drop_last() == includes@.take(i - 1));
        assert(includes@.take(i as int).last() == includes@[i - 1]);
    }
    assert(includes@.take(includes.len() as int) == includes@);
    append_bytes(&mut bytes, text.as_str().as_bytes());
    Ok(bytes)
}

/// The command that installs the names of a top layer.
pub open spec fn top_layer_command(top_layer: Set<Text>, default_resolver: Text) -> Text {
    expanded(default_resolver, joined(sorted(top_layer), seq![' ']))
}

/// The lines of several commands, one after the other.
proof fn lemma_run_lines(commands: Seq<Text>) -> (lines: Seq<Text>)
    ensures
        run_lines(commands) == lines.flatten(),
        lines.len() == commands.len(),
        forall|i: int|
            0 <= i < lines.len() ==> #[trigger] lines[i] == "run "@ + commands[commands.len() - 1
                - i] + "\n"@,
    decreases commands.len(),
{
    if commands.len() == 0 {
        Seq::empty()
    } else {
        let rest = lemma_run_lines(commands.drop_last());
        let first = "run "@ + commands.last() + "\n"@;
        let lines = seq![first] + rest;
        assert(lines.drop_first() == rest);
        assert(lines.first() == first);
        assert forall|i: int| 0 <= i < lines.len() implies #[trigger] lines[i] == "run "@
            + commands[commands.len() - 1 - i] + "\n"@ by {
            if i > 0 {
                assert(lines[i] == rest[i - 1]);
            }
        }
        lines
    }
}

/// The lines of several local dependencies, one after the other.
proof fn lemma_artifact_lines(locals: Seq<Text>, artifact_dir: Text) -> (lines: Seq<Text>)
    ensures
        artifact_lines(locals, artifact_dir) == lines.flatten(),
        lines.len() == locals.len(),
        forall|i: int|
            0 <= i < lines.len() ==> #[trigger] lines[i] == "copy --link --from="@ + locals[i]
                + " /package/"@ + artifact_dir + " ./dependencies/"@ + locals[i] + "/"@
                + artifact_dir + "/\n"@,
    decreases locals.len(),
{
    if locals.len() == 0 {
        Seq::empty()
    } else {
        let front = lemma_artifact_lines(locals.drop_last(), artifact_dir);
        let last = artifact_line(locals.last(), artifact_dir);
        let lines = front.push(last);
        front.lemma_flatten_push(last);
        assert forall|i: int| 0 <= i < lines.len() implies #[trigger] lines[i]
            == "copy --link --from="@ + locals[i] + " /package/"@ + artifact_dir
            + " ./dependencies/"@ + locals[i] + "/"@ + artifact_dir + "/\n"@ by {
            if i < front.len() {
                assert(lines[i] == front[i]);
            }
        }
        lines
    }
}

/// Law: whatever a layer is made from and wherever artifacts are stored, its text is
/// the line that starts it, the working directory, one line for each of its commands,
/// the last one first, one line that copies from each of its local dependencies, and
/// the lines for its source. The law returns the lines of the commands, the local
/// dependencies in ascending order and the lines that copy from them.
pub proof fn law_layer_text(base: Text, layer: LayerView, settings: SettingsView) -> (parts: (
    Seq<Text>,
    Seq<Text>,
    Seq<Text>,
))
    requires
        layer.local.finite(),
    ensures
        ({
            let (runs, locals, copies) = parts;
            let start = "\n"@ + ("from "@ + base + " as "@ + layer.name + "\n"@)
                + "workdir /package\n"@;
            let end = match layer.source {
                SourceView::Path(path) => "copy "@ + path + " "@ + ("/package/"@ + layer.name)
                    + "\n"@ + ("run "@ + expanded(
                    settings.build_command,
                    "/package/"@ + layer.name,
                ) + "\n"@),
                SourceView::LayerName(from) => "copy --link --from="@ + from + " /package/ ./"@
                    + from + "/\n"@ + ("entrypoint "@ + ("[\""@ + joined(
                    words(expanded(settings.exec_command, from)),
                    "\", \""@,
                ) + "\"]"@) + "\n"@),
            };
            &&& layer_lines(base, layer, settings) == start + runs.flatten() + copies.flatten()
                + end
            &&& layer.commands is None ==> runs.len() == 0
            &&& layer.commands matches Some(commands) ==> runs.len() == commands.len() && forall|
                i: int,
            |
                0 <= i < runs.len() ==> #[trigger] runs[i] == "run "@ + commands[commands.len() - 1
                    - i] + "\n"@
            &&& ascending(locals)
            &&& locals.to_set() == layer.local
            &&& locals.len() == layer.local.len()
            &&& copies.len() == locals.len()
            &&& forall|i: int|
                0 <= i < copies.len() ==> #[trigger] copies[i] == "copy --link --from="@
                    + locals[i] + " /package/"@ + settings.artifact_dir + " ./dependencies/"@
                    + locals[i] + "/"@ + settings.artifact_dir + "/\n"@
        }),
{
    let runs = match layer.commands {
        Some(commands) => lemma_run_lines(commands),
        None => Seq::empty(),
    };
    let locals = sorted(layer.local);
    lemma_sorted_exists(layer.local);
    lemma_ascending_has_no_duplicates(locals);
    locals.unique_seq_to_set();
    let copies = lemma_artifact_lines(locals, settings.artifact_dir);
    (runs, locals, copies)
}

/// Law: each command of a layer has its line in the layer's text, and so does each
/// local dependency.
pub proof fn law_layer_text_holds_each(
    base: Text,
    layer: LayerView,
    settings: SettingsView,
    i: int,
    local: Text,
) -> (around: (Text, Text, Text, Text))
    requires
        layer.local.finite(),
    ensures
        layer.commands matches Some(commands) ==> (0 <= i < commands.len() ==> layer_lines(
            base,
            layer,
            settings,
        ) == around.0 + ("run "@ + commands[i] + "\n"@) + around.1),
        layer.local.contains(local) ==> layer_lines(base, layer, settings) == around.2 + (
        "copy --link --from="@ + local + " /package/"@ + settings.artifact_dir
            + " ./dependencies/"@ + local + "/"@ + settings.artifact_dir + "/\n"@) + around.3,
{
    let text = layer_lines(base, layer, settings);
    let (runs, locals, copies) = law_layer_text(base, layer, settings);
    let start = "\n"@ + ("from "@ + base + " as "@ + layer.name + "\n"@) + "workdir /package\n"@;
    let end = source_lines(layer.name, layer.source, settings);
    let (before, after) = match layer.commands {
        Some(commands) => if 0 <= i < commands.len() {
            let (front, back) = lemma_flatten_holds_each(runs, commands.len() - 1 - i);
            let line = runs[commands.len() - 1 - i];
            assert(text == start + (front + line + back) + copies.flatten() + end);
            assert(text == (start + front) + line + (back + copies.flatten() + end));
            (start + front, back + copies.flatten() + end)
        } else {
            (text, text)
        },
        None => (text, text),
    };
    let (ahead, behind) = if layer.local.contains(local) {
        assert(locals.to_set().contains(local));
        let k = choose|k: int| 0 <= k < locals.len() && locals[k] == local;
        let (front, back) = lemma_flatten_holds_each(copies, k);
        assert(text == start + runs.flatten() + (front + copies[k] + back) + end);
        assert(text == (start + runs.flatten() + front) + copies[k] + (back + end));
        (start + runs.flatten() + front, back + end)
    } else {
        (text, text)
    };
    (before, after, ahead, behind)
}

/// Each part of a text that is put together stands in it.
proof fn lemma_flatten_holds_each(parts: Seq<Text>, i: int) -> (around: (Text, Text))
    requires
        0 <= i < parts.len(),
    ensures
        parts.flatten() == around.0 + parts[i] + around.1,
{
    let front = parts.take(i);
    let back = parts.skip(i + 1);
    assert(parts == front.push(parts[i]) + back);
    lemma_flatten_concat(front.push(parts[i]), back);
    front.lemma_flatten_push(parts[i]);
    (front.flatten(), back.flatten())
}

/// Law: the two base layers start from the base image, and each runs its command.
pub proof fn law_base_layers(settings: SettingsView, build_command: Text, exec_command: Text)
    ensures
        base_lines(settings, build_command, exec_command) == ("from "@ + settings.base_image
            + " as "@ + "base"@ + "\n"@) + ("run "@ + build_command + "\n"@) + "\n"@ + ("from "@
            + settings.base_image + " as "@ + "base_exec"@ + "\n"@) + ("run "@ + exec_command
            + "\n"@),
{
}

/// Law: the command of a top layer has all names of the top layer, in ascending order
/// and with a space between each two, where the template has braces that nothing
/// escapes.
pub proof fn law_top_layer_command(top_layer: Set<Text>, front: Text, back: Text)
    requires
        top_layer.finite(),
        front.len() > 0 ==> front.last() != '#' && front.last() != '\\',
    ensures
        ({
            let names = joined(sorted(top_layer), seq![' ']);
            top_layer_command(top_layer, front + seq!['{', '}'] + back) == expanded(front, names)
                + names + expanded(back, names)
        }),
        ascending(sorted(top_layer)),
        sorted(top_layer).to_set() == top_layer,
{
    lemma_sorted_exists(top_layer);
    law_unescaped_braces_are_replaced(front, back, joined(sorted(top_layer), seq![' ']));
}

/// Law: where the names are words, the words of a top layer's command with the
/// template `{}` are exactly the names, each once.
pub proof fn law_top_layer_is_installed(top_layer: Set<Text>)
    requires
        top_layer.finite(),
        forall|name: Text| #[trigger] top_layer.contains(name) ==> is_word(name),
    ensures
        ascending(words(top_layer_command(top_layer, seq!['{', '}']))),
        words(top_layer_command(top_layer, seq!['{', '}'])).to_set() == top_layer,
        words(top_layer_command(top_layer, seq!['{', '}'])).len() == top_layer.len(),
{
    let nothing = Seq::<char>::empty();
    let list = sorted(top_layer);
    let names = joined(list, seq![' ']);
    law_top_layer_command(top_layer, nothing, nothing);
    assert(nothing + seq!['{', '}'] + nothing == seq!['{', '}']);
    assert(expanded(nothing, names) == nothing);
    assert(nothing + names + nothing == names);
    assert forall|i: int| 0 <= i < list.len() implies is_word(#[trigger] list[i]) by {
        assert(list.to_set().contains(list[i]));
        assert(top_layer.contains(list[i]));
    }
    law_words_of_joined(list, ' ');
    lemma_ascending_has_no_duplicates(list);
    list.unique_seq_to_set();
}

/// Law: every name of a top layer stands in the line of its base layer, where the
/// template has braces that nothing escapes.
pub proof fn law_top_layer_holds_each(top_layer: Set<Text>, front: Text, back: Text, name: Text) -> (
    around: (Text, Text))
    requires
        top_layer.finite(),
        top_layer.contains(name),
        front.len() > 0 ==> front.last() != '#' && front.last() != '\\',
    ensures
        top_layer_command(top_layer, front + seq!['{', '}'] + back) == around.0 + name + around.1,
{
    let list = sorted(top_layer);
    let names = joined(list, seq![' ']);
    law_top_layer_command(top_layer, front, back);
    assert(list.to_set().contains(name));
    let k = choose|k: int| 0 <= k < list.len() && list[k] == name;
    let (before, after) = law_joined_holds_each(list, seq![' '], k);
    let start = expanded(front, names);
    let end = expanded(back, names);
    assert(start + (before + name + after) + end == (start + before) + name + (after + end));
    (start + before, after + end)
}

/// Law: what is included in two lists of files is what is included in the first and
/// then what is included in the second.
pub proof fn law_included_in_turn(first: Seq<Include>, second: Seq<Include>)
    ensures
        included(first + second) == included(first) + included(second),
        included(Seq::empty()) == Seq::<u8>::empty(),
    decreases second.len(),
{
    let all = first + second;
    if second.len() == 0 {
        assert(all == first);
        assert(included(first) + included(second) == included(first));
    } else {
        assert(all.last() == second.last());
        assert(all.drop_last() == first + second.drop_last());
        law_included_in_turn(first, second.drop_last());
        let last = second.last();
        let head = encode_utf8(include_head(last.name@));
        let foot = encode_utf8(include_foot(last.name@));
        let a = included(first);
        let b = included(second.drop_last());
        assert(included(all) == (a + b) + head + last.contents@ + foot);
        assert((a + b) + head + last.contents@ + foot == a + (b + head + last.contents@ + foot));
    }
}

/// Law: each included file stands whole, byte for byte, right behind its head and
/// right in front of its foot, behind the files in front of it and in front of those
/// behind it. So no byte of a file is lost and none is added.
pub proof fn law_included_whole(includes: Seq<Include>, i: int)
    requires
        0 <= i < includes.len(),
    ensures
        ({
            let name = includes[i].name@;
            let head = encode_utf8("#--- include `"@ + name + "` ---\n#"@ + RULE@ + "\n"@);
            let foot = encode_utf8("\n#--- end `"@ + name + "` ---\n#"@ + RULE@ + "\n\n\n"@);
            let before = included(includes.take(i));
            let after = included(includes.skip(i + 1));
            &&& included(includes) == before + head + includes[i].contents@ + foot + after
            &&& included(includes).len() == before.len() + head.len() + includes[i].contents@.len()
                + foot.len() + after.len()
        }),
{
    let front = includes.take(i);
    let one = seq![includes[i]];
    let back = includes.skip(i + 1);
    law_included_in_turn(front + one, back);
    law_included_in_turn(front, one);
    assert(includes == front + one + back);
    assert(one.drop_last() == Seq::<Include>::empty());
    assert(included(one.drop_last()) == Seq::<u8>::empty());
    let head = encode_utf8(include_head(includes[i].name@));
    let foot = encode_utf8(include_foot(includes[i].name@));
    assert(included(one) == head + includes[i].contents@ + foot) by {
        assert(one.last() == includes[i]);
        assert(Seq::<u8>::empty() + head == head);
    }
    assert(included(front) + (head + includes[i].contents@ + foot) + included(back) == included(
        front,
    ) + head + includes[i].contents@ + foot + included(back));
}

/// Law: where no layer has an error, the text of the layers is that of the layer
/// under each name of `order`, in order, with nothing before, between or behind them.
/// A build layer starts from `base` and a run-time layer from `base_exec`. The law
/// returns the texts of the layers.
pub proof fn law_layers_in_order(
    order: Seq<Text>,
    build: Map<Text, LayerView>,
    run: Map<Text, LayerView>,
    settings: SettingsView,
) -> (parts: Seq<Text>)
    requires
        all_layer_lines(order, build, run, settings) is Ok,
    ensures
        all_layer_lines(order, build, run, settings) == Ok::<Text, LayerErrorView>(parts.flatten()),
        parts.len() == order.len(),
        forall|i: int|
            0 <= i < order.len() ==> #[trigger] parts[i] == if build.contains_key(order[i]) {
                layer_lines("base"@, build[order[i]], settings)
            } else {
                layer_lines("base_exec"@, run[order[i]], settings)
            },
    decreases order.len(),
{
    if order.len() == 0 {
        Seq::empty()
    } else {
        let front = law_layers_in_order(order.drop_last(), build, run, settings);
        let name = order.last();
        let last = if build.contains_key(name) {
            layer_lines("base"@, build[name], settings)
        } else {
            layer_lines("base_exec"@, run[name], settings)
        };
        let parts = front.push(last);
        front.lemma_flatten_push(last);
        assert forall|i: int| 0 <= i < order.len() implies #[trigger] parts[i]
            == if build.contains_key(order[i]) {
            layer_lines("base"@, build[order[i]], settings)
        } else {
            layer_lines("base_exec"@, run[order[i]], settings)
        } by {
            if i < front.len() {
                assert(parts[i] == front[i]);
                assert(order.drop_last()[i] == order[i]);
            }
        }
        parts
    }
}

/// Law: the layers are written exactly where each name of `order` is that of a build
/// layer or of a run-time layer, but not of both. Otherwise the error names the first
/// that is not, and tells which it is.
pub proof fn law_layer_errors(
    order: Seq<Text>,
    build: Map<Text, LayerView>,
    run: Map<Text, LayerView>,
    settings: SettingsView,
)
    ensures
        match all_layer_lines(order, build, run, settings) {
            Ok(_) => forall|i: int|
                0 <= i < order.len() ==> build.contains_key(#[trigger] order[i])
                    != run.contains_key(order[i]),
            Err(LayerErrorView::Ambiguous(name)) => exists|i: int|
                0 <= i < order.len() && #[trigger] order[i] == name && build.contains_key(name)
                    && run.contains_key(name) && forall|j: int|
                    0 <= j < i ==> build.contains_key(#[trigger] order[j]) != run.contains_key(
                        order[j],
                    ),
            Err(LayerErrorView::Missing(name)) => exists|i: int|
                0 <= i < order.len() && #[trigger] order[i] == name && !build.contains_key(name)
                    && !run.contains_key(name) && forall|j: int|
                    0 <= j < i ==> build.contains_key(#[trigger] order[j]) != run.contains_key(
                        order[j],
                    ),
        },
    decreases order.len(),
{
    if order.len() > 0 {
        let front = order.drop_last();
        let last = order.len() - 1;
        law_layer_errors(front, build, run, settings);
        assert(forall|i: int| 0 <= i < last ==> front[i] == order[i]);
        match all_layer_lines(front, build, run, settings) {
            Ok(_) => {
                assert forall|j: int| 0 <= j < last implies build.contains_key(
                    #[trigger] order[j],
                ) != run.contains_key(order[j]) by {
                    assert(front[j] == order[j]);
                }
                assert(order[last] == order.last());
            },
            Err(LayerErrorView::Ambiguous(name)) => {
                let i = choose|i: int|
                    0 <= i < front.len() && #[trigger] front[i] == name && build.contains_key(name)
                        && run.contains_key(name) && forall|j: int|
                        0 <= j < i ==> build.contains_key(#[trigger] front[j]) != run.contains_key(
                            front[j],
                        );
                assert(order[i] == name);
                assert forall|j: int| 0 <= j < i implies build.contains_key(#[trigger] order[j])
                    != run.contains_key(order[j]) by {
                    assert(front[j] == order[j]);
                }
            },
            Err(LayerErrorView::Missing(name)) => {
                let i = choose|i: int|
                    0 <= i < front.len() && #[trigger] front[i] == name && !build.contains_key(
                        name,
                    ) && !run.contains_key(name) && forall|j: int|
                        0 <= j < i ==> build.contains_key(#[trigger] front[j]) != run.contains_key(
                            front[j],
                        );
                assert(order[i] == name);
                assert forall|j: int| 0 <= j < i implies build.contains_key(#[trigger] order[j])
                    != run.contains_key(order[j]) by {
                    assert(front[j] == order[j]);
                }
            },
        }
    }
}

} // verus!
