//! Packages and layers by the sets of names that they depend on.

use crate::names::{compare, law_order_is_total, text_ordering, NameSet};
use crate::text::{copy, copy_list, same_text, texts, Text};
use std::cmp::Ordering;
use vstd::prelude::*;
use vstd::std_specs::cmp::{PartialEqSpec, PartialOrdSpec};
use vstd::std_specs::convert::FromSpec;

verus! {

/// a colcon `package.xml` description
#[derive(Debug, Clone)]
pub struct ColconPackage {
    pub name: String,
    pub depend: Option<Vec<String>>,
    pub build_depend: Option<Vec<String>>,
    pub exec_depend: Option<Vec<String>>,
}

/// The name of a local dependency or system dependency
#[derive(Eq, Ord, Clone, Debug, Hash)]
pub struct Name(String);

impl View for Name {
    type V = Text;

    closed spec fn view(&self) -> Text {
        self.0@
    }
}

impl From<String> for Name {
    fn from(value: String) -> (name: Name)
        ensures
            name@ == value@,
    {
        Name(value)
    }
}

impl vstd::std_specs::convert::FromSpecImpl<String> for Name {
    open spec fn obeys_from_spec() -> bool {
        true
    }

    closed spec fn from_spec(value: String) -> Name {
        Name(value)
    }
}

impl PartialEq for Name {
    fn eq(&self, other: &Name) -> (r: bool) {
        same_text(self.0.as_str(), other.0.as_str())
    }
}

impl vstd::std_specs::cmp::PartialEqSpecImpl for Name {
    open spec fn obeys_eq_spec() -> bool {
        true
    }

    open spec fn eq_spec(&self, other: &Name) -> bool {
        self@ == other@
    }
}

impl PartialOrd for Name {
    fn partial_cmp(&self, other: &Name) -> (r: Option<Ordering>) {
        Some(compare(self.0.as_str(), other.0.as_str()))
    }
}

impl vstd::std_specs::cmp::PartialOrdSpecImpl for Name {
    open spec fn obeys_partial_cmp_spec() -> bool {
        true
    }

    open spec fn partial_cmp_spec(&self, other: &Name) -> Option<Ordering> {
        Some(text_ordering(self@, other@))
    }
}

/// Law: names are equal and ordered as the strings that they are made from.
pub proof fn law_names_compare_as_their_texts(a: String, b: String)
    ensures
        Name::from_spec(a).eq_spec(&Name::from_spec(b)) <==> a@ == b@,
        Name::from_spec(a).partial_cmp_spec(&Name::from_spec(b)) == Some(text_ordering(a@, b@)),
        text_ordering(a@, b@) == Ordering::Equal <==> a@ == b@,
{
    law_order_is_total(a@, b@);
    law_order_is_total(b@, a@);
}

impl AsRef<str> for Name {
    fn as_ref(&self) -> (text: &str)
        ensures
            text@ == self@,
    {
        self.0.as_str()
    }
}

impl Name {
    /// The text of the name.
    pub fn as_str(&self) -> (text: &str)
        ensures
            text@ == self@,
    {
        self.as_ref()
    }

    /// The name as it is displayed: its text.
    pub fn to_text(&self) -> (text: String)
        ensures
            text@ == self@,
    {
        copy(self.as_str())
    }

    /// The name as it is shown for debugging: its text in quotes, since that it
    /// is a name is mostly redundant.
    pub fn debug_text(&self) -> (text: String)
        ensures
            text@ == debug_shown(self@),
            (forall|i: int| 0 <= i < self@.len() ==> unescaped(#[trigger] self@[i])) ==> text@
                == seq!['"'] + self@ + seq!['"'],
    {
        debug_form(self.as_str())
    }
}

/// The printable ASCII characters that the debug form of a string shows as they
/// are.
pub open spec fn unescaped(c: char) -> bool {
    ' ' <= c <= '~' && c != '"' && c != '\\'
}

/// What `format!` makes of a string with the debug form.
pub uninterp spec fn debug_shown(text: Text) -> Text;

/// `format!` with the debug form of a string puts the text in double quotes, and
/// escapes what would not be readable. Which characters beside the printable ASCII
/// ones it escapes goes by the Unicode tables of the standard library and is left
/// unsaid.
#[verifier::external_body]
fn debug_form(text: &str) -> (out: String)
    ensures
        out@ == debug_shown(text@),
        (forall|i: int| 0 <= i < text@.len() ==> unescaped(#[trigger] text@[i])) ==> out@
            == seq!['"'] + text@ + seq!['"'],
{
    format!("{:?}", text)
}

/// A package: where it is, and what it depends on.
#[derive(Debug)]
pub struct Package {
    pub path: String,
    pub build: NameSet,
    pub run: NameSet,
}

/// The names in an optional list.
pub open spec fn listed(list: Option<Vec<String>>) -> Seq<Text> {
    match list {
        Some(names) => texts(names@),
        None => Seq::empty(),
    }
}

/// The names in two optional lists, those of `first` before those of `second`.
pub fn both(first: &Option<Vec<String>>, second: &Option<Vec<String>>) -> (out: Vec<String>)
    ensures
        texts(out@) == listed(*first) + listed(*second),
{
    let mut out: Vec<String> = Vec::new();
    if let Some(names) = first {
        out = copy_list(names);
    }
    if let Some(names) = second {
        let mut rest = copy_list(names);
        let ghost (front, back) = (out@, rest@);
        out.append(&mut rest);
        assert(texts(out@) == texts(front) + texts(back));
    }
    assert(texts(out@) == listed(*first) + listed(*second));
    out
}

impl Package {
    /// The package at `path` that `colcon_package` describes: what it builds
    /// with and what it runs with, each beside what it depends on for both.
    pub fn from_colcon_package(path: String, colcon_package: ColconPackage) -> (package: Package)
        ensures
            package.path@ == path@,
            package.build@ == (listed(colcon_package.build_depend) + listed(
                colcon_package.depend,
            )).to_set(),
            package.run@ == (listed(colcon_package.exec_depend) + listed(
                colcon_package.depend,
            )).to_set(),
    {
        let build = both(&colcon_package.build_depend, &colcon_package.depend);
        let run = both(&colcon_package.exec_depend, &colcon_package.depend);
        Package { path, build: NameSet::from_list(&build), run: NameSet::from_list(&run) }
    }
}

/// A layer of the Dockerfile.
#[derive(Debug, Eq, PartialEq)]
pub struct Layer {
    pub name: Name,
    pub source: Source,
    pub dependencies: Dependencies,
}

/// a layer either depends on a path, because it uses something from the file system, or a
/// previous layer
#[derive(Debug, Eq, PartialEq)]
pub enum Source {
    Path(String),
    LayerName(Name),
}

/// a layer has either no system dependencies or a list of packages
#[derive(Eq, PartialEq, Debug)]
pub struct Dependencies {
    pub system_dependencies: NameSet,
    pub local_dependencies: NameSet,
}

impl Layer {
    /// Layers are ordered by their names, such that they respect Docker rules.
    pub fn cmp(&self, other: &Layer) -> (r: Ordering)
        ensures
            r == text_ordering(self.name@, other.name@),
    {
        compare(self.name.as_str(), other.name.as_str())
    }
}

impl PartialOrd for Layer {
    fn partial_cmp(&self, other: &Layer) -> (r: Option<Ordering>) {
        Some(self.cmp(other))
    }
}

impl vstd::std_specs::cmp::PartialOrdSpecImpl for Layer {
    open spec fn obeys_partial_cmp_spec() -> bool {
        true
    }

    open spec fn partial_cmp_spec(&self, other: &Layer) -> Option<Ordering> {
        Some(text_ordering(self.name@, other.name@))
    }
}

/// Law: the names in an optional list are those of the list, in order, and none where
/// there is no list.
pub proof fn law_listed(names: Vec<String>)
    ensures
        listed(None) == Seq::<Text>::empty(),
        listed(Some(names)).len() == names@.len(),
        forall|i: int| 0 <= i < names@.len() ==> #[trigger] listed(Some(names))[i] == names@[i]@,
{
}

} // verus!
