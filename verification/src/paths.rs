//! Where packages and files are.
//!
//! Paths are taken apart by the crate `camino`, by the rules of the platform.
//! The rules are the same on every platform for paths without a backslash, without
//! two slashes at the start and without a colon behind the first letter, and only of
//! such paths is anything said.

use crate::text::{
    chars_of, copy, law_split_without_mark, optional_text, split_once, string_of, Text,
};
use camino::Utf8Path;
use vstd::prelude::*;
use vstd::string::*;

verus! {

/// The name of the file that describes a package.
pub const MANIFEST: &'static str = "package.xml";

/// What a backup's extension adds to that of the file.
pub const BACKUP: &'static str = "bak";

/// Whether every platform takes `path` apart in the same way.
pub open spec fn portable(path: Text) -> bool {
    &&& !path.contains('\\')
    &&& !(path.len() >= 2 && path[0] == '/' && path[1] == '/')
    &&& !(path.len() >= 2 && path[1] == ':')
}

/// Whether every platform takes `path`, and what is left of it from any of its parts
/// on, apart in the same way.
pub open spec fn portable_parts(path: Text) -> bool {
    &&& portable(path)
    &&& forall|i: int| 2 <= i < path.len() && #[trigger] path[i] == ':' ==> path[i - 2] != '/'
}

/// The part of `path` behind its last slash.
pub open spec fn last_part(path: Text) -> Text
    decreases path.len(),
{
    if path.len() == 0 || path.last() == '/' {
        Seq::empty()
    } else {
        last_part(path.drop_last()).push(path.last())
    }
}

/// The part of `path` in front of its first slash.
pub open spec fn first_part(path: Text) -> Text
    decreases path.len(),
{
    if path.len() == 0 || path[0] == '/' {
        Seq::empty()
    } else {
        seq![path[0]] + first_part(path.skip(1))
    }
}

/// Whether a part of a path names something.
pub open spec fn names_something(part: Text) -> bool {
    part.len() > 0 && part != seq!['.']
}

/// Whether `path` neither starts nor ends with a slash or a part that is a dot.
pub open spec fn trimmed(path: Text) -> bool {
    names_something(first_part(path)) && names_something(last_part(path))
}

/// The path of `rest` in the directory `base`.
pub open spec fn below(base: Text, rest: Text) -> Text {
    if base.last() == '/' {
        base + rest
    } else {
        base.push('/') + rest
    }
}

/// What `Utf8Path::ends_with` returns.
pub uninterp spec fn path_ends_with(path: Text, child: Text) -> bool;

/// `Utf8Path::ends_with` tells whether the last components of a path are those
/// of another one. Where the other one is a single name, that is the last part of
/// the path.
#[verifier::external_body]
fn ends_with(path: &str, child: &str) -> (ends: bool)
    ensures
        portable(path@) && portable(child@) ==> ends == path_ends_with(path@, child@),
        portable(path@) && names_something(last_part(path@)) && portable(child@)
            && !child@.contains('/') && names_something(child@) && child@ != seq!['.', '.'] ==> ends
            == (last_part(path@) == child@),
{
    Utf8Path::new(path).ends_with(child)
}

/// What `Utf8Path::strip_prefix` returns.
pub uninterp spec fn path_below(path: Text, base: Text) -> Option<Text>;

/// `Utf8Path::strip_prefix` returns the path that gives `path` when it is joined
/// to `base`, or an error where `path` is not in `base`. What it returns is a part
/// of `path` that does not start with a slash, or all of it.
#[verifier::external_body]
fn strip_prefix(path: &str, base: &str) -> (rest: Option<String>)
    ensures
        portable(path@) && portable(base@) ==> optional_text(rest) == path_below(path@, base@),
        portable_parts(path@) ==> (rest matches Some(r) ==> portable(r@)),
        forall|r: Text| #![trigger below(base@, r)]
            portable(path@) && base@.len() > 0 && trimmed(r) && path@ == below(base@, r)
                ==> optional_text(rest) == Some(r),
{
    Utf8Path::new(path).strip_prefix(base).ok().map(|rest| rest.as_str().to_string())
}

/// What `Utf8Path::parent` returns.
pub uninterp spec fn path_parent(path: Text) -> Option<Text>;

/// `Utf8Path::parent` returns the path without its last component, or nothing
/// where it ends in a root.
#[verifier::external_body]
fn parent(path: &str) -> (directory: Option<String>)
    ensures
        portable(path@) ==> optional_text(directory) == path_parent(path@),
        portable(path@) && names_something(path@) && !path@.contains('/') ==> optional_text(
            directory,
        ) == Some(Seq::<char>::empty()),
        forall|d: Text, file: Text| #![trigger d.push('/') + file]
            portable(path@) && names_something(last_part(d)) && names_something(file)
                && !file.contains('/') && path@ == d.push('/') + file ==> optional_text(directory)
                == Some(d),
{
    Utf8Path::new(path).parent().map(|directory| directory.as_str().to_string())
}

/// Whether `name` is two dots, or two dots and an extension.
pub open spec fn starts_with_parent(name: Text) -> bool {
    name.len() >= 2 && name[0] == '.' && name[1] == '.' && !name.skip(2).contains('.')
}

/// Whether the last part of `path` is the name of a file, and what is in front of
/// its extension still names a file.
pub open spec fn names_file(path: Text) -> bool {
    names_something(last_part(path)) && !starts_with_parent(last_part(path))
}

/// The part of `name` behind its last dot.
pub open spec fn behind_dot(name: Text) -> Text
    decreases name.len(),
{
    if name.len() == 0 || name.last() == '.' {
        Seq::empty()
    } else {
        behind_dot(name.drop_last()).push(name.last())
    }
}

/// The extension of the file `name`: what is behind its last dot, where it has a
/// dot elsewhere than at the start.
pub open spec fn extension_of(name: Text) -> Option<Text> {
    if name.skip(1).contains('.') {
        Some(behind_dot(name))
    } else {
        None
    }
}

/// The path of a file with `extension` in the place of its own.
pub open spec fn replaced_extension(path: Text, extension: Text) -> Text {
    match extension_of(last_part(path)) {
        Some(own) => path.take(path.len() - own.len()) + extension,
        None => path.push('.') + extension,
    }
}

/// What `Utf8Path::extension` returns.
pub uninterp spec fn path_extension(path: Text) -> Option<Text>;

/// `Utf8Path::extension` returns the extension of the last component of a path,
/// where it has one. It is a part of that component, so it holds no separator of the
/// platform; which characters are separators on other paths is left unsaid.
#[verifier::external_body]
fn extension(path: &str) -> (extension: Option<String>)
    ensures
        portable(path@) ==> optional_text(extension) == path_extension(path@),
        portable(path@) && names_file(path@) ==> optional_text(extension) == extension_of(
            last_part(path@),
        ),
        portable(path@) ==> (extension matches Some(e) ==> !e@.contains('/') && !e@.contains(
            '\\',
        )),
{
    Utf8Path::new(path).extension().map(|extension| extension.to_string())
}

/// What `Utf8Path::with_extension` returns.
pub uninterp spec fn path_with_extension(path: Text, extension: Text) -> Text;

/// `Utf8Path::with_extension` returns the path with the extension in the place of
/// its own, or added where it has none. A file name such as `..a` loses its
/// extension, for what is left is the parent directory and gets none. The function
/// panics where the extension holds a separator of the platform.
#[verifier::external_body]
fn with_extension(path: &str, extension: &str) -> (out: String)
    requires
        !extension@.contains('/'),
        !extension@.contains('\\'),
    ensures
        portable(path@) ==> out@ == path_with_extension(path@, extension@),
        portable(path@) && names_file(path@) && extension@.len() > 0 ==> out@
            == replaced_extension(path@, extension@),
{
    Utf8Path::new(path).with_extension(extension).into_string()
}

/// Whether the file at `path` describes a package.
pub fn is_manifest(path: &str) -> (is: bool)
    ensures
        portable(path@) ==> is == path_ends_with(path@, MANIFEST@),
        portable(path@) && names_something(last_part(path@)) ==> is == (last_part(path@)
            == MANIFEST@),
{
    proof {
        lemma_manifest();
    }
    ends_with(path, MANIFEST)
}

proof fn lemma_manifest()
    ensures
        portable(MANIFEST@),
        !MANIFEST@.contains('/'),
        names_something(MANIFEST@),
        MANIFEST@ != seq!['.', '.'],
{
    reveal_strlit("package.xml");
    assert(MANIFEST@.len() == 11);
}

/// Why a package has no directory.
#[derive(Debug, PartialEq, Eq)]
pub enum PathError {
    /// its description is not where the search began
    Outside,
    /// its description is in no directory
    NoParent,
}

/// The directory of the package that the file at `path` describes, as seen from
/// `target`, where the search began.
pub open spec fn directory_of(path: Text, target: Text) -> Result<Text, PathError> {
    match path_below(path, target) {
        Some(rest) => match path_parent(rest) {
            Some(directory) => Ok(directory),
            None => Err(PathError::NoParent),
        },
        None => Err(PathError::Outside),
    }
}

/// What a package's directory is, by what was left of the path of its description
/// and the parent of that.
pub fn directory_from(
    rest: Option<String>,
    directory: Option<String>,
) -> (result: Result<String, PathError>)
    ensures
        match result {
            Ok(d) => rest is Some && optional_text(directory) == Some(d@),
            Err(PathError::Outside) => rest is None,
            Err(PathError::NoParent) => rest is Some && directory is None,
        },
{
    match rest {
        Some(_) => match directory {
            Some(directory) => Ok(directory),
            None => Err(PathError::NoParent),
        },
        None => Err(PathError::Outside),
    }
}

proof fn lemma_first_part(front: Text, back: Text)
    ensures
        first_part(front.push('/') + back) == first_part(front),
    decreases front.len(),
{
    let all = front.push('/') + back;
    if front.len() > 0 && front[0] != '/' {
        assert(all.skip(1) == front.skip(1).push('/') + back);
        lemma_first_part(front.skip(1), back);
    }
}

proof fn lemma_last_part(front: Text, back: Text)
    requires
        !back.contains('/'),
    ensures
        last_part(front.push('/') + back) == back,
    decreases back.len(),
{
    let all = front.push('/') + back;
    if back.len() == 0 {
        assert(all.last() == '/');
    } else {
        assert(all.drop_last() == front.push('/') + back.drop_last());
        assert(all.last() == back[back.len() - 1]);
        assert forall|c: char| back.drop_last().contains(c) implies back.contains(c) by {
            let k = choose|k: int| 0 <= k < back.drop_last().len() && back.drop_last()[k] == c;
            assert(back[k] == c);
        }
        lemma_last_part(front, back.drop_last());
        assert(back == back.drop_last().push(back.last()));
    }
}

proof fn lemma_part_without_slash(part: Text)
    requires
        !part.contains('/'),
    ensures
        first_part(part) == part,
        last_part(part) == part,
    decreases part.len(),
{
    if part.len() > 0 {
        assert(part[0] != '/' && part[part.len() - 1] != '/');
        assert forall|c: char| part.skip(1).contains(c) implies part.contains(c) by {
            let k = choose|k: int| 0 <= k < part.skip(1).len() && part.skip(1)[k] == c;
            assert(part[k + 1] == c);
        }
        assert forall|c: char| part.drop_last().contains(c) implies part.contains(c) by {
            let k = choose|k: int| 0 <= k < part.drop_last().len() && part.drop_last()[k] == c;
            assert(part[k] == c);
        }
        lemma_part_without_slash(part.skip(1));
        lemma_part_without_slash(part.drop_last());
        assert(part == seq![part[0]] + part.skip(1));
        assert(part == part.drop_last().push(part.last()));
    }
}

/// The description of the package in `directory`, which is below `target`; the
/// empty directory is `target` itself.
pub open spec fn manifest_in(target: Text, directory: Text) -> Text {
    below(
        target,
        if directory.len() == 0 {
            MANIFEST@
        } else {
            directory.push('/') + MANIFEST@
        },
    )
}

/// Whether every platform takes what is left of `path` below `target` apart in the
/// same way.
pub open spec fn portable_below(path: Text, target: Text) -> bool {
    match path_below(path, target) {
        Some(rest) => portable(rest),
        None => true,
    }
}

/// The directory of the package that the file at `path` describes, as seen from
/// `target`, where the search began.
pub fn package_directory(path: &str, target: &str) -> (result: Result<String, PathError>)
    ensures
        portable(path@) && portable(target@) && (portable_parts(path@) || portable_below(
            path@,
            target@,
        )) ==> directory_of(path@, target@) == (match result {
            Ok(directory) => Ok(directory@),
            Err(error) => Err(error),
        }),
        forall|directory: Text| #![trigger manifest_in(target@, directory)]
            portable(path@) && target@.len() > 0 && (directory.len() == 0 || trimmed(directory))
                && portable(directory) && path@ == manifest_in(target@, directory) ==> (
            result matches Ok(d) && d@ == directory),
{
    let rest = strip_prefix(path, target);
    let directory = match &rest {
        Some(rest) => parent(rest.as_str()),
        None => None,
    };
    proof {
        lemma_manifest();
        assert forall|d: Text| #![trigger manifest_in(target@, d)]
            portable(path@) && target@.len() > 0 && (d.len() == 0 || trimmed(d)) && portable(d)
                && path@ == manifest_in(target@, d) implies rest is Some && optional_text(directory) == Some(
            d,
        ) by {
            let r = if d.len() == 0 {
                MANIFEST@
            } else {
                d.push('/') + MANIFEST@
            };
            if d.len() == 0 {
                lemma_part_without_slash(MANIFEST@);
                assert(d == Seq::<char>::empty());
            } else {
                lemma_first_part(d, MANIFEST@);
                lemma_last_part(d, MANIFEST@);
            }
            assert(trimmed(r));
            assert(portable(r)) by {
                if d.len() > 0 {
                    lemma_contains_sum(d.push('/'), MANIFEST@, '\\');
                    lemma_contains_sum(d, seq!['/'], '\\');
                    assert(d.push('/') == d + seq!['/']);
                    assert(r[0] == d[0]);
                    assert(r[1] == (if d.len() == 1 {
                        '/'
                    } else {
                        d[1]
                    }));
                    assert(d[0] != '/');
                }
            }
            assert(path@ == below(target@, r));
            assert(optional_text(rest) == Some(r));
        }
    }
    directory_from(rest, directory)
}

/// The extension of a backup, by that of the file.
pub open spec fn longer_extension(extension: Option<Text>) -> Text {
    match extension {
        Some(own) => own + BACKUP@,
        None => BACKUP@,
    }
}

/// The extension of a backup, by that of the file.
pub fn backup_extension(extension: Option<String>) -> (longer: String)
    ensures
        longer@ == longer_extension(optional_text(extension)),
{
    match extension {
        Some(own) => own.concat(BACKUP),
        None => copy(BACKUP),
    }
}

proof fn lemma_last_part_is_at_the_end(path: Text)
    ensures
        last_part(path).len() <= path.len(),
        path == path.take(path.len() - last_part(path).len()) + last_part(path),
    decreases path.len(),
{
    if path.len() > 0 && path.last() != '/' {
        let front = path.drop_last();
        lemma_last_part_is_at_the_end(front);
        assert(front == front.take(front.len() - last_part(front).len()) + last_part(front));
        assert(path == front.push(path.last()));
        assert(front.take(front.len() - last_part(front).len()) == path.take(
            path.len() - last_part(path).len(),
        ));
    } else {
        assert(path.take(path.len() as int) == path);
    }
}

proof fn lemma_behind_dot_is_at_the_end(name: Text)
    ensures
        behind_dot(name).len() <= name.len(),
        name == name.take(name.len() - behind_dot(name).len()) + behind_dot(name),
    decreases name.len(),
{
    if name.len() > 0 && name.last() != '.' {
        let front = name.drop_last();
        lemma_behind_dot_is_at_the_end(front);
        assert(front == front.take(front.len() - behind_dot(front).len()) + behind_dot(front));
        assert(name == front.push(name.last()));
        assert(front.take(front.len() - behind_dot(front).len()) == name.take(
            name.len() - behind_dot(name).len(),
        ));
    } else {
        assert(name.take(name.len() as int) == name);
    }
}

/// A longer extension makes the path as much longer.
proof fn lemma_longer_extension(path: Text)
    ensures
        replaced_extension(path, longer_extension(extension_of(last_part(path)))) == (
        if last_part(path).skip(1).contains('.') {
            path + BACKUP@
        } else {
            path.push('.') + BACKUP@
        }),
{
    let name = last_part(path);
    if let Some(own) = extension_of(name) {
        lemma_last_part_is_at_the_end(path);
        lemma_behind_dot_is_at_the_end(name);
        let front = path.take(path.len() - name.len());
        assert(path == front + name);
        assert(path.take(path.len() - own.len()) + own == path) by {
            assert(name == name.take(name.len() - own.len()) + own);
            assert(path.take(path.len() - own.len()) == front + name.take(name.len() - own.len()));
        }
        assert(path.take(path.len() - own.len()) + (own + BACKUP@) == path + BACKUP@);
    }
}

proof fn lemma_contains_sum(a: Text, b: Text, c: char)
    ensures
        (a + b).contains(c) ==> a.contains(c) || b.contains(c),
{
    if (a + b).contains(c) {
        let k = choose|k: int| 0 <= k < (a + b).len() && (a + b)[k] == c;
        if k < a.len() {
            assert(a[k] == c);
        } else {
            assert(b[k - a.len()] == c);
        }
    }
}

/// Whether `path` ends in the extension of a backup.
pub open spec fn is_backup(path: Text) -> bool {
    path.len() >= 4 && path.skip(path.len() - 4) == seq!['.', 'b', 'a', 'k']
}

/// The path of a backup with the extension `longer`, by its path with the extension
/// `bak`. A path that got no extension gets none.
pub open spec fn lengthened(path: Text, longer: Text) -> Text {
    if is_backup(path) {
        path.take(path.len() - 3) + longer
    } else {
        path
    }
}

/// The path of a backup with the extension `longer`, by its path with the extension
/// `bak`.
pub fn lengthen(path: &str, longer: &str) -> (out: String)
    ensures
        out@ == lengthened(path@, longer@),
{
    let chars = chars_of(path);
    let len: usize = chars.len();
    if len >= 4 && chars[len - 4] == '.' && chars[len - 3] == 'b' && chars[len - 2] == 'a'
        && chars[len - 1] == 'k' {
        assert(path@.skip(len - 4) == seq!['.', 'b', 'a', 'k']);
        assert(path@.take(len - 3) == chars@.subrange(0, len - 3));
        string_of(&chars, 0, len - 3).concat(longer)
    } else {
        proof {
            if is_backup(path@) {
                let end = path@.skip(len - 4);
                assert(end[0] == path@[len - 4] && end[1] == path@[len - 3]);
                assert(end[2] == path@[len - 2] && end[3] == path@[len - 1]);
            }
        }
        copy(path)
    }
}

/// The file that keeps what was in the file at `output` before: one beside it,
/// whose extension ends in `bak`. An extension with a slash or a backslash, which
/// separates nothing where it stands in one, is put in by hand.
pub fn backup_path(output: &str) -> (backup: String)
    ensures
        portable(output@) ==> backup@ == path_with_extension(
            output@,
            longer_extension(path_extension(output@)),
        ),
        portable(output@) && names_file(output@) ==> backup@ == (if last_part(output@).skip(
            1,
        ).contains('.') {
            output@ + BACKUP@
        } else {
            output@.push('.') + BACKUP@
        }),
{
    let own = extension(output);
    let ghost own_text = optional_text(own);
    let longer = backup_extension(own);
    proof {
        reveal_strlit("bak");
        assert(BACKUP@.len() == 3);
        assert(!BACKUP@.contains('/') && !BACKUP@.contains('\\'));
        if let Some(text) = own_text {
            lemma_contains_sum(text, BACKUP@, '/');
            lemma_contains_sum(text, BACKUP@, '\\');
        }
        law_split_without_mark(longer@, '/');
        law_split_without_mark(longer@, '\\');
        lemma_longer_extension(output@);
    }
    if split_once(longer.as_str(), '/').is_some() || split_once(longer.as_str(), '\\').is_some() {
        lengthen(with_extension(output, BACKUP).as_str(), longer.as_str())
    } else {
        with_extension(output, longer.as_str())
    }
}

} // verus!
