//! Command templates: text in which `{}` stands for arguments.

use crate::text::{copy, join, joined, same_text, texts, Text};
use regex_lite::{Captures, Regex};
use vstd::prelude::*;
use vstd::string::*;

verus! {

/// The pattern of a placeholder: two braces, and the character in front of
/// them where there is one.
pub const PLACEHOLDER: &'static str = r"(.)?\{\}";

/// What the placeholder pattern matches at the start of `text`: how many
/// characters, and which of them stands in front of the braces. The pattern
/// prefers to take a character in front, and its `.` is any character but a
/// line break.
pub open spec fn placeholder_at(text: Text) -> Option<(int, Option<char>)> {
    if text.len() >= 3 && text[0] != '\n' && text[1] == '{' && text[2] == '}' {
        Some((3, Some(text[0])))
    } else if text.len() >= 2 && text[0] == '{' && text[1] == '}' {
        Some((2, None))
    } else {
        None
    }
}

/// What stands in the place of a placeholder: `#` and `\` in front of the
/// braces escape them, any other character stays and the replacement follows.
pub open spec fn substituted(in_front: Option<char>, replacement: Text) -> Text {
    match in_front {
        Some(c) => if c == '#' || c == '\\' {
            seq!['{', '}']
        } else {
            seq![c] + replacement
        },
        None => replacement,
    }
}

/// `template` with each placeholder, from left to right, substituted.
pub open spec fn expanded(template: Text, replacement: Text) -> Text
    decreases template.len(),
{
    if template.len() == 0 {
        Seq::empty()
    } else {
        match placeholder_at(template) {
            Some((len, in_front)) => substituted(in_front, replacement) + expanded(
                template.skip(len),
                replacement,
            ),
            None => seq![template[0]] + expanded(template.skip(1), replacement),
        }
    }
}

/// What stands in the place of a placeholder with the text `in_front` in
/// front of its braces.
pub fn substitute(in_front: Option<&str>, replacement: &str) -> (out: String)
    ensures
        out@ == match in_front {
            Some(front) => if front@ == seq!['#'] || front@ == seq!['\\'] {
                seq!['{', '}']
            } else {
                front@ + replacement@
            },
            None => replacement@,
        },
{
    proof {
        reveal_strlit("#");
        reveal_strlit("\\");
        reveal_strlit("{}");
        assert("#"@ == seq!['#']);
        assert("\\"@ == seq!['\\']);
        assert("{}"@ == seq!['{', '}']);
    }
    match in_front {
        Some(front) => if same_text(front, "#") || same_text(front, "\\") {
            copy("{}")
        } else {
            copy(front).concat(replacement)
        },
        None => copy(replacement),
    }
}

/// `Regex::new` compiles the placeholder pattern, which it does not refuse.
/// `Regex::replace_all` replaces the leftmost match, then the leftmost one
/// behind it, and so on, and keeps the text between them. The captured group is
/// the one character in front of the braces, and each match is replaced by
/// what `substitute` returns for it.
#[verifier::external_body]
fn replace_all(pattern: &str, template: &str, replacement: &str) -> (out: String)
    requires
        pattern@ == PLACEHOLDER@,
    ensures
        out@ == expanded(template@, replacement@),
{
    let regex = Regex::new(pattern).unwrap();
    regex.replace_all(template, |captures: &Captures| {
        substitute(captures.get(1).map(|m| m.as_str()), replacement)
    }).into_owned()
}

/// Resolves a templated command: each placeholder `{}` stands for `args`,
/// with a space between each two.
pub fn resolve_commands(resolver: &str, args: &Vec<String>) -> (resolved: String)
    ensures
        resolved@ == expanded(resolver@, joined(texts(args@), seq![' '])),
{
    proof {
        reveal_strlit(" ");
        assert(" "@ == seq![' ']);
    }
    let replacement = join(args, " ");
    replace_all(PLACEHOLDER, resolver, replacement.as_str())
}

/// The two braces of a placeholder.
pub open spec fn braces() -> Text {
    seq!['{', '}']
}

/// Whether `c` in front of a placeholder escapes it.
pub open spec fn escapes(c: char) -> bool {
    c == '#' || c == '\\'
}

/// Law: braces that nothing escapes are replaced, wherever they stand, and what
/// stands before and behind them is resolved as if it stood alone.
pub proof fn law_unescaped_braces_are_replaced(front: Text, back: Text, replacement: Text)
    requires
        front.len() > 0 ==> !escapes(front.last()),
    ensures
        expanded(front + braces() + back, replacement) == expanded(front, replacement)
            + replacement + expanded(back, replacement),
    decreases front.len(),
{
    let all = front + braces() + back;
    if front.len() == 0 {
        assert(all.skip(2) == back);
        assert(expanded(front, replacement) + replacement == replacement);
    } else {
        match placeholder_at(front) {
            Some((len, in_front)) => {
                assert(placeholder_at(all) == Some((len, in_front)));
                assert(all.skip(len) == front.skip(len) + braces() + back);
                law_unescaped_braces_are_replaced(front.skip(len), back, replacement);
                assert(expanded(all, replacement) == substituted(in_front, replacement) + (expanded(
                    front.skip(len),
                    replacement,
                ) + replacement + expanded(back, replacement)));
            },
            None => {
                if front.len() == 1 && front[0] != '\n' {
                    assert(placeholder_at(all) == Some((3int, Some(front[0]))));
                    assert(all.skip(3) == back);
                    assert(front.skip(1) == Seq::<char>::empty());
                    assert(expanded(front.skip(1), replacement) == Seq::<char>::empty());
                    assert(expanded(front, replacement) == seq![front[0]]);
                } else {
                    assert(placeholder_at(all) is None);
                    assert(all.skip(1) == front.skip(1) + braces() + back);
                    law_unescaped_braces_are_replaced(front.skip(1), back, replacement);
                    assert(expanded(all, replacement) == seq![front[0]] + (expanded(
                        front.skip(1),
                        replacement,
                    ) + replacement + expanded(back, replacement)));
                }
            },
        }
    }
}

/// Law: braces behind `#` or `\` stay, wherever they stand, without the
/// character that escapes them.
pub proof fn law_escaped_braces_stay(front: Text, escape: char, back: Text, replacement: Text)
    requires
        escapes(escape),
    ensures
        expanded(front.push(escape) + braces() + back, replacement) == expanded(front, replacement)
            + braces() + expanded(back, replacement),
    decreases front.len(),
{
    let all = front.push(escape) + braces() + back;
    if front.len() == 0 {
        assert(all.skip(3) == back);
        assert(expanded(front, replacement) + braces() == braces());
    } else {
        match placeholder_at(front) {
            Some((len, in_front)) => {
                assert(placeholder_at(all) == Some((len, in_front)));
                assert(all.skip(len) == front.skip(len).push(escape) + braces() + back);
                law_escaped_braces_stay(front.skip(len), escape, back, replacement);
                assert(expanded(all, replacement) == substituted(in_front, replacement) + (expanded(
                    front.skip(len),
                    replacement,
                ) + braces() + expanded(back, replacement)));
            },
            None => {
                assert(placeholder_at(all) is None);
                assert(all.skip(1) == front.skip(1).push(escape) + braces() + back);
                law_escaped_braces_stay(front.skip(1), escape, back, replacement);
                assert(expanded(all, replacement) == seq![front[0]] + (expanded(
                    front.skip(1),
                    replacement,
                ) + braces() + expanded(back, replacement)));
            },
        }
    }
}

/// Law: a command without braces is its own resolution.
pub proof fn law_without_braces_nothing_changes(template: Text, replacement: Text)
    requires
        forall|i: int| #![trigger template[i]]
            0 <= i < template.len() - 1 && template[i] == '{' ==> template[i + 1] != '}',
    ensures
        expanded(template, replacement) == template,
    decreases template.len(),
{
    if template.len() > 0 {
        let rest = template.skip(1);
        assert(template.len() >= 3 ==> template[1] == '{' ==> template[2] != '}');
        assert(placeholder_at(template) is None);
        assert forall|i: int| #![trigger rest[i]]
            0 <= i < rest.len() - 1 && rest[i] == '{' implies rest[i + 1] != '}' by {
            assert(template[i + 1] == rest[i]);
        }
        law_without_braces_nothing_changes(rest, replacement);
        assert(seq![template[0]] + rest == template);
    }
}

/// Law: the braces of a placeholder are `{}`, and only `#` and `\` escape them.
pub proof fn law_placeholder(c: char)
    ensures
        braces() == seq!['{', '}'],
        escapes(c) <==> c == '#' || c == '\\',
{
}

} // verus!
