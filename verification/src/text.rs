//! Text as a sequence of characters, and the few operations on it that the
//! planner needs.

use vstd::prelude::*;
use vstd::string::*;

verus! {

/// The mathematical model of a string.
pub type Text = Seq<char>;

/// The texts of a list of strings.
pub open spec fn texts(list: Seq<String>) -> Seq<Text> {
    list.map_values(|s: String| s@)
}

/// The text of a string, where there is one.
pub open spec fn optional_text(s: Option<String>) -> Option<Text> {
    match s {
        Some(s) => Some(s@),
        None => None,
    }
}

pub broadcast proof fn texts_push(list: Seq<String>, s: String)
    ensures
        #[trigger] texts(list.push(s)) == texts(list).push(s@),
{
}

/// `String::push` appends one character.
pub assume_specification[ String::push ](s: &mut String, c: char)
    ensures
        final(s)@ == old(s)@.push(c),
;

/// The characters of `s`, in order.
pub fn chars_of(s: &str) -> (chars: Vec<char>)
    ensures
        chars@ == s@,
{
    let mut chars: Vec<char> = Vec::new();
    for c in it: s.chars()
        invariant
            chars@ == s@.take(it.index() as int),
            it.seq() == s@,
    {
        chars.push(c);
    }
    assert(s@.take(s@.len() as int) == s@);
    chars
}

/// The characters of `chars` from `from` up to `to`, as a string.
pub fn string_of(chars: &Vec<char>, from: usize, to: usize) -> (s: String)
    requires
        from <= to <= chars.len(),
    ensures
        s@ == chars@.subrange(from as int, to as int),
{
    let mut s = String::new();
    let mut i: usize = from;
    while i < to
        invariant
            from <= i <= to <= chars.len(),
            s@ == chars@.subrange(from as int, i as int),
        decreases to - i,
    {
        s.push(chars[i]);
        i += 1;
        assert(s@ == chars@.subrange(from as int, i as int));
    }
    s
}

/// A string of its own with the text of `s`.
pub fn copy(s: &str) -> (out: String)
    ensures
        out@ == s@,
{
    s.to_owned()
}

/// A list of its own with the texts of `list`.
pub fn copy_list(list: &Vec<String>) -> (out: Vec<String>)
    ensures
        texts(out@) == texts(list@),
{
    broadcast use texts_push;

    let mut out: Vec<String> = Vec::new();
    let mut i: usize = 0;
    while i < list.len()
        invariant
            i <= list.len(),
            texts(out@) == texts(list@).take(i as int),
        decreases list.len() - i,
    {
        let ghost before = out@;
        let s = copy(list[i].as_str());
        out.push(s);
        i += 1;
        assert(texts(out@) == texts(before).push(s@));
        assert(texts(before).push(s@) == texts(list@).take(i as int));
    }
    assert(texts(list@).take(list.len() as int) == texts(list@));
    out
}

/// Whether two strings have the same text.
pub fn same_text(a: &str, b: &str) -> (same: bool)
    ensures
        same == (a@ == b@),
{
    copy(a) == copy(b)
}

/// The texts one after the other, with `separator` between each two.
pub open spec fn joined(list: Seq<Text>, separator: Text) -> Text
    decreases list.len(),
{
    if list.len() == 0 {
        Seq::empty()
    } else if list.len() == 1 {
        list[0]
    } else {
        joined(list.drop_last(), separator) + separator + list.last()
    }
}

/// Joins the strings of `list` with `separator` between each two.
pub fn join(list: &Vec<String>, separator: &str) -> (out: String)
    ensures
        out@ == joined(texts(list@), separator@),
{
    let mut out = String::new();
    let ghost all = texts(list@);
    let mut i: usize = 0;
    while i < list.len()
        invariant
            i <= list.len(),
            all == texts(list@),
            out@ == joined(all.take(i as int), separator@),
        decreases list.len() - i,
    {
        if i > 0 {
            out.append(separator);
        }
        out.append(list[i].as_str());
        i += 1;
        assert(all.take(i as int).drop_last() == all.take(i - 1));
        assert(all.take(i as int).last() == list[i - 1]@);
        assert(i > 1 ==> out@ == joined(all.take(i - 1), separator@) + separator@ + list[i - 1]@);
    }
    assert(all.take(list.len() as int) == all);
    out
}

/// The part of `text` in front of its first `mark` and the part behind it;
/// nothing where `text` has no `mark`.
pub open spec fn split_at_first(text: Text, mark: char) -> Option<(Text, Text)>
    decreases text.len(),
{
    if text.len() == 0 {
        None
    } else if text[0] == mark {
        Some((Seq::empty(), text.skip(1)))
    } else {
        match split_at_first(text.skip(1), mark) {
            Some((front, back)) => Some((seq![text[0]] + front, back)),
            None => None,
        }
    }
}

/// Splits `s` at its first `mark`.
pub fn split_once(s: &str, mark: char) -> (parts: Option<(String, String)>)
    ensures
        match parts {
            Some((front, back)) => split_at_first(s@, mark) == Some((front@, back@)),
            None => split_at_first(s@, mark) is None,
        },
{
    let chars = chars_of(s);
    let mut i: usize = 0;
    assert(s@.skip(0) == s@);
    while i < chars.len()
        invariant
            i <= chars.len(),
            chars@ == s@,
            forall|k: int| 0 <= k < i ==> s@[k] != mark,
            split_at_first(s@, mark) == match split_at_first(s@.skip(i as int), mark) {
                Some((front, back)) => Some((s@.take(i as int) + front, back)),
                None => None,
            },
        decreases chars.len() - i,
    {
        if chars[i] == mark {
            let front = string_of(&chars, 0, i);
            let back = string_of(&chars, i + 1, chars.len());
            assert(s@.skip(i as int).skip(1) == s@.skip(i + 1));
            assert(front@ == s@.take(i as int) + Seq::<char>::empty());
            assert(back@ == s@.skip(i + 1));
            return Some((front, back));
        }
        proof {
            assert(s@.skip(i as int).skip(1) == s@.skip(i + 1));
            if let Some((front, back)) = split_at_first(s@.skip(i + 1), mark) {
                assert(s@.take(i as int) + (seq![s@[i as int]] + front) == s@.take(i + 1) + front);
            }
        }
        i += 1;
    }
    None
}

/// Law: a text splits at a mark exactly where it has the form `front`, mark,
/// `back` with no mark in `front`.
pub proof fn law_split_at_first(text: Text, mark: char, front: Text, back: Text)
    ensures
        split_at_first(text, mark) == Some((front, back)) <==> (text == front.push(mark) + back
            && !front.contains(mark)),
    decreases text.len(),
{
    if text.len() == 0 {
        assert(front.push(mark).len() > 0);
    } else if text[0] == mark {
        if text == front.push(mark) + back && !front.contains(mark) {
            if front.len() > 0 {
                assert(text[0] == front[0]);
                assert(front.contains(mark));
            }
            assert(front == Seq::<char>::empty());
            assert(back == text.skip(1));
        }
        if split_at_first(text, mark) == Some((front, back)) {
            assert(text == front.push(mark) + back);
        }
    } else {
        let rest = text.skip(1);
        if front.len() > 0 {
            law_split_at_first(rest, mark, front.skip(1), back);
        }
        if text == front.push(mark) + back && !front.contains(mark) {
            if front.len() == 0 {
                assert(text[0] == mark);
            }
            assert(rest == front.skip(1).push(mark) + back);
            assert(front == seq![text[0]] + front.skip(1));
            assert forall|c: char| front.skip(1).contains(c) implies front.contains(c) by {
                let k = choose|k: int| 0 <= k < front.skip(1).len() && front.skip(1)[k] == c;
                assert(front[k + 1] == c);
            }
        }
        if split_at_first(text, mark) == Some((front, back)) {
            if let Some((rest_front, rest_back)) = split_at_first(rest, mark) {
                assert(front.skip(1) == rest_front);
            }
            assert(text == seq![text[0]] + rest);
            assert(front == seq![text[0]] + front.skip(1));
            assert(front.push(mark) + back == seq![text[0]] + (front.skip(1).push(mark) + back));
            if front.contains(mark) {
                let k = choose|k: int| 0 <= k < front.len() && front[k] == mark;
                assert(front.skip(1)[k - 1] == mark);
            }
        }
    }
}

/// Law: a text without the mark does not split.
pub proof fn law_split_without_mark(text: Text, mark: char)
    ensures
        split_at_first(text, mark) is None <==> !text.contains(mark),
{
    match split_at_first(text, mark) {
        Some((front, back)) => {
            law_split_at_first(text, mark, front, back);
            assert(text[front.len() as int] == mark);
        },
        None => {
            if text.contains(mark) {
                let k = first_index(text, mark, 0);
                let front = text.take(k);
                assert(text == front.push(mark) + text.skip(k + 1));
                law_split_at_first(text, mark, front, text.skip(k + 1));
            }
        },
    }
}

/// The first position at or behind `from` at which `text` has `mark`.
proof fn first_index(text: Text, mark: char, from: int) -> (k: int)
    requires
        0 <= from <= text.len(),
        text.contains(mark),
        !text.take(from).contains(mark),
    ensures
        0 <= k < text.len(),
        text[k] == mark,
        !text.take(k).contains(mark),
    decreases text.len() - from,
{
    if from == text.len() {
        assert(text.take(from) == text);
        from
    } else if text[from] == mark {
        from
    } else {
        let longer = text.take(from + 1);
        assert forall|i: int| 0 <= i < longer.len() implies longer[i] != mark by {
            if i < from {
                assert(text.take(from)[i] == text[i]);
            }
        }
        first_index(text, mark, from + 1)
    }
}

/// The characters with the Unicode property `White_Space`.
pub open spec fn white_space(c: char) -> bool {
    ||| '\u{9}' <= c <= '\u{d}'
    ||| c == '\u{20}'
    ||| c == '\u{85}'
    ||| c == '\u{a0}'
    ||| c == '\u{1680}'
    ||| '\u{2000}' <= c <= '\u{200a}'
    ||| c == '\u{2028}'
    ||| c == '\u{2029}'
    ||| c == '\u{202f}'
    ||| c == '\u{205f}'
    ||| c == '\u{3000}'
}

/// Whether `c` has the Unicode property `White_Space`.
pub fn is_white_space(c: char) -> (white: bool)
    ensures
        white == white_space(c),
{
    ('\u{9}' <= c && c <= '\u{d}') || c == '\u{20}' || c == '\u{85}' || c == '\u{a0}' || c
        == '\u{1680}' || ('\u{2000}' <= c && c <= '\u{200a}') || c == '\u{2028}' || c == '\u{2029}'
        || c == '\u{202f}' || c == '\u{205f}' || c == '\u{3000}'
}

/// How many characters of `text` come before its first white space.
pub open spec fn word_len(text: Text) -> nat
    decreases text.len(),
{
    if text.len() == 0 || white_space(text[0]) {
        0
    } else {
        1 + word_len(text.skip(1))
    }
}

/// The words of `text`: its longest stretches without white space, in order.
pub open spec fn words(text: Text) -> Seq<Text>
    decreases text.len(),
{
    if text.len() == 0 {
        Seq::empty()
    } else if white_space(text[0]) {
        words(text.skip(1))
    } else {
        proof {
            lemma_word_len(text);
        }
        seq![text.take(word_len(text) as int)] + words(text.skip(word_len(text) as int))
    }
}

/// What `word_len` counts.
pub proof fn lemma_word_len(text: Text)
    ensures
        word_len(text) <= text.len(),
        text.len() > 0 && !white_space(text[0]) ==> word_len(text) > 0,
        forall|k: int| 0 <= k < word_len(text) ==> !white_space(#[trigger] text[k]),
        word_len(text) < text.len() ==> white_space(text[word_len(text) as int]),
    decreases text.len(),
{
    if text.len() > 0 && !white_space(text[0]) {
        let rest = text.skip(1);
        lemma_word_len(rest);
        assert forall|k: int| 0 <= k < word_len(text) implies !white_space(#[trigger] text[k]) by {
            if k > 0 {
                assert(rest[k - 1] == text[k]);
            }
        }
    }
}

/// Splits `s` at its white space.
pub fn split_words(s: &str) -> (out: Vec<String>)
    ensures
        texts(out@) == words(s@),
{
    let chars = chars_of(s);
    let mut out: Vec<String> = Vec::new();
    let mut i: usize = 0;
    assert(s@.skip(0) == s@);
    assert(texts(out@) + words(s@) == words(s@));
    while i < chars.len()
        invariant
            i <= chars.len(),
            chars@ == s@,
            words(s@) == texts(out@) + words(s@.skip(i as int)),
        decreases chars.len() - i,
    {
        let ghost rest = s@.skip(i as int);
        if is_white_space(chars[i]) {
            i += 1;
            assert(rest.skip(1) == s@.skip(i as int));
        } else {
            let start = i;
            let ghost before = out@;
            let ghost len = word_len(rest);
            proof {
                lemma_word_len(rest);
            }
            while i < chars.len() && !is_white_space(chars[i])
                invariant
                    start <= i <= chars.len(),
                    i - start <= len,
                    len == word_len(rest),
                    len <= rest.len(),
                    rest == s@.skip(start as int),
                    chars@ == s@,
                    forall|k: int| 0 <= k < len ==> !white_space(#[trigger] rest[k]),
                    len < rest.len() ==> white_space(rest[len as int]),
                decreases chars.len() - i,
            {
                assert(rest[i - start] == s@[i as int]);
                i += 1;
            }
            assert(i - start == len) by {
                if i - start < len {
                    assert(rest[i - start] == s@[i as int]);
                }
            }
            let word = string_of(&chars, start, i);
            out.push(word);
            proof {
                assert(texts(out@) == texts(before).push(word@));
                assert(word@ == rest.take(len as int));
                assert(rest.skip(len as int) == s@.skip(i as int));
                assert(texts(before) + (seq![word@] + words(s@.skip(i as int))) == texts(
                    before,
                ).push(word@) + words(s@.skip(i as int)));
            }
        }
    }
    assert(s@.skip(i as int) == Seq::<char>::empty());
    assert(texts(out@) + Seq::<Text>::empty() == texts(out@));
    out
}

/// Law: no word is empty, and none holds white space.
pub proof fn law_words(text: Text, k: int)
    requires
        0 <= k < words(text).len(),
    ensures
        words(text)[k].len() > 0,
        forall|i: int| 0 <= i < words(text)[k].len() ==> !white_space(#[trigger] words(text)[k][i]),
    decreases text.len(),
{
    if white_space(text[0]) {
        law_words(text.skip(1), k);
    } else {
        lemma_word_len(text);
        let len = word_len(text) as int;
        if k > 0 {
            law_words(text.skip(len), k - 1);
            assert(words(text)[k] == words(text.skip(len))[k - 1]);
        } else {
            assert(words(text)[0] == text.take(len));
        }
    }
}

/// Law: joining two lists joins each and puts the separator between them. One text
/// alone is joined to itself, and no text to nothing.
pub proof fn law_joined(a: Seq<Text>, b: Seq<Text>, one: Text, separator: Text)
    ensures
        a.len() > 0 && b.len() > 0 ==> joined(a + b, separator) == joined(a, separator) + separator
            + joined(b, separator),
        joined(seq![one], separator) == one,
        joined(Seq::empty(), separator) == Seq::<char>::empty(),
    decreases b.len(),
{
    if a.len() > 0 && b.len() > 0 {
        let all = a + b;
        assert(all.last() == b.last());
        if b.len() == 1 {
            assert(all.drop_last() == a);
        } else {
            assert(all.drop_last() == a + b.drop_last());
            law_joined(a, b.drop_last(), one, separator);
            assert(joined(all, separator) == joined(a, separator) + separator + (joined(
                b.drop_last(),
                separator,
            ) + separator + b.last()));
        }
    }
}

/// Law: each text of a list stands in what they are joined to.
pub proof fn law_joined_holds_each(list: Seq<Text>, separator: Text, i: int) -> (around: (
    Text,
    Text,
))
    requires
        0 <= i < list.len(),
    ensures
        joined(list, separator) == around.0 + list[i] + around.1,
{
    let front = list.take(i);
    let one = seq![list[i]];
    let back = list.skip(i + 1);
    let nothing = Seq::<char>::empty();
    law_joined(front, one + back, list[i], separator);
    law_joined(one, back, list[i], separator);
    assert(list == front + (one + back));
    let before = if i == 0 {
        nothing
    } else {
        joined(front, separator) + separator
    };
    let after = if back.len() == 0 {
        nothing
    } else {
        separator + joined(back, separator)
    };
    if back.len() == 0 {
        assert(one + back == one);
    }
    if i == 0 {
        assert(front + (one + back) == one + back);
    }
    assert(joined(list, separator) == before + list[i] + after);
    (before, after)
}

/// How long the first word is, by what it is.
proof fn lemma_word_len_is(text: Text, len: nat)
    requires
        len <= text.len(),
        forall|k: int| 0 <= k < len ==> !white_space(#[trigger] text[k]),
        len < text.len() ==> white_space(text[len as int]),
    ensures
        word_len(text) == len,
{
    lemma_word_len(text);
    if word_len(text) < len {
        assert(!white_space(text[word_len(text) as int]));
    } else if len < word_len(text) {
        assert(!white_space(text[len as int]));
    }
}

/// Law: the words of a text around a white space are those in front of it and those
/// behind it.
pub proof fn law_words_around_white_space(front: Text, white: char, back: Text)
    requires
        white_space(white),
    ensures
        words(front.push(white) + back) == words(front) + words(back),
    decreases front.len(),
{
    let all = front.push(white) + back;
    if front.len() == 0 {
        assert(all.skip(1) == back);
        assert(words(front) + words(back) == words(back));
    } else if white_space(front[0]) {
        assert(all.skip(1) == front.skip(1).push(white) + back);
        law_words_around_white_space(front.skip(1), white, back);
    } else {
        let len = word_len(front);
        lemma_word_len(front);
        assert forall|k: int| 0 <= k < len implies !white_space(#[trigger] all[k]) by {
            assert(all[k] == front[k]);
        }
        assert(white_space(all[len as int])) by {
            if len < front.len() {
                assert(all[len as int] == front[len as int]);
            }
        }
        lemma_word_len_is(all, len);
        assert(all.take(len as int) == front.take(len as int));
        assert(all.skip(len as int) == front.skip(len as int).push(white) + back);
        law_words_around_white_space(front.skip(len as int), white, back);
        assert(words(all) == seq![front.take(len as int)] + (words(front.skip(len as int))
            + words(back)));
        assert(words(front) + words(back) == seq![front.take(len as int)] + (words(
            front.skip(len as int),
        ) + words(back)));
    }
}

/// Whether `text` is a word: not empty, and without white space.
pub open spec fn is_word(text: Text) -> bool {
    text.len() > 0 && forall|i: int| 0 <= i < text.len() ==> !white_space(#[trigger] text[i])
}

/// Law: a word is its own only word, and nothing has no words.
pub proof fn law_word_is_its_word(word: Text)
    requires
        is_word(word),
    ensures
        words(word) == seq![word],
        words(Seq::empty()) == Seq::<Text>::empty(),
{
    lemma_word_len_is(word, word.len());
    assert(word.take(word.len() as int) == word);
    assert(word.skip(word.len() as int) == Seq::<char>::empty());
    assert(!white_space(word[0]));
    assert(words(Seq::<char>::empty()) == Seq::<Text>::empty());
    assert(seq![word] + Seq::<Text>::empty() == seq![word]);
}

/// Law: words that are joined with a white space are the words of what they are
/// joined to.
pub proof fn law_words_of_joined(list: Seq<Text>, white: char)
    requires
        white_space(white),
        forall|i: int| 0 <= i < list.len() ==> is_word(#[trigger] list[i]),
    ensures
        words(joined(list, seq![white])) == list,
    decreases list.len(),
{
    if list.len() == 0 {
        assert(list == Seq::<Text>::empty());
    } else if list.len() == 1 {
        law_word_is_its_word(list[0]);
        assert(list == seq![list[0]]);
    } else {
        let front = list.drop_last();
        let last = list[list.len() - 1];
        assert forall|i: int| 0 <= i < front.len() implies is_word(#[trigger] front[i]) by {
            assert(front[i] == list[i]);
        }
        law_words_of_joined(front, white);
        law_word_is_its_word(last);
        let before = joined(front, seq![white]);
        assert(joined(list, seq![white]) == before.push(white) + last);
        law_words_around_white_space(before, white, last);
        assert(list == front + seq![last]);
    }
}

} // verus!
