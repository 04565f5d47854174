//! Text: white space, case, and the search for keywords.

use vstd::prelude::*;
#[allow(unused_imports)]
use vstd::utf8::{decode_utf8, valid_utf8};

verus! {

/// The characters with the Unicode property White_Space.
pub open spec fn white_space(c: char) -> bool {
    ||| '\u{9}' <= c <= '\u{d}'
    ||| c == '\u{20}'
    ||| c == '\u{85}'
    ||| c == '\u{a0}'
    ||| c == '\u{1680}'
    ||| '\u{2000}' <= c <= '\u{200a}'
    ||| c == '\u{2028}'
    ||| c == '\u{2029}'
    ||| c == '\u{202f}'
    ||| c == '\u{205f}'
    ||| c == '\u{3000}'
}

/// `char::is_whitespace`: whether the character has the Unicode property White_Space.
pub assume_specification[ char::is_whitespace ](c: char) -> (r: bool)
    ensures
        r == white_space(c),
;

/// `String::push`: the character is added at the end.
pub assume_specification[ std::string::String::push ](text: &mut std::string::String, c: char)
    ensures
        final(text)@ == old(text)@.push(c),
;

/// What `str::to_lowercase` makes of a text.
pub uninterp spec fn lowercase(text: Seq<char>) -> Seq<char>;

/// `str::to_lowercase`. Of the result only this is claimed, that it is determined by the text, and
/// that it is empty just where the text is: each character has a lower case of one or more characters.
pub assume_specification[ str::to_lowercase ](text: &str) -> (r: std::string::String)
    ensures
        r@ == lowercase(text@),
        (r@.len() == 0) == (text@.len() == 0),
;

/// What `String::from_utf8_lossy` makes of bytes.
pub uninterp spec fn lossy_text(bytes: Seq<u8>) -> Seq<char>;

/// `String::from_utf8_lossy`: the text that the bytes encode, if they are valid UTF-8. Of other
/// bytes only this is claimed, that the text is determined by them. It is empty just where there are
/// no bytes: what is not valid is replaced by a character.
#[verifier::external_body]
pub(crate) fn from_utf8_lossy(bytes: &[u8]) -> (r: String)
    ensures
        r@ == lossy_text(bytes@),
        valid_utf8(bytes@) ==> r@ == decode_utf8(bytes@),
        (r@.len() == 0) == (bytes@.len() == 0),
{
    String::from_utf8_lossy(bytes).into_owned()
}

/// `str::eq`: whether two texts are the same.
#[verifier::external_body]
pub(crate) fn same_text(left: &str, right: &str) -> (r: bool)
    ensures
        r == (left@ == right@),
{
    left == right
}

/// Whether `part` occurs in `text`.
pub open spec fn occurs(part: Seq<char>, text: Seq<char>) -> bool {
    exists|i: int|
        0 <= i <= text.len() - part.len() && #[trigger] text.subrange(i, i + part.len()) == part
}

/// `str::contains` with a string pattern: whether it occurs in the text.
#[verifier::external_body]
pub(crate) fn contains(text: &str, part: &str) -> (r: bool)
    ensures
        r == occurs(part@, text@),
{
    text.contains(part)
}

/// The text without the white space at its start.
pub open spec fn trim_start(text: Seq<char>) -> Seq<char>
    decreases text.len(),
{
    if text.len() > 0 && white_space(text[0]) {
        trim_start(text.drop_first())
    } else {
        text
    }
}

/// The text without the white space at its end.
pub open spec fn trim_end(text: Seq<char>) -> Seq<char>
    decreases text.len(),
{
    if text.len() > 0 && white_space(text.last()) {
        trim_end(text.drop_last())
    } else {
        text
    }
}

/// The text without the white space at either end.
pub open spec fn trimmed(text: Seq<char>) -> Seq<char> {
    trim_end(trim_start(text))
}

/// The text with one space in the place of each run of white space.
pub open spec fn squeezed(text: Seq<char>) -> Seq<char>
    decreases text.len(),
{
    if text.len() == 0 {
        text
    } else {
        let before = squeezed(text.drop_last());
        if !white_space(text.last()) {
            before.push(text.last())
        } else if text.len() >= 2 && white_space(text[text.len() - 2]) {
            before
        } else {
            before.push(' ')
        }
    }
}

/// The text with one space in the place of each run of white space between words, and none at
/// either end.
pub open spec fn collapsed(text: Seq<char>) -> Seq<char> {
    trimmed(squeezed(text))
}

/// What trimming makes of a text with one more character.
pub proof fn lemma_trim_start_push(text: Seq<char>, c: char)
    ensures
        trim_start(text.push(c)) == (if trim_start(text).len() == 0 {
            if white_space(c) {
                Seq::<char>::empty()
            } else {
                seq![c]
            }
        } else {
            trim_start(text).push(c)
        }),
    decreases text.len(),
{
    reveal_with_fuel(trim_start, 2);
    if text.len() == 0 {
        assert(text.push(c).drop_first() =~= Seq::<char>::empty());
        assert(text.push(c) =~= seq![c]);
    } else if white_space(text[0]) {
        assert(text.push(c).drop_first() =~= text.drop_first().push(c));
        lemma_trim_start_push(text.drop_first(), c);
    }
}

/// Collapse runs of white space to a single space and trim.
pub fn collapse_ws(s: &str) -> (r: String)
    ensures
        r@ == collapsed(s@),
{
    let mut out = String::new();
    let mut pending: bool = false;
    let mut blank: bool = true;
    assert(s@.take(0) =~= Seq::<char>::empty());
    for c in chars: s.chars()
        invariant
            chars.seq() == s@,
            pending == (chars.index() > 0 && white_space(s@[chars.index() - 1])),
            blank == (out@.len() == 0),
            out@.len() > 0 ==> !white_space(out@.last()),
            trim_start(squeezed(s@.take(chars.index()))) == (if pending && out@.len() > 0 {
                out@.push(' ')
            } else {
                out@
            }),
    {
        let ghost before = s@.take(chars.index());
        let ghost after = s@.take(chars.index() + 1);
        assert(after.drop_last() =~= before);
        assert(after.last() == c);
        proof {
            lemma_trim_start_push(squeezed(before), c);
            lemma_trim_start_push(squeezed(before), ' ');
        }
        if c.is_whitespace() {
            pending = true;
        } else {
            if pending && !blank {
                out.push(' ');
            }
            out.push(c);
            pending = false;
            blank = false;
        }
    }
    assert(s@.take(s@.len() as int) =~= s@);
    assert(out@.push(' ').drop_last() =~= out@);
    assert(trim_end(out@) == out@);
    assert(trim_end(out@.push(' ')) == out@) by {
        reveal_with_fuel(trim_end, 2);
    }
    out
}

/// The texts of strings.
pub open spec fn texts(strings: Seq<std::string::String>) -> Seq<Seq<char>> {
    Seq::new(strings.len(), |i: int| strings[i]@)
}

/// Whether one of the keywords that are not empty occurs in the text.
pub open spec fn has_keyword(text: Seq<char>, keywords: Seq<Seq<char>>) -> bool {
    exists|i: int| 0 <= i < keywords.len() && keywords[i].len() > 0 && occurs(#[trigger] keywords[i], text)
}

/// Whether a block with this text matches one of the keywords, which are in lower case.
pub open spec fn block_matches(text: Seq<char>, keywords: Seq<Seq<char>>) -> bool {
    has_keyword(lowercase(collapsed(text)), keywords)
}

/// The texts in lower case.
pub open spec fn lowercase_texts(texts: Seq<Seq<char>>) -> Seq<Seq<char>> {
    Seq::new(texts.len(), |i: int| lowercase(texts[i]))
}

/// Whether one of the keywords that are not empty occurs in the text.
pub fn contains_keyword(text: &str, keywords: &[String]) -> (r: bool)
    ensures
        r == has_keyword(text@, texts(keywords@)),
{
    for i in 0..keywords.len()
        invariant
            forall|j: int|
                0 <= j < i ==> !(texts(keywords@)[j].len() > 0 && occurs(#[trigger] texts(keywords@)[j], text@)),
    {
        assert(texts(keywords@)[i as int] == keywords@[i as int]@);
        if !keywords[i].as_str().is_empty() && contains(text, keywords[i].as_str()) {
            return true;
        }
    }
    false
}

/// Whether the text of a block, with its white space collapsed and in lower case, contains one of
/// the keywords. The keywords have to be in lower case for case to be ignored.
pub fn block_matches_keywords(text: &str, kws: &[String]) -> (r: bool)
    ensures
        r == block_matches(text@, texts(kws@)),
{
    let lower = collapse_ws(text).as_str().to_lowercase();
    contains_keyword(lower.as_str(), kws)
}

/// The keywords in lower case.
pub fn lowercase_keywords(keywords: &[String]) -> (r: Vec<String>)
    ensures
        texts(r@) == lowercase_texts(texts(keywords@)),
        forall|i: int|
            0 <= i < keywords@.len() && (#[trigger] keywords@[i])@.len() > 0 ==> lowercase(keywords@[i]@).len() > 0,
{
    let mut out: Vec<String> = Vec::new();
    for i in 0..keywords.len()
        invariant
            out@.len() == i,
            forall|j: int| 0 <= j < i ==> (#[trigger] out@[j])@ == lowercase(keywords@[j]@),
            forall|j: int|
                0 <= j < i && (#[trigger] keywords@[j])@.len() > 0 ==> lowercase(keywords@[j]@).len() > 0,
    {
        out.push(keywords[i].as_str().to_lowercase());
    }
    assert(texts(out@) =~= lowercase_texts(texts(keywords@)));
    out
}

/// The parts of a text between its commas.
pub open spec fn comma_parts(text: Seq<char>) -> Seq<Seq<char>>
    decreases text.len(),
{
    if text.len() == 0 {
        seq![Seq::empty()]
    } else {
        let before = comma_parts(text.drop_last());
        if text.last() == ',' {
            before.push(Seq::empty())
        } else {
            before.drop_last().push(before.last().push(text.last()))
        }
    }
}

/// The first `n` parts, trimmed, without those that are then empty.
pub open spec fn trimmed_parts(parts: Seq<Seq<char>>, n: int) -> Seq<Seq<char>>
    decreases n,
{
    if n <= 0 {
        Seq::empty()
    } else if trimmed(parts[n - 1]).len() == 0 {
        trimmed_parts(parts, n - 1)
    } else {
        trimmed_parts(parts, n - 1).push(trimmed(parts[n - 1]))
    }
}

/// The keywords in a list that is separated by commas.
pub open spec fn listed_keywords(text: Seq<char>) -> Seq<Seq<char>> {
    trimmed_parts(comma_parts(text), comma_parts(text).len() as int)
}

/// The first parts do not depend on what comes behind them.
proof fn lemma_trimmed_parts(parts: Seq<Seq<char>>, others: Seq<Seq<char>>, n: int)
    requires
        forall|i: int| 0 <= i < n ==> #[trigger] parts[i] == others[i],
    ensures
        trimmed_parts(parts, n) == trimmed_parts(others, n),
    decreases n,
{
    if n > 0 {
        assert(parts[n - 1] == others[n - 1]);
        lemma_trimmed_parts(parts, others, n - 1);
    }
}

/// White space at the end of a text that does not end in white space is trimmed.
proof fn lemma_trim_end(word: Seq<char>, space: Seq<char>)
    requires
        forall|i: int| 0 <= i < space.len() ==> white_space(#[trigger] space[i]),
        word.len() > 0 ==> !white_space(word.last()),
    ensures
        trim_end(word + space) == word,
    decreases space.len(),
{
    if space.len() > 0 {
        let shorter = space.drop_last();
        assert((word + space).last() == space.last());
        assert((word + space).drop_last() =~= word + shorter);
        assert(forall|i: int| 0 <= i < shorter.len() ==> #[trigger] shorter[i] == space[i]);
        lemma_trim_end(word, shorter);
    } else {
        assert(word + space =~= word);
    }
}

/// Adds a text at the end of another.
pub(crate) fn push_text(out: &mut String, text: &str)
    ensures
        final(out)@ == old(out)@ + text@,
{
    let ghost before = out@;
    assert(before + text@.take(0) =~= before);
    for c in chars: text.chars()
        invariant
            chars.seq() == text@,
            out@ == before + text@.take(chars.index()),
    {
        out.push(c);
        assert(out@ =~= before + text@.take(chars.index() + 1));
    }
    assert(text@.take(text@.len() as int) =~= text@);
}

/// The keywords in a list that is separated by commas: what stands between the commas, trimmed,
/// as far as there is something left.
pub fn split_keywords(list: &str) -> (r: Vec<String>)
    ensures
        texts(r@) == listed_keywords(list@),
{
    let mut out: Vec<String> = Vec::new();
    let mut word = String::new();
    let mut space = String::new();
    assert(list@.take(0) =~= Seq::<char>::empty());
    assert(word@ + space@ =~= Seq::<char>::empty());
    assert(comma_parts(Seq::empty()).last() =~= Seq::<char>::empty());
    assert(texts(out@) =~= Seq::<Seq<char>>::empty());
    for c in chars: list.chars()
        invariant
            chars.seq() == list@,
            comma_parts(list@.take(chars.index())).len() > 0,
            texts(out@) == trimmed_parts(
                comma_parts(list@.take(chars.index())),
                comma_parts(list@.take(chars.index())).len() - 1,
            ),
            trim_start(comma_parts(list@.take(chars.index())).last()) == word@ + space@,
            word@.len() == 0 ==> space@.len() == 0,
            word@.len() > 0 ==> !white_space(word@.last()),
            forall|i: int| 0 <= i < space@.len() ==> white_space(#[trigger] space@[i]),
    {
        let ghost before = comma_parts(list@.take(chars.index()));
        let ghost after = comma_parts(list@.take(chars.index() + 1));
        let ghost part = before.last();
        let ghost listed = texts(out@);
        assert(list@.take(chars.index() + 1).drop_last() =~= list@.take(chars.index()));
        assert(list@.take(chars.index() + 1).last() == c);
        proof {
            lemma_trim_end(word@, space@);
            lemma_trim_start_push(part, c);
            lemma_trimmed_parts(before, after, before.len() - 1);
        }
        if c == ',' {
            proof {
                lemma_trimmed_parts(before, after, before.len() as int);
            }
            if !word.as_str().is_empty() {
                out.push(word);
                assert(texts(out@) =~= listed.push(trimmed(part)));
            }
            word = String::new();
            space = String::new();
            assert(after.last() =~= Seq::<char>::empty());
            assert(word@ + space@ =~= Seq::<char>::empty());
        } else {
            assert(after.last() == part.push(c));
            if c.is_whitespace() {
                if !word.as_str().is_empty() {
                    space.push(c);
                }
            } else {
                push_text(&mut word, space.as_str());
                word.push(c);
                space = String::new();
            }
            assert(trim_start(part.push(c)) =~= word@ + space@);
        }
    }
    assert(list@.take(list@.len() as int) =~= list@);
    let ghost parts = comma_parts(list@);
    let ghost listed = texts(out@);
    proof {
        lemma_trim_end(word@, space@);
    }
    if !word.as_str().is_empty() {
        out.push(word);
        assert(texts(out@) =~= listed.push(trimmed(parts.last())));
    }
    out
}

/// The first `n` characters of a text, or all if there are fewer.
pub open spec fn first_chars(text: Seq<char>, n: int) -> Seq<char> {
    if text.len() <= n {
        text
    } else {
        text.take(n)
    }
}

/// The first `n` characters of a text, or all if there are fewer.
pub fn clip(text: &str, n: usize) -> (r: String)
    ensures
        r@ == first_chars(text@, n as int),
{
    let mut out = String::new();
    let mut i: usize = 0;
    for c in chars: text.chars()
        invariant
            chars.seq() == text@,
            i <= n,
            i < n ==> i == chars.index(),
            out@ == first_chars(text@.take(chars.index()), n as int),
            i == n ==> out@.len() == n,
    {
        assert(text@.take(chars.index() + 1).drop_last() =~= text@.take(chars.index()));
        if i < n {
            out.push(c);
            i += 1;
            assert(out@ =~= text@.take(chars.index() + 1));
        } else {
            assert(out@ =~= first_chars(text@.take(chars.index() + 1), n as int));
        }
    }
    assert(text@.take(text@.len() as int) =~= text@);
    out
}

} // verus!
