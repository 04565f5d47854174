//! What collapsing white space and ignoring case mean.

use crate::text::{
    block_matches, collapsed, comma_parts, first_chars, has_keyword, lemma_trim_start_push, listed_keywords, lowercase,
    lowercase_texts, occurs, squeezed, texts, trim_end, trim_start, trimmed, trimmed_parts, white_space,
};
use vstd::prelude::*;

verus! {

/// The characters of a text that are no white space, in order.
pub open spec fn without_space(text: Seq<char>) -> Seq<char>
    decreases text.len(),
{
    if text.len() == 0 {
        text
    } else if white_space(text.last()) {
        without_space(text.drop_last())
    } else {
        without_space(text.drop_last()).push(text.last())
    }
}

/// Whether each white space in a text is one space, which no other follows.
pub open spec fn single_spaced(text: Seq<char>) -> bool {
    &&& forall|i: int| 0 <= i < text.len() && white_space(#[trigger] text[i]) ==> text[i] == ' '
    &&& forall|i: int, j: int|
        0 <= i && j == i + 1 && j < text.len() && white_space(#[trigger] text[i]) ==> !white_space(#[trigger] text[j])
}

/// Whether a text neither starts nor ends with white space.
pub open spec fn bare(text: Seq<char>) -> bool {
    text.len() > 0 ==> !white_space(text[0]) && !white_space(text.last())
}

proof fn lemma_squeezed(text: Seq<char>)
    ensures
        single_spaced(squeezed(text)),
        text.len() > 0 ==> squeezed(text).len() > 0 && white_space(squeezed(text).last()) == white_space(text.last()),
        without_space(squeezed(text)) == without_space(text),
    decreases text.len(),
{
    if text.len() > 0 {
        let shorter = text.drop_last();
        lemma_squeezed(shorter);
        let before = squeezed(shorter);
        let c = text.last();
        if shorter.len() > 0 {
            assert(shorter.last() == text[text.len() - 2]);
        }
        assert(before.push(c).drop_last() =~= before);
        assert(before.push(' ').drop_last() =~= before);
    }
}

proof fn lemma_trim_start(text: Seq<char>)
    ensures
        trim_start(text).len() <= text.len(),
        trim_start(text) == text.subrange(text.len() - trim_start(text).len(), text.len() as int),
        trim_start(text).len() > 0 ==> !white_space(trim_start(text)[0]),
        without_space(trim_start(text)) == without_space(text),
    decreases text.len(),
{
    if text.len() > 0 && white_space(text[0]) {
        let rest = text.drop_first();
        lemma_trim_start(rest);
        lemma_without_first(text);
        assert(trim_start(text) =~= text.subrange(text.len() - trim_start(text).len(), text.len() as int));
    } else {
        assert(text =~= text.subrange(0, text.len() as int));
    }
}

proof fn lemma_without_first(text: Seq<char>)
    requires
        text.len() > 0,
        white_space(text[0]),
    ensures
        without_space(text.drop_first()) == without_space(text),
    decreases text.len(),
{
    if text.len() == 1 {
        assert(text.drop_first() =~= text.drop_last());
    } else {
        assert(text.drop_first().drop_last() =~= text.drop_last().drop_first());
        lemma_without_first(text.drop_last());
    }
}

proof fn lemma_trim_end(text: Seq<char>)
    ensures
        trim_end(text).len() <= text.len(),
        trim_end(text) == text.take(trim_end(text).len() as int),
        trim_end(text).len() > 0 ==> !white_space(trim_end(text).last()),
        without_space(trim_end(text)) == without_space(text),
    decreases text.len(),
{
    if text.len() > 0 && white_space(text.last()) {
        lemma_trim_end(text.drop_last());
        assert(trim_end(text) =~= text.take(trim_end(text).len() as int));
    } else {
        assert(text =~= text.take(text.len() as int));
    }
}

/// A collapsed text has no white space at either end, and single spaces between its words. The
/// characters that are no white space stay, in the same order.
pub proof fn law_collapsed_text(text: Seq<char>)
    ensures
        bare(collapsed(text)),
        single_spaced(collapsed(text)),
        without_space(collapsed(text)) == without_space(text),
{
    lemma_squeezed(text);
    let wide = squeezed(text);
    lemma_trim_start(wide);
    let started = trim_start(wide);
    lemma_trim_end(started);
    let c = collapsed(text);
    let k = wide.len() - started.len();
    assert forall|i: int| 0 <= i < c.len() implies #[trigger] c[i] == wide[k + i] by {
        assert(c[i] == started[i]);
    }
    assert forall|i: int, j: int|
        0 <= i && j == i + 1 && j < c.len() && white_space(#[trigger] c[i]) implies !white_space(#[trigger] c[j]) by {
        assert(wide[k + i] == c[i] && wide[k + j] == c[j]);
        assert(k + j == k + i + 1);
    }
    if c.len() > 0 {
        assert(c[0] == started[0]);
    }
}

proof fn lemma_squeeze_nothing(text: Seq<char>)
    requires
        single_spaced(text),
    ensures
        squeezed(text) == text,
    decreases text.len(),
{
    if text.len() > 0 {
        let shorter = text.drop_last();
        assert(single_spaced(shorter)) by {
            assert forall|i: int| 0 <= i < shorter.len() && white_space(#[trigger] shorter[i]) implies shorter[i]
                == ' ' by {
                assert(text[i] == shorter[i]);
            }
            assert forall|i: int, j: int|
                0 <= i && j == i + 1 && j < shorter.len() && white_space(
                    #[trigger] shorter[i],
                ) implies !white_space(#[trigger] shorter[j]) by {
                assert(text[i] == shorter[i] && text[j] == shorter[j]);
            }
        }
        lemma_squeeze_nothing(shorter);
        assert(shorter.push(text.last()) =~= text);
        let last = text.len() - 1;
        assert(text[last] == text.last());
        if text.len() >= 2 && white_space(text[last - 1]) {
            assert(!white_space(text[last]));
        }
    }
}

/// A collapsed text collapses to itself.
pub proof fn law_collapsing_is_idempotent(text: Seq<char>)
    ensures
        collapsed(collapsed(text)) == collapsed(text),
{
    law_collapsed_text(text);
    lemma_squeeze_nothing(collapsed(text));
}

/// Matching ignores how white space is set: texts that collapse alike match alike.
pub proof fn law_matching_ignores_spacing(text: Seq<char>, other: Seq<char>, keywords: Seq<Seq<char>>)
    requires
        collapsed(text) == collapsed(other),
    ensures
        block_matches(text, keywords) == block_matches(other, keywords),
{
}

/// Matching ignores case: keywords that are alike in lower case match alike, and so do texts.
pub proof fn law_matching_ignores_case(
    text: Seq<char>,
    other: Seq<char>,
    keywords: Seq<Seq<char>>,
    others: Seq<Seq<char>>,
)
    requires
        lowercase(collapsed(text)) == lowercase(collapsed(other)),
        lowercase_texts(keywords) == lowercase_texts(others),
    ensures
        block_matches(text, lowercase_texts(keywords)) == block_matches(other, lowercase_texts(others)),
{
}

/// More keywords match no less.
pub proof fn law_more_keywords_match_more(text: Seq<char>, keywords: Seq<Seq<char>>, more: Seq<Seq<char>>)
    requires
        block_matches(text, keywords),
        forall|i: int| 0 <= i < keywords.len() ==> more.contains(#[trigger] keywords[i]),
    ensures
        block_matches(text, more),
{
    let lower = lowercase(collapsed(text));
    let i = choose|i: int| 0 <= i < keywords.len() && keywords[i].len() > 0 && occurs(#[trigger] keywords[i], lower);
    let j = choose|j: int| 0 <= j < more.len() && more[j] == keywords[i];
    assert(more[j].len() > 0 && occurs(more[j], lower));
}

/// A text has a keyword wherever it stands in it: whatever comes directly before or behind it, also
/// in the middle of a word.
pub proof fn law_keyword_is_found_anywhere(a: Seq<char>, b: Seq<char>, keywords: Seq<Seq<char>>, i: int)
    requires
        0 <= i < keywords.len(),
        keywords[i].len() > 0,
    ensures
        has_keyword(a + keywords[i] + b, keywords),
{
    let text = a + keywords[i] + b;
    let at = a.len() as int;
    assert(text.subrange(at, at + keywords[i].len()) =~= keywords[i]);
    assert(occurs(keywords[i], text));
}

/// A text that has a keyword is made of what comes before one that is not empty, of that keyword,
/// and of what comes behind it.
pub proof fn law_keyword_that_is_found_is_there(text: Seq<char>, keywords: Seq<Seq<char>>)
    requires
        has_keyword(text, keywords),
    ensures
        exists|i: int, a: Seq<char>, b: Seq<char>|
            0 <= i < keywords.len() && keywords[i].len() > 0 && text == #[trigger] (a + keywords[i] + b),
{
    let i = choose|i: int| 0 <= i < keywords.len() && keywords[i].len() > 0 && occurs(#[trigger] keywords[i], text);
    let part = keywords[i];
    let at = choose|at: int|
        0 <= at <= text.len() - part.len() && #[trigger] text.subrange(at, at + part.len()) == part;
    let a = text.take(at);
    let b = text.skip((at + part.len()) as int);
    assert(text =~= a + keywords[i] + b) by {
        assert forall|k: int| 0 <= k < text.len() implies text[k] == (a + keywords[i] + b)[k] by {
            if at <= k < at + part.len() {
                assert(text.subrange(at, at + part.len())[k - at] == text[k]);
            }
        }
    }
}

/// A block matches if and only if its text, with white space collapsed and in lower case, is made of
/// a keyword that is not empty and of what comes before and behind it.
pub proof fn law_blocks_match_substrings(text: Seq<char>, keywords: Seq<Seq<char>>)
    ensures
        block_matches(text, keywords) <==> exists|i: int, a: Seq<char>, b: Seq<char>|
            0 <= i < keywords.len() && keywords[i].len() > 0 && lowercase(collapsed(text)) == #[trigger] (a
                + keywords[i] + b),
{
    let lower = lowercase(collapsed(text));
    if block_matches(text, keywords) {
        law_keyword_that_is_found_is_there(lower, keywords);
    }
    if exists|i: int, a: Seq<char>, b: Seq<char>|
        0 <= i < keywords.len() && keywords[i].len() > 0 && lower == #[trigger] (a + keywords[i] + b) {
        let (i, a, b) = choose|i: int, a: Seq<char>, b: Seq<char>|
            0 <= i < keywords.len() && keywords[i].len() > 0 && lower == #[trigger] (a + keywords[i] + b);
        law_keyword_is_found_anywhere(a, b, keywords, i);
    }
}

/// Keywords in lower case are as many as before, each one in its place.
pub proof fn law_each_keyword_in_lower_case(keywords: Seq<Seq<char>>)
    ensures
        lowercase_texts(keywords).len() == keywords.len(),
        forall|i: int| 0 <= i < keywords.len() ==> #[trigger] lowercase_texts(keywords)[i] == lowercase(keywords[i]),
{
}

/// The texts of strings are as many as the strings, each one in its place.
pub proof fn law_each_string_has_its_text(strings: Seq<String>)
    ensures
        texts(strings).len() == strings.len(),
        forall|i: int| 0 <= i < strings.len() ==> #[trigger] texts(strings)[i] == strings[i]@,
{
}

/// Whether a text ends with white space.
spec fn ends_blank(text: Seq<char>) -> bool {
    text.len() > 0 && white_space(text.last())
}

proof fn lemma_squeeze_on(x: Seq<char>, y: Seq<char>, b: Seq<char>)
    requires
        squeezed(x) == squeezed(y),
        ends_blank(x) == ends_blank(y),
    ensures
        squeezed(x + b) == squeezed(y + b),
        ends_blank(x + b) == ends_blank(y + b),
    decreases b.len(),
{
    if b.len() == 0 {
        assert(x + b =~= x);
        assert(y + b =~= y);
    } else {
        let shorter = b.drop_last();
        lemma_squeeze_on(x, y, shorter);
        assert((x + b).drop_last() =~= x + shorter);
        assert((y + b).drop_last() =~= y + shorter);
        lemma_squeeze_last(x + b);
        lemma_squeeze_last(y + b);
        assert((x + b).last() == b.last() && (y + b).last() == b.last());
    }
}

proof fn lemma_squeeze_last(text: Seq<char>)
    requires
        text.len() > 0,
    ensures
        squeezed(text) == (if !white_space(text.last()) {
            squeezed(text.drop_last()).push(text.last())
        } else if ends_blank(text.drop_last()) {
            squeezed(text.drop_last())
        } else {
            squeezed(text.drop_last()).push(' ')
        }),
{
    if text.len() >= 2 {
        assert(text.drop_last().last() == text[text.len() - 2]);
    }
}

proof fn lemma_squeeze_run(a: Seq<char>, space: Seq<char>)
    requires
        space.len() > 0,
        forall|i: int| 0 <= i < space.len() ==> white_space(#[trigger] space[i]),
    ensures
        squeezed(a + space) == squeezed(a.push(' ')),
        ends_blank(a + space),
    decreases space.len(),
{
    let shorter = space.drop_last();
    assert(white_space(space[space.len() - 1]));
    lemma_squeeze_last(a + space);
    lemma_squeeze_last(a.push(' '));
    assert(a.push(' ').drop_last() =~= a);
    assert((a + space).drop_last() =~= a + shorter);
    assert((a + space).last() == space.last());
    if shorter.len() > 0 {
        assert(forall|i: int| 0 <= i < shorter.len() ==> #[trigger] shorter[i] == space[i]);
        lemma_squeeze_run(a, shorter);
    } else {
        assert(a + shorter =~= a);
    }
}

/// A run of white space between other text is as good as one space.
pub proof fn law_white_space_is_one_space(a: Seq<char>, space: Seq<char>, b: Seq<char>)
    requires
        space.len() > 0,
        forall|i: int| 0 <= i < space.len() ==> white_space(#[trigger] space[i]),
    ensures
        collapsed(a + space + b) == collapsed(a.push(' ') + b),
{
    lemma_squeeze_run(a, space);
    lemma_squeeze_on(a + space, a.push(' '), b);
}

proof fn lemma_blank_start(space: Seq<char>, a: Seq<char>)
    requires
        forall|i: int| 0 <= i < space.len() ==> white_space(#[trigger] space[i]),
    ensures
        trim_start(squeezed(space + a)) == trim_start(squeezed(a)),
        a.len() == 0 ==> trim_start(squeezed(space + a)).len() == 0,
    decreases space.len() + a.len(),
{
    if a.len() > 0 {
        let shorter = a.drop_last();
        lemma_blank_start(space, shorter);
        assert((space + a).drop_last() =~= space + shorter);
        assert((space + a).last() == a.last());
        lemma_squeeze_last(space + a);
        lemma_squeeze_last(a);
        lemma_trim_start_push(squeezed(space + shorter), a.last());
        lemma_trim_start_push(squeezed(shorter), a.last());
        lemma_trim_start_push(squeezed(space + shorter), ' ');
        lemma_trim_start_push(squeezed(shorter), ' ');
        if shorter.len() > 0 {
            assert((space + shorter).last() == shorter.last());
        } else if space.len() > 0 {
            assert((space + shorter).last() == space[space.len() - 1]);
        }
    } else if space.len() > 0 {
        let shorter = space.drop_last();
        assert(forall|i: int| 0 <= i < shorter.len() ==> #[trigger] shorter[i] == space[i]);
        assert(white_space(space[space.len() - 1]));
        lemma_blank_start(shorter, a);
        assert(space + a =~= space);
        assert(shorter + a =~= shorter);
        lemma_squeeze_last(space);
        lemma_trim_start_push(squeezed(shorter), ' ');
    } else {
        assert(space + a =~= a);
        assert(squeezed(a) =~= a);
    }
}

proof fn lemma_blank_end(a: Seq<char>, c: char)
    requires
        white_space(c),
    ensures
        collapsed(a.push(c)) == collapsed(a),
{
    assert(a.push(c).drop_last() =~= a);
    lemma_squeeze_last(a.push(c));
    lemma_trim_start_push(squeezed(a), ' ');
    let started = trim_start(squeezed(a));
    assert(started.push(' ').drop_last() =~= started);
    if started.len() == 0 {
        assert(started =~= Seq::<char>::empty());
    }
}

/// White space at either end does not count.
pub proof fn law_white_space_at_the_ends_goes(space: Seq<char>, text: Seq<char>, more: Seq<char>)
    requires
        forall|i: int| 0 <= i < space.len() ==> white_space(#[trigger] space[i]),
        forall|i: int| 0 <= i < more.len() ==> white_space(#[trigger] more[i]),
    ensures
        collapsed(space + text + more) == collapsed(text),
    decreases more.len(),
{
    if more.len() == 0 {
        assert(space + text + more =~= space + text);
        lemma_blank_start(space, text);
    } else {
        let shorter = more.drop_last();
        assert(forall|i: int| 0 <= i < shorter.len() ==> #[trigger] shorter[i] == more[i]);
        law_white_space_at_the_ends_goes(space, text, shorter);
        lemma_blank_end(space + text + shorter, more[more.len() - 1]);
        assert((space + text + shorter).push(more.last()) =~= space + text + more);
    }
}

/// A text whose words are parted by single spaces, with none at either end, stays as it is.
pub proof fn law_collapsed_text_stays(text: Seq<char>)
    requires
        bare(text),
        single_spaced(text),
    ensures
        collapsed(text) == text,
{
    lemma_squeeze_nothing(text);
}

proof fn lemma_parts(a: Seq<char>, b: Seq<char>)
    ensures
        comma_parts(a).len() > 0,
        comma_parts(b).len() > 0,
        comma_parts(a.push(',') + b) == comma_parts(a) + comma_parts(b),
    decreases a.len() + b.len(),
{
    if b.len() > 0 {
        let shorter = b.drop_last();
        lemma_parts(a, shorter);
        let all = a.push(',') + b;
        assert(all.drop_last() =~= a.push(',') + shorter);
        assert(all.last() == b.last());
        let before = comma_parts(a) + comma_parts(shorter);
        assert(before.last() == comma_parts(shorter).last());
        if b.last() == ',' {
            assert(before.push(Seq::empty()) =~= comma_parts(a) + comma_parts(b));
        } else {
            assert(before.drop_last().push(before.last().push(b.last())) =~= comma_parts(a) + comma_parts(b));
        }
    } else {
        if a.len() > 0 {
            lemma_parts(a.drop_last(), Seq::empty());
        }
        assert(a.push(',') + b =~= a.push(','));
        assert(a.push(',').drop_last() =~= a);
        assert(comma_parts(b) =~= seq![Seq::<char>::empty()]);
        assert(comma_parts(a).push(Seq::empty()) =~= comma_parts(a) + comma_parts(b));
    }
}

proof fn lemma_trimmed_of_both(parts: Seq<Seq<char>>, more: Seq<Seq<char>>, n: int)
    requires
        0 <= n <= more.len(),
    ensures
        trimmed_parts(parts + more, parts.len() + n) == trimmed_parts(parts, parts.len() as int) + trimmed_parts(
            more,
            n,
        ),
    decreases n,
{
    if n > 0 {
        lemma_trimmed_of_both(parts, more, n - 1);
        assert((parts + more)[parts.len() + n - 1] == more[n - 1]);
        let before = trimmed_parts(parts, parts.len() as int);
        assert((before + trimmed_parts(more, n - 1)).push(trimmed(more[n - 1])) =~= before + trimmed_parts(
            more,
            n - 1,
        ).push(trimmed(more[n - 1])));
    } else {
        lemma_trimmed_of_first(parts, more, parts.len() as int);
        assert(trimmed_parts(parts, parts.len() as int) + trimmed_parts(more, n) =~= trimmed_parts(
            parts,
            parts.len() as int,
        ));
    }
}

proof fn lemma_trimmed_of_first(parts: Seq<Seq<char>>, more: Seq<Seq<char>>, n: int)
    requires
        n <= parts.len(),
    ensures
        trimmed_parts(parts + more, n) == trimmed_parts(parts, n),
    decreases n,
{
    if n > 0 {
        lemma_trimmed_of_first(parts, more, n - 1);
        assert((parts + more)[n - 1] == parts[n - 1]);
    }
}

/// Commas part a list of keywords: a list that is put together of two, with a comma between them,
/// has the keywords of the first and then those of the second.
pub proof fn law_commas_part_keywords(a: Seq<char>, b: Seq<char>)
    ensures
        listed_keywords(a.push(',') + b) == listed_keywords(a) + listed_keywords(b),
{
    lemma_parts(a, b);
    lemma_trimmed_of_both(comma_parts(a), comma_parts(b), comma_parts(b).len() as int);
}

proof fn lemma_one_part(text: Seq<char>)
    requires
        forall|i: int| 0 <= i < text.len() ==> #[trigger] text[i] != ',',
    ensures
        comma_parts(text) == seq![text],
    decreases text.len(),
{
    if text.len() > 0 {
        let shorter = text.drop_last();
        assert(forall|i: int| 0 <= i < shorter.len() ==> #[trigger] shorter[i] == text[i]);
        lemma_one_part(shorter);
        assert(text[text.len() - 1] != ',');
        assert(shorter.push(text.last()) =~= text);
        assert(comma_parts(text) =~= seq![text]);
    } else {
        assert(text =~= Seq::<char>::empty());
        assert(comma_parts(text) =~= seq![text]);
    }
}

proof fn lemma_trim_blank_start(space: Seq<char>, word: Seq<char>)
    requires
        forall|i: int| 0 <= i < space.len() ==> white_space(#[trigger] space[i]),
        word.len() > 0 ==> !white_space(word[0]),
    ensures
        trim_start(space + word) == word,
    decreases space.len(),
{
    if space.len() > 0 {
        let shorter = space.drop_first();
        assert(forall|i: int| 0 <= i < shorter.len() ==> #[trigger] shorter[i] == space[i + 1]);
        assert(white_space(space[0]));
        assert((space + word).drop_first() =~= shorter + word);
        lemma_trim_blank_start(shorter, word);
    } else {
        assert(space + word =~= word);
    }
}

proof fn lemma_trim_blank_end(word: Seq<char>, space: Seq<char>)
    requires
        forall|i: int| 0 <= i < space.len() ==> white_space(#[trigger] space[i]),
        word.len() > 0 ==> !white_space(word.last()),
    ensures
        trim_end(word + space) == word,
    decreases space.len(),
{
    if space.len() > 0 {
        let shorter = space.drop_last();
        assert(forall|i: int| 0 <= i < shorter.len() ==> #[trigger] shorter[i] == space[i]);
        assert(white_space(space[space.len() - 1]));
        assert((word + space).drop_last() =~= word + shorter);
        lemma_trim_blank_end(word, shorter);
    } else {
        assert(word + space =~= word);
    }
}

/// A part of a list without commas is one keyword, with the white space at its ends cut off. A part
/// that is empty or all white space is none.
pub proof fn law_listed_keyword_is_trimmed(space: Seq<char>, word: Seq<char>, more: Seq<char>)
    requires
        forall|i: int| 0 <= i < space.len() ==> white_space(#[trigger] space[i]),
        forall|i: int| 0 <= i < more.len() ==> white_space(#[trigger] more[i]),
        forall|i: int| 0 <= i < word.len() ==> #[trigger] word[i] != ',',
        bare(word),
    ensures
        listed_keywords(space + word + more) == (if word.len() > 0 {
            seq![word]
        } else {
            Seq::empty()
        }),
{
    let text = space + word + more;
    assert forall|i: int| 0 <= i < text.len() implies #[trigger] text[i] != ',' by {
        if i < space.len() {
            assert(text[i] == space[i]);
        } else if i < space.len() + word.len() {
            assert(text[i] == word[i - space.len()]);
        } else {
            assert(text[i] == more[i - space.len() - word.len()]);
        }
    }
    lemma_one_part(text);
    reveal_with_fuel(trimmed_parts, 2);
    if word.len() > 0 {
        assert(text =~= space + (word + more));
        assert((word + more)[0] == word[0]);
        lemma_trim_blank_start(space, word + more);
        lemma_trim_blank_end(word, more);
    } else {
        let blank = space + more;
        assert(text =~= blank + word);
        assert forall|i: int| 0 <= i < blank.len() implies white_space(#[trigger] blank[i]) by {
            if i < space.len() {
                assert(blank[i] == space[i]);
            } else {
                assert(blank[i] == more[i - space.len()]);
            }
        }
        lemma_trim_blank_start(blank, word);
        assert(trimmed(text).len() == 0);
    }
    assert(listed_keywords(text) =~= (if word.len() > 0 {
        seq![word]
    } else {
        Seq::empty()
    }));
}

/// A clipped text is the begin of the text: all of it, or as many characters as asked for.
pub proof fn law_clipped_text_is_the_begin(text: Seq<char>, n: int)
    requires
        0 <= n,
    ensures
        first_chars(text, n).len() == vstd::math::min(text.len() as int, n),
        first_chars(text, n) == text.take(first_chars(text, n).len() as int),
{
    assert(text.take(text.len() as int) =~= text);
}

} // verus!
