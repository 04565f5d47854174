//! Content streams with the same beginning: what is found in it is found in all of them.

use crate::inline_image::{
    after_comments, after_content_space, after_digits, after_hexadecimal, after_name, after_nested, after_operand,
    after_operation, after_operator, after_space, after_string, after_value, bad_image_at, blank, byte_at, comes_to,
    content_space, has_bad_image, lacks_color_space, lemma_after_comments, lemma_after_content_space,
    lemma_after_digits, lemma_after_hexadecimal, lemma_after_name, lemma_after_nested, lemma_after_operand,
    lemma_after_operation, lemma_after_operator, lemma_after_space, lemma_after_string, lemma_after_value,
    lemma_line_end, lemma_words, line_end, marked, no_entries, numeric, operation_at, operator_byte, reaches, regular,
    unescaped, with_image_entry, word_at, ImageEntries,
};
use crate::value::key;
use vstd::prelude::*;

verus! {

/// Whether two content streams agree before position `p`.
spec fn agree(a: Seq<u8>, b: Seq<u8>, p: int) -> bool {
    &&& 0 <= p <= a.len()
    &&& p <= b.len()
    &&& forall|i: int| 0 <= i < p ==> #[trigger] a[i] == b[i]
}

proof fn lemma_same_content_space(a: Seq<u8>, b: Seq<u8>, p: int, x: int)
    requires
        agree(a, b, p),
        0 <= x,
        after_content_space(a, x) < p,
    ensures
        after_content_space(b, x) == after_content_space(a, x),
    decreases a.len() - x,
{
    lemma_after_content_space(a, x);
    assert(a[x] == b[x]);
    if content_space(a[x]) {
        lemma_same_content_space(a, b, p, x + 1);
    }
}

proof fn lemma_same_line_end(a: Seq<u8>, b: Seq<u8>, p: int, x: int)
    requires
        agree(a, b, p),
        0 <= x,
        line_end(a, x) < p,
    ensures
        line_end(b, x) == line_end(a, x),
    decreases a.len() - x,
{
    lemma_line_end(a, x);
    assert(a[x] == b[x]);
    if a[x] != 13 && a[x] != 10 {
        lemma_same_line_end(a, b, p, x + 1);
    }
}

proof fn lemma_same_space(a: Seq<u8>, b: Seq<u8>, p: int, x: int)
    requires
        agree(a, b, p),
        0 <= x,
        after_space(a, x) < p,
        a[after_space(a, x)] != 37,
    ensures
        after_space(b, x) == after_space(a, x),
    decreases a.len() - x,
{
    lemma_after_space(a, x);
    assert(a[x] == b[x]);
    if blank(a[x]) {
        lemma_same_space(a, b, p, x + 1);
    } else if a[x] == 37 && line_end(a, x + 1) < a.len() {
        lemma_line_end(a, x + 1);
        lemma_after_space(a, line_end(a, x + 1));
        lemma_same_line_end(a, b, p, x + 1);
        lemma_same_space(a, b, p, line_end(a, x + 1));
    }
}

proof fn lemma_same_name(a: Seq<u8>, b: Seq<u8>, p: int, x: int)
    requires
        agree(a, b, p),
        0 <= x,
        after_name(a, x) < p,
    ensures
        after_name(b, x) == after_name(a, x),
    decreases a.len() - x,
{
    lemma_after_name(a, x);
    assert(a[x] == b[x]);
    if regular(a[x]) {
        lemma_same_name(a, b, p, x + 1);
    }
}

proof fn lemma_same_digits(a: Seq<u8>, b: Seq<u8>, p: int, x: int)
    requires
        agree(a, b, p),
        0 <= x,
        after_digits(a, x) < p,
    ensures
        after_digits(b, x) == after_digits(a, x),
    decreases a.len() - x,
{
    lemma_after_digits(a, x);
    assert(a[x] == b[x]);
    if numeric(a[x]) {
        lemma_same_digits(a, b, p, x + 1);
    }
}

proof fn lemma_same_operator(a: Seq<u8>, b: Seq<u8>, p: int, x: int)
    requires
        agree(a, b, p),
        0 <= x,
        after_operator(a, x) < p,
    ensures
        after_operator(b, x) == after_operator(a, x),
    decreases a.len() - x,
{
    lemma_after_operator(a, x);
    assert(a[x] == b[x]);
    if operator_byte(a[x]) {
        lemma_same_operator(a, b, p, x + 1);
    }
}

proof fn lemma_same_string(a: Seq<u8>, b: Seq<u8>, p: int, x: int, depth: nat)
    requires
        agree(a, b, p),
        0 <= x,
        after_string(a, x, depth) matches Some(y) && y <= p,
    ensures
        after_string(b, x, depth) == after_string(a, x, depth),
    decreases a.len() - x,
{
    lemma_after_string(a, x, depth);
    assert(a[x] == b[x]);
    if a[x] == 92 {
        lemma_after_string(a, x + 2, depth);
        lemma_same_string(a, b, p, x + 2, depth);
    } else if a[x] == 40 {
        lemma_same_string(a, b, p, x + 1, depth + 1);
    } else if a[x] == 41 {
        if depth > 1 {
            lemma_same_string(a, b, p, x + 1, (depth - 1) as nat);
        }
    } else {
        lemma_same_string(a, b, p, x + 1, depth);
    }
}

proof fn lemma_same_hexadecimal(a: Seq<u8>, b: Seq<u8>, p: int, x: int)
    requires
        agree(a, b, p),
        0 <= x,
        after_hexadecimal(a, x) matches Some(y) && y <= p,
    ensures
        after_hexadecimal(b, x) == after_hexadecimal(a, x),
    decreases a.len() - x,
{
    lemma_after_hexadecimal(a, x);
    assert(a[x] == b[x]);
    if a[x] != 62 {
        lemma_same_hexadecimal(a, b, p, x + 1);
    }
}

proof fn lemma_same_nested(a: Seq<u8>, b: Seq<u8>, p: int, x: int, depth: nat)
    requires
        agree(a, b, p),
        0 <= x,
        after_nested(a, x, depth) matches Some(y) && y <= p,
    ensures
        after_nested(b, x, depth) == after_nested(a, x, depth),
    decreases a.len() - x,
{
    lemma_after_nested(a, x, depth);
    assert(a[x] == b[x]);
    if a[x] == 40 {
        lemma_after_string(a, x + 1, 1);
        let q = after_string(a, x + 1, 1)->Some_0;
        lemma_after_nested(a, q, depth);
        lemma_same_string(a, b, p, x + 1, 1);
        lemma_same_nested(a, b, p, q, depth);
    } else if a[x] == 37 {
        lemma_line_end(a, x + 1);
        lemma_after_nested(a, line_end(a, x + 1), depth);
        lemma_same_line_end(a, b, p, x + 1);
        lemma_same_nested(a, b, p, line_end(a, x + 1), depth);
    } else if a[x] == 91 {
        lemma_same_nested(a, b, p, x + 1, depth + 1);
    } else if a[x] == 60 {
        if byte_at(a, x + 1, 60) {
            lemma_after_nested(a, x + 2, depth + 1);
            assert(a[x + 1] == b[x + 1]);
            lemma_same_nested(a, b, p, x + 2, depth + 1);
        } else {
            lemma_after_hexadecimal(a, x + 1);
            let q = after_hexadecimal(a, x + 1)->Some_0;
            lemma_after_nested(a, q, depth);
            assert(a[x + 1] == b[x + 1]);
            lemma_same_hexadecimal(a, b, p, x + 1);
            lemma_same_nested(a, b, p, q, depth);
        }
    } else if a[x] == 93 {
        if depth > 1 {
            lemma_same_nested(a, b, p, x + 1, (depth - 1) as nat);
        }
    } else if a[x] == 62 {
        if byte_at(a, x + 1, 62) {
            if depth > 1 {
                lemma_after_nested(a, x + 2, (depth - 1) as nat);
                assert(a[x + 1] == b[x + 1]);
                lemma_same_nested(a, b, p, x + 2, (depth - 1) as nat);
            } else {
                assert(a[x + 1] == b[x + 1]);
            }
        } else {
            lemma_after_nested(a, x + 1, depth);
            assert(a[x + 1] == b[x + 1]);
            lemma_same_nested(a, b, p, x + 1, depth);
        }
    } else {
        lemma_same_nested(a, b, p, x + 1, depth);
    }
}

proof fn lemma_same_word(a: Seq<u8>, b: Seq<u8>, p: int, x: int, word: &str)
    requires
        agree(a, b, p),
        0 <= x,
        x + key(word).len() <= p,
    ensures
        word_at(a, x, word) == word_at(b, x, word),
{
    let end = x + key(word).len();
    assert(a.subrange(x, end) =~= b.subrange(x, end));
}

/// The first byte of a word stands where the word does.
proof fn lemma_first_byte(data: Seq<u8>, x: int, word: &str)
    requires
        word_at(data, x, word),
        key(word).len() > 0,
    ensures
        x < data.len(),
        data[x] == key(word)[0],
{
    assert(data[x] == data.subrange(x, x + key(word).len())[0]);
}

proof fn lemma_same_object(a: Seq<u8>, b: Seq<u8>, p: int, x: int)
    requires
        agree(a, b, p),
        after_value(a, x) matches Some(y) && y < p,
        !numeric(a[x]),
        a[x] != 43,
        a[x] != 45,
    ensures
        after_value(b, x) == after_value(a, x),
        word_at(b, x, "true") == word_at(a, x, "true"),
{
    let y = after_value(a, x)->Some_0;
    lemma_words();
    lemma_after_value(a, x);
    assert(a[x] == b[x]);
    if word_at(a, x, "true") || word_at(a, x, "null") || word_at(a, x, "false") {
        if word_at(a, x, "true") {
            lemma_first_byte(a, x, "true");
        } else if word_at(a, x, "null") {
            lemma_first_byte(a, x, "null");
        } else {
            lemma_first_byte(a, x, "false");
        }
        lemma_same_word(a, b, p, x, "true");
        lemma_same_word(a, b, p, x, "null");
        if !word_at(a, x, "true") && !word_at(a, x, "null") {
            lemma_same_word(a, b, p, x, "false");
        }
    } else {
        if word_at(b, x, "true") {
            lemma_first_byte(b, x, "true");
        }
        if word_at(b, x, "null") {
            lemma_first_byte(b, x, "null");
        }
        if word_at(b, x, "false") {
            lemma_first_byte(b, x, "false");
        }
        if a[x] == 47 {
            lemma_same_name(a, b, p, x + 1);
        } else if a[x] == 40 {
            lemma_same_string(a, b, p, x + 1, 1);
        } else if a[x] == 91 {
            lemma_same_nested(a, b, p, x + 1, 1);
        } else if a[x] == 60 {
            assert(a[x + 1] == b[x + 1]);
            if byte_at(a, x + 1, 60) {
                lemma_same_nested(a, b, p, x + 2, 1);
            } else {
                lemma_same_hexadecimal(a, b, p, x + 1);
            }
        }
    }
}

/// The same object ends at the same place, if what follows it cannot belong to a reference.
proof fn lemma_same_value(a: Seq<u8>, b: Seq<u8>, p: int, x: int)
    requires
        agree(a, b, p),
        after_value(a, x) matches Some(y) && after_space(a, y) < p && a[after_space(a, y)] != 37 && !numeric(
            a[after_space(a, y)],
        ),
    ensures
        after_value(b, x) == after_value(a, x),
        word_at(b, x, "true") == word_at(a, x, "true"),
        after_space(b, after_value(a, x)->Some_0) == after_space(a, after_value(a, x)->Some_0),
{
    let y = after_value(a, x)->Some_0;
    lemma_words();
    lemma_after_value(a, x);
    lemma_after_space(a, y);
    lemma_same_space(a, b, p, y);
    assert(a[x] == b[x]);
    if numeric(a[x]) || a[x] == 43 || a[x] == 45 {
        if word_at(a, x, "true") {
            lemma_first_byte(a, x, "true");
        }
        if word_at(b, x, "true") {
            lemma_first_byte(b, x, "true");
        }
        if word_at(a, x, "null") {
            lemma_first_byte(a, x, "null");
        }
        if word_at(b, x, "null") {
            lemma_first_byte(b, x, "null");
        }
        if word_at(a, x, "false") {
            lemma_first_byte(a, x, "false");
        }
        if word_at(b, x, "false") {
            lemma_first_byte(b, x, "false");
        }
        let from = if byte_at(a, x, 43) || byte_at(a, x, 45) {
            x + 1
        } else {
            x
        };
        let end = after_digits(a, from);
        let second = after_space(a, end);
        let second_end = after_digits(a, second);
        let mark = after_space(a, second_end);
        lemma_after_digits(a, from);
        lemma_after_space(a, end);
        lemma_after_digits(a, second);
        lemma_after_space(a, second_end);
        lemma_same_digits(a, b, p, from);
        if second < second_end && byte_at(a, mark, 82) {
            lemma_same_space(a, b, p, end);
            lemma_same_digits(a, b, p, second);
            lemma_same_space(a, b, p, second_end);
            assert(a[mark] == b[mark]);
        } else {
            assert(a[second] == b[second]);
        }
    } else {
        lemma_same_object(a, b, p, x);
    }
}

proof fn lemma_same_unescaped(a: Seq<u8>, b: Seq<u8>, p: int, x: int, end: int)
    requires
        agree(a, b, p),
        0 <= x,
        end <= p,
    ensures
        unescaped(b, x, end) == unescaped(a, x, end),
    decreases end - x,
{
    if x < end {
        assert(a[x] == b[x]);
        if x + 2 < end {
            assert(a[x + 1] == b[x + 1]);
            assert(a[x + 2] == b[x + 2]);
            lemma_same_unescaped(a, b, p, x + 3, end);
        }
        lemma_same_unescaped(a, b, p, x + 1, end);
    }
}

/// Whether nothing but the letter `q` stands at `p` and behind it.
spec fn letters_from(a: Seq<u8>, p: int) -> bool {
    forall|i: int| p <= i < a.len() ==> #[trigger] a[i] == 113
}

proof fn lemma_same_entries(a: Seq<u8>, b: Seq<u8>, p: int, x: int, entries: ImageEntries)
    requires
        agree(a, b, p),
        letters_from(a, p),
        lacks_color_space(a, x, entries),
    ensures
        lacks_color_space(b, x, entries),
        0 <= x < p,
    decreases a.len() - x,
{
    lemma_words();
    if byte_at(a, x, 47) {
        let name_end = after_name(a, x + 1);
        let value = after_space(a, name_end);
        let end = after_value(a, value)->Some_0;
        let next = after_space(a, end);
        let read = with_image_entry(entries, unescaped(a, x + 1, name_end), a, value);
        lemma_after_name(a, x + 1);
        lemma_after_space(a, name_end);
        lemma_after_value(a, value);
        lemma_after_space(a, end);
        assert(lacks_color_space(a, next, read));
        lemma_same_entries(a, b, p, next, read);
        if word_at(a, next, "ID") {
            lemma_first_byte(a, next, "ID");
        }
        lemma_same_name(a, b, p, x + 1);
        lemma_first_not_comment(a, value);
        lemma_same_space(a, b, p, name_end);
        lemma_same_value(a, b, p, value);
        lemma_same_unescaped(a, b, p, x + 1, name_end);
        assert(a[x] == b[x]);
        assert(with_image_entry(entries, unescaped(b, x + 1, name_end), b, value) == read);
    } else {
        lemma_first_byte(a, x, "ID");
        assert(a[x + 1] == a.subrange(x, x + 2)[1]);
        lemma_same_word(a, b, p, x, "ID");
        assert(a[x] == b[x]);
    }
}

/// No object begins with `%`.
proof fn lemma_first_not_comment(data: Seq<u8>, x: int)
    requires
        after_value(data, x) is Some,
    ensures
        data[x] != 37,
{
    lemma_words();
    if word_at(data, x, "true") {
        lemma_first_byte(data, x, "true");
    }
    if word_at(data, x, "null") {
        lemma_first_byte(data, x, "null");
    }
    if word_at(data, x, "false") {
        lemma_first_byte(data, x, "false");
    }
}

proof fn lemma_same_image(a: Seq<u8>, b: Seq<u8>, p: int, q: int)
    requires
        agree(a, b, p),
        letters_from(a, p),
        bad_image_at(a, q),
    ensures
        bad_image_at(b, q),
        0 <= q < p,
        a[q] == 66,
{
    lemma_words();
    lemma_first_byte(a, q, "BI");
    assert(a[q + 1] == a.subrange(q, q + 2)[1]);
    lemma_same_word(a, b, p, q, "BI");
    let start = after_content_space(a, q + 2);
    lemma_same_entries(a, b, p, start, no_entries());
    lemma_same_content_space(a, b, p, q + 2);
}

proof fn lemma_same_comments(a: Seq<u8>, b: Seq<u8>, p: int, x: int)
    requires
        agree(a, b, p),
        0 <= x,
        after_comments(a, x) < p,
        a[after_comments(a, x)] != 37,
    ensures
        after_comments(b, x) == after_comments(a, x),
    decreases a.len() - x,
{
    lemma_after_comments(a, x);
    assert(a[x] == b[x]);
    if a[x] == 37 {
        let end = line_end(a, x + 1);
        lemma_line_end(a, x + 1);
        let next = if byte_at(a, end, 13) && byte_at(a, end + 1, 10) {
            end + 2
        } else {
            end + 1
        };
        lemma_after_comments(a, next);
        lemma_same_line_end(a, b, p, x + 1);
        assert(a[end] == b[end]);
        assert(a[end + 1] == b[end + 1]);
        lemma_same_comments(a, b, p, next);
    }
}

proof fn lemma_same_operand(a: Seq<u8>, b: Seq<u8>, p: int, x: int)
    requires
        agree(a, b, p),
        after_operand(a, x) matches Some(y) && y < p,
    ensures
        after_operand(b, x) == after_operand(a, x),
{
    lemma_after_operand(a, x);
    lemma_after_value(a, x);
    if byte_at(a, x, 43) || byte_at(a, x, 45) {
        assert(a[x] == b[x]);
        lemma_same_digits(a, b, p, x + 1);
    } else if 0 <= x < a.len() && numeric(a[x]) {
        assert(a[x] == b[x]);
        lemma_same_digits(a, b, p, x);
    } else {
        assert(a[x] == b[x]);
        lemma_same_object(a, b, p, x);
    }
}

/// A word that `b` has at `x` is in `a` too, if an operator that ends before `p` begins there.
proof fn lemma_operator_word(a: Seq<u8>, b: Seq<u8>, p: int, x: int, word: &str)
    requires
        agree(a, b, p),
        0 <= x,
        after_operator(a, x) < p,
        word_at(b, x, word),
        forall|i: int| 0 <= i < key(word).len() ==> operator_byte(#[trigger] key(word)[i]),
    ensures
        word_at(a, x, word),
{
    let end = after_operator(a, x);
    lemma_after_operator(a, x);
    if end < x + key(word).len() {
        assert(b.subrange(x, x + key(word).len())[end - x] == b[end]);
        assert(a[end] == b[end]);
        assert(operator_byte(key(word)[end - x]));
    }
    lemma_same_word(a, b, p, x, word);
}

proof fn lemma_same_operation(a: Seq<u8>, b: Seq<u8>, p: int, x: int)
    requires
        agree(a, b, p),
        0 <= x,
        after_operation(a, x) matches Some(y) && y < p,
    ensures
        after_operation(b, x) == after_operation(a, x),
    decreases a.len() - x,
{
    match after_operand(a, x) {
        Some(end) => {
            let next = after_content_space(a, end);
            lemma_after_operand(a, x);
            lemma_after_content_space(a, end);
            lemma_after_operation(a, next);
            lemma_same_operand(a, b, p, x);
            lemma_same_content_space(a, b, p, end);
            lemma_same_operation(a, b, p, next);
        },
        None => {
            let end = after_operator(a, x);
            lemma_words();
            lemma_after_operator(a, x);
            lemma_after_content_space(a, end);
            lemma_same_operator(a, b, p, x);
            lemma_same_content_space(a, b, p, end);
            assert(a[x] == b[x]);
            if word_at(b, x, "true") {
                lemma_operator_word(a, b, p, x, "true");
            }
            if word_at(b, x, "null") {
                lemma_operator_word(a, b, p, x, "null");
            }
            if word_at(b, x, "false") {
                lemma_operator_word(a, b, p, x, "false");
            }
            assert(after_operand(b, x) is None);
        },
    }
}

proof fn lemma_same_reaches(a: Seq<u8>, b: Seq<u8>, p: int, from: int, q: int)
    requires
        agree(a, b, p),
        0 <= from,
        reaches(a, from, q),
        q < p,
        a[q] == 66,
    ensures
        reaches(b, from, q),
        from <= q,
    decreases a.len() - from,
{
    let start = after_comments(a, from);
    lemma_words();
    lemma_after_comments(a, from);
    if start >= q {
        lemma_same_comments(a, b, p, from);
    } else if word_at(a, start, "BI") {
        lemma_first_byte(a, start, "BI");
        lemma_same_comments(a, b, p, from);
        lemma_same_word(a, b, p, start, "BI");
    } else {
        let next = after_operation(a, start)->Some_0;
        lemma_after_operation(a, start);
        lemma_same_reaches(a, b, p, next, q);
        if after_value(a, start) is Some {
            lemma_first_not_comment(a, start);
        }
        assert(a[start] != 37);
        lemma_same_comments(a, b, p, from);
        lemma_same_word(a, b, p, start, "BI");
        lemma_same_operation(a, b, p, start);
    }
}

/// Where lopdf comes to no bad image before `p`, it comes to none in the data up to `p` with an
/// operator behind them either.
pub proof fn lemma_marked(data: Seq<u8>, p: int)
    requires
        0 <= p <= data.len(),
        forall|q: int|
            0 <= q < p && operation_at(data, q) && #[trigger] bad_image_at(data, q) ==> !comes_to(data, q),
    ensures
        !has_bad_image(marked(data, p)),
{
    let a = marked(data, p);
    assert forall|q: int| operation_at(a, q) && #[trigger] bad_image_at(a, q) implies !comes_to(a, q) by {
        lemma_same_image(a, data, p, q);
        let start = after_content_space(a, 0);
        lemma_after_content_space(a, 0);
        lemma_same_reaches(a, data, p, start, q);
        lemma_same_content_space(a, data, p, 0);
        assert(operation_at(data, q));
        assert(marked(a, q) =~= marked(data, q));
    }
}

} // verus!
