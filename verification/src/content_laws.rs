//! What content streams are read as, and how operations are written.

use crate::content::{entry_operands, image_head, lemma_next_image, next_image, operations_of, written};
use crate::inline_image::{
    after_content_space, after_name, after_space, after_value, bad_image_at, comes_to, has_bad_image, lacks_color_space,
    lemma_after_content_space, lemma_after_name, lemma_after_space, lemma_after_value, lemma_words, letters, marked,
    no_entries, operation_at, reaches, unescaped, with_image_entry, word_at, ImageEntries,
};
use crate::pdf::{decoded, encoded};
use crate::value::{key, OperationValue, StreamValue, Value};
use vstd::prelude::*;

verus! {

proof fn lemma_entries_come_to_id(data: Seq<u8>, p: int, entries: ImageEntries)
    requires
        0 <= p,
        lacks_color_space(data, p, entries),
    ensures
        exists|q: int| p <= q && #[trigger] word_at(data, q, "ID"),
    decreases data.len() - p,
{
    if 0 <= p < data.len() && data[p] == 47 {
        let name_end = after_name(data, p + 1);
        let value = after_space(data, name_end);
        lemma_after_name(data, p + 1);
        lemma_after_space(data, name_end);
        lemma_after_value(data, value);
        if let Some(end) = after_value(data, value) {
            lemma_after_space(data, end);
            lemma_entries_come_to_id(
                data,
                after_space(data, end),
                with_image_entry(entries, unescaped(data, p + 1, name_end), data, value),
            );
        }
    } else {
        assert(word_at(data, p, "ID"));
    }
}

/// Whether lopdf reads the bytes before `p` and begins an operation there: of these bytes with an
/// operator behind them, which is longer than they are, it reads that operator last, alone.
pub open spec fn reads_up_to(data: Seq<u8>, p: int) -> bool {
    exists|operator: Seq<u8>, ops: Seq<OperationValue>|
        #![trigger decoded(data.take(p) + operator), ops.last()]
        operator.len() == p + 1 && (forall|i: int| 0 <= i < operator.len() ==> #[trigger] operator[i] == 113)
            && decoded(data.take(p) + operator) == Some(ops) && ops.len() > 0 && ops.last().operands.len() == 0
            && ops.last().operator.len() == p + 1 && (forall|i: int|
            0 <= i < ops.last().operator.len() ==> #[trigger] ops.last().operator[i] == 'q')
}

/// A content stream has the operations that lopdf decodes, and none where it decodes none. The one
/// exception is a stream with an inline image that lopdf comes to and cannot size: it has a `BI` and
/// behind it an `ID`.
pub proof fn law_streams_have_decoded_operations(data: Seq<u8>)
    ensures
        data.len() == 0 || decoded(data) is None ==> operations_of(data).len() == 0,
        decoded(data) matches Some(ops) ==> data.len() > 0 ==> operations_of(data) == ops || (operations_of(data).len()
            == 0 && exists|p: int, q: int|
            0 <= p && p + 2 <= q && q + 2 <= data.len() && data.subrange(p, p + 2) == key("BI")
                && data.subrange(q, q + 2) == key("ID") && #[trigger] reads_up_to(data, p) && #[trigger] word_at(
                data,
                q,
                "ID",
            )),
{
    if data.len() > 0 && has_bad_image(data) {
        lemma_words();
        let p = choose|p: int| operation_at(data, p) && #[trigger] bad_image_at(data, p) && comes_to(data, p);
        lemma_after_content_space(data, p + 2);
        let start = after_content_space(data, p + 2);
        lemma_entries_come_to_id(data, start, no_entries());
        let q = choose|q: int| start <= q && #[trigger] word_at(data, q, "ID");
        let operator = Seq::new((p + 1) as nat, |i: int| 113u8);
        let ops = decoded(marked(data, p))->Some_0;
        assert(decoded(data.take(p) + operator) == Some(ops));
        assert(ops.last().operator.len() == p + 1);
        assert(reads_up_to(data, p) && word_at(data, q, "ID"));
        assert(data.subrange(p, p + 2) == key("BI"));
    }
}

/// A content stream is read as nothing if lopdf comes to an inline image in it that it cannot size:
/// the entries behind a `BI` come to `ID` without a color space.
pub proof fn law_images_without_size_stop_reading(data: Seq<u8>, p: int)
    requires
        0 <= p,
        p + 2 <= data.len(),
        data.subrange(p, p + 2) == key("BI"),
        lacks_color_space(data, after_content_space(data, p + 2), no_entries()),
        reaches(data, after_content_space(data, 0), p),
        reads_up_to(data, p),
    ensures
        operations_of(data).len() == 0,
{
    lemma_words();
    let (operator, ops) = choose|operator: Seq<u8>, ops: Seq<OperationValue>|
        #![trigger decoded(data.take(p) + operator), ops.last()]
        operator.len() == p + 1 && (forall|i: int| 0 <= i < operator.len() ==> #[trigger] operator[i] == 113)
            && decoded(data.take(p) + operator) == Some(ops) && ops.len() > 0 && ops.last().operands.len() == 0
            && ops.last().operator.len() == p + 1 && (forall|i: int|
            0 <= i < ops.last().operator.len() ==> #[trigger] ops.last().operator[i] == 'q');
    assert(data.take(p) + operator =~= marked(data, p));
    assert(ops.last().operator =~= letters(p + 1));
    assert(operation_at(data, p) && bad_image_at(data, p) && comes_to(data, p));
}

/// Whether an operation is `BI` with a stream alone, as which an inline image is read.
pub open spec fn reads_an_image(op: OperationValue) -> bool {
    op.operator == "BI"@ && op.operands.len() == 1 && op.operands[0] is Stream
}

proof fn lemma_no_image(ops: Seq<OperationValue>, from: int, k: int)
    requires
        0 <= from <= k <= ops.len(),
        forall|i: int| from <= i < k ==> !reads_an_image(#[trigger] ops[i]),
        k < ops.len() ==> reads_an_image(ops[k]),
    ensures
        next_image(ops, from) == k,
    decreases k - from,
{
    if from < k {
        assert(!reads_an_image(ops[from]));
        lemma_no_image(ops, from + 1, k);
    }
}

/// Operations without inline images are written as lopdf encodes them.
pub proof fn law_operations_are_encoded(ops: Seq<OperationValue>)
    requires
        forall|i: int| 0 <= i < ops.len() ==> !reads_an_image(#[trigger] ops[i]),
    ensures
        written(ops) == encoded(ops),
{
    lemma_no_image(ops, 0, ops.len() as int);
}

/// An inline image is written with all its data: what comes before it and `BI` and `ID` with the
/// names and values of its dictionary in turn, then its data on a new line, then `EI` on a line of
/// its own, then what comes behind it, if there is any.
pub proof fn law_images_are_written_whole(
    before: Seq<OperationValue>,
    image: StreamValue,
    behind: Seq<OperationValue>,
    head: Seq<OperationValue>,
)
    requires
        forall|i: int| 0 <= i < before.len() ==> !reads_an_image(#[trigger] before[i]),
        head.len() == before.len() + 2,
        head.take(before.len() as int) == before,
        head[before.len() as int].operator == "BI"@,
        head[before.len() as int].operands.len() == 0,
        head[head.len() - 1].operator == "ID"@,
        head[head.len() - 1].operands.len() == 2 * image.dict.len(),
        forall|i: int|
            0 <= i < image.dict.len() ==> head[head.len() - 1].operands[2 * i] == Value::Name(
                (#[trigger] image.dict[i]).0,
            ) && head[head.len() - 1].operands[2 * i + 1] == image.dict[i].1,
    ensures
        ({
            let op = OperationValue { operator: "BI"@, operands: seq![Value::Stream(image)] };
            written(before.push(op) + behind) == match (encoded(head), written(behind)) {
                (Some(start), Some(rest)) => Some(
                    start + seq![10u8] + image.content + seq![10u8, 69u8, 73u8] + if rest.len() == 0 {
                        Seq::<u8>::empty()
                    } else {
                        seq![10u8] + rest
                    },
                ),
                _ => None,
            }
        }),
{
    let op = OperationValue { operator: "BI"@, operands: seq![Value::Stream(image)] };
    let ops = before.push(op) + behind;
    let k = before.len() as int;
    assert forall|i: int| 0 <= i < k implies !reads_an_image(#[trigger] ops[i]) by {
        assert(ops[i] == before[i]);
    }
    assert(ops[k] == op);
    lemma_no_image(ops, 0, k);
    lemma_next_image(ops, 0);
    assert(ops.skip(k + 1) =~= behind);
    assert(ops.take(k) =~= before);
    let n = image.dict.len() as int;
    lemma_entry_operands(image.dict, n);
    let made = ops.take(k) + image_head(image);
    assert(made[k].operands =~= head[k].operands);
    assert(made[k] == head[k]);
    let wanted = head[k + 1].operands;
    let operands = made[k + 1].operands;
    assert forall|j: int| 0 <= j < 2 * n implies #[trigger] operands[j] == wanted[j] by {
        let i = j / 2;
        assert(image.dict[i] == image.dict[i]);
        assert(j == 2 * i || j == 2 * i + 1);
    }
    assert(operands =~= wanted);
    assert(made[k + 1] == head[k + 1]);
    assert forall|i: int| 0 <= i < k implies made[i] == head[i] by {
        assert(head.take(k)[i] == before[i]);
    }
    assert(made =~= head);
    if let (Some(start), Some(rest)) = (encoded(head), written(behind)) {
        assert(written(ops)->Some_0 =~= start + seq![10u8] + image.content + seq![10u8, 69u8, 73u8] + if rest.len()
            == 0 {
            Seq::<u8>::empty()
        } else {
            seq![10u8] + rest
        });
    }
}

proof fn lemma_entry_operands(entries: Seq<(Seq<u8>, Value)>, n: int)
    requires
        0 <= n <= entries.len(),
    ensures
        entry_operands(entries, n).len() == 2 * n,
        forall|i: int|
            0 <= i < n ==> entry_operands(entries, n)[2 * i] == Value::Name((#[trigger] entries[i]).0)
                && entry_operands(entries, n)[2 * i + 1] == entries[i].1,
    decreases n,
{
    if n > 0 {
        lemma_entry_operands(entries, n - 1);
    }
}

} // verus!
