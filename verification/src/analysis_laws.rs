//! What the candidates of an analysis have in common.

use crate::analysis::{
    appears, blocks_on_pages, candidate_values, counts, has_candidate, is_candidate, is_ranking, key_of, larger,
    page_block_values, pages_with, ranked, ranks_before, Candidate, CandidateValue,
};
use crate::blocks::{text_blocks, BlockValue, TextBlock};
use crate::content::operations_of;
use crate::order::{key_less, lemma_key_irreflexive, lemma_key_transitive, text_less_from};
use crate::page::{content_shows_text, lemma_shown_text, page_content, page_shows};
use crate::pdf::Fault;
use crate::size::tenths_of;
use crate::text::{block_matches, collapsed, lowercase, lowercase_texts, occurs};
use crate::value::Value;
use lopdf::ObjectId;
use vstd::prelude::*;
#[allow(unused_imports)]
use vstd::utf8::encode_utf8;

verus! {

/// A candidate is found on at least one page and on no more than there are, and its sample page
/// is one of them.
pub proof fn law_candidates_are_on_pages(
    candidates: Seq<CandidateValue>,
    pages: Seq<Seq<BlockValue>>,
    min_count: int,
    i: int,
)
    requires
        is_ranking(candidates, pages, min_count),
        0 <= i < candidates.len(),
    ensures
        1 <= candidates[i].count <= pages.len(),
        0 <= candidates[i].sample_page < pages.len(),
        min_count <= candidates[i].count,
{
    let candidate = candidates[i];
    assert(is_candidate(pages, candidate, min_count));
    let found = pages_with(pages, (candidate.text, candidate.size));
    let all = vstd::set_lib::set_int_range(0, pages.len() as int);
    vstd::set_lib::lemma_int_range(0, pages.len() as int);
    assert(found.subset_of(all));
    vstd::set_lib::lemma_len_subset(found, all);
    assert(found.contains(candidate.sample_page));
    if found.len() == 0 {
        assert(found =~= Set::empty());
    }
}

proof fn lemma_ranks_asymmetric(a: CandidateValue, b: CandidateValue)
    requires
        ranks_before(a, b),
    ensures
        !ranks_before(b, a),
        (a.text, a.size) != (b.text, b.size) || a.count != b.count,
{
    let first = (a.text, a.size);
    let second = (b.text, b.size);
    if a.count == b.count {
        lemma_key_irreflexive(first);
        if key_less(second, first) {
            lemma_key_transitive(first, second, first);
        }
    }
}

/// There is one candidate for a text in a size.
pub proof fn law_candidates_differ(
    candidates: Seq<CandidateValue>,
    pages: Seq<Seq<BlockValue>>,
    min_count: int,
    i: int,
    j: int,
)
    requires
        is_ranking(candidates, pages, min_count),
        0 <= i < j < candidates.len(),
    ensures
        (candidates[i].text, candidates[i].size) != (candidates[j].text, candidates[j].size),
{
    assert(is_candidate(pages, candidates[i], min_count));
    assert(is_candidate(pages, candidates[j], min_count));
    assert(ranks_before(candidates[i], candidates[j]));
    lemma_ranks_asymmetric(candidates[i], candidates[j]);
}

/// A candidate of one ranking is in the other, too.
proof fn lemma_found_again(
    candidates: Seq<CandidateValue>,
    others: Seq<CandidateValue>,
    pages: Seq<Seq<BlockValue>>,
    min_count: int,
    i: int,
) -> (j: int)
    requires
        is_ranking(candidates, pages, min_count),
        is_ranking(others, pages, min_count),
        0 <= i < candidates.len(),
    ensures
        0 <= j < others.len(),
        others[j] == candidates[i],
{
    let candidate = candidates[i];
    let key = (candidate.text, candidate.size);
    assert(is_candidate(pages, candidate, min_count));
    assert(appears(pages, key, candidate.sample_page));
    assert(has_candidate(others, key));
    let j = choose|j: int| 0 <= j < others.len() && ((#[trigger] others[j]).text, others[j].size) == key;
    assert(is_candidate(pages, others[j], min_count));
    assert(appears(pages, key, others[j].sample_page));
    j
}

proof fn lemma_same_up_to(
    candidates: Seq<CandidateValue>,
    others: Seq<CandidateValue>,
    pages: Seq<Seq<BlockValue>>,
    min_count: int,
    n: int,
)
    requires
        is_ranking(candidates, pages, min_count),
        is_ranking(others, pages, min_count),
        0 <= n <= candidates.len(),
    ensures
        n <= others.len(),
        forall|i: int| 0 <= i < n ==> candidates[i] == others[i],
    decreases n,
{
    if n > 0 {
        lemma_same_up_to(candidates, others, pages, min_count, n - 1);
        let last = n - 1;
        let j = lemma_found_again(candidates, others, pages, min_count, last);
        if j < last {
            assert(candidates[j] == others[j]);
            assert(ranks_before(candidates[j], candidates[last]));
            lemma_ranks_asymmetric(candidates[j], candidates[last]);
        }
        if j > last {
            let k = lemma_found_again(others, candidates, pages, min_count, last);
            assert(ranks_before(others[last], others[j]));
            lemma_ranks_asymmetric(others[last], others[j]);
            if k < last {
                assert(candidates[k] == others[k]);
                assert(ranks_before(others[k], others[last]));
                lemma_ranks_asymmetric(others[k], others[last]);
            } else if k > last {
                assert(ranks_before(candidates[last], candidates[k]));
            }
        }
    }
}

/// There is only one ranking: the candidates and their order are determined by the pages and the
/// number of pages that is asked for.
pub proof fn law_ranking_is_unique(
    candidates: Seq<CandidateValue>,
    others: Seq<CandidateValue>,
    pages: Seq<Seq<BlockValue>>,
    min_count: int,
)
    requires
        is_ranking(candidates, pages, min_count),
        is_ranking(others, pages, min_count),
    ensures
        candidates == others,
{
    lemma_same_up_to(candidates, others, pages, min_count, candidates.len() as int);
    lemma_same_up_to(others, candidates, pages, min_count, others.len() as int);
    assert(candidates =~= others);
}

/// The number of candidates that are on at least `count` pages, among the first `n`.
spec fn on_pages(candidates: Seq<CandidateValue>, count: int, n: int) -> int
    decreases n,
{
    if n <= 0 {
        0
    } else if candidates[n - 1].count >= count {
        n
    } else {
        on_pages(candidates, count, n - 1)
    }
}

proof fn lemma_on_pages(candidates: Seq<CandidateValue>, count: int, n: int)
    requires
        ranked(candidates),
        0 <= n <= candidates.len(),
    ensures
        0 <= on_pages(candidates, count, n) <= n,
        forall|i: int| 0 <= i < on_pages(candidates, count, n) ==> (#[trigger] candidates[i]).count >= count,
        forall|i: int| on_pages(candidates, count, n) <= i < n ==> (#[trigger] candidates[i]).count < count,
    decreases n,
{
    if n > 0 {
        if candidates[n - 1].count >= count {
            assert forall|i: int| 0 <= i < n implies (#[trigger] candidates[i]).count >= count by {
                if i < n - 1 {
                    assert(ranks_before(candidates[i], candidates[n - 1]));
                }
            }
        } else {
            lemma_on_pages(candidates, count, n - 1);
        }
    }
}

/// A higher number of pages to be asked for leaves the first of the candidates, in the same order.
pub proof fn law_fewer_candidates_on_more_pages(
    candidates: Seq<CandidateValue>,
    fewer: Seq<CandidateValue>,
    pages: Seq<Seq<BlockValue>>,
    min_count: int,
    more: int,
)
    requires
        is_ranking(candidates, pages, min_count),
        is_ranking(fewer, pages, more),
        min_count <= more,
    ensures
        fewer.len() <= candidates.len(),
        fewer == candidates.take(fewer.len() as int),
{
    let n = on_pages(candidates, more, candidates.len() as int);
    lemma_on_pages(candidates, more, candidates.len() as int);
    let first = candidates.take(n);
    assert forall|i: int| 0 <= i < first.len() implies is_candidate(pages, #[trigger] first[i], more) by {
        assert(first[i] == candidates[i]);
        assert(is_candidate(pages, candidates[i], min_count));
    }
    assert forall|key: (Seq<char>, u32), p: int| #[trigger] appears(pages, key, p) && pages_with(pages, key).len()
        >= more implies has_candidate(first, key) by {
        assert(has_candidate(candidates, key));
        let i = choose|i: int|
            0 <= i < candidates.len() && ((#[trigger] candidates[i]).text, candidates[i].size) == key;
        assert(is_candidate(pages, candidates[i], min_count));
        assert(i < n);
        assert(first[i] == candidates[i]);
    }
    assert forall|i: int, j: int| 0 <= i < j < first.len() implies ranks_before(
        #[trigger] first[i],
        #[trigger] first[j],
    ) by {
        assert(ranks_before(candidates[i], candidates[j]));
    }
    law_ranking_is_unique(fewer, first, pages, more);
}

/// The text of a candidate is a keyword that its blocks match, so that a removal with it removes
/// them. Of the lower case of the text it has to be known that it is not empty.
pub proof fn law_candidate_matches_its_blocks(
    candidates: Seq<CandidateValue>,
    pages: Seq<Seq<BlockValue>>,
    min_count: int,
    i: int,
    block: BlockValue,
)
    requires
        is_ranking(candidates, pages, min_count),
        0 <= i < candidates.len(),
        key_of(block) == (candidates[i].text, candidates[i].size),
        lowercase(candidates[i].text).len() > 0,
    ensures
        block_matches(block.text, lowercase_texts(seq![candidates[i].text])),
{
    let keywords = lowercase_texts(seq![candidates[i].text]);
    let lower = lowercase(collapsed(block.text));
    assert(keywords[0] == lower);
    assert(lower.subrange(0, 0int + lower.len()) =~= lower);
    assert(occurs(keywords[0], lower));
}

proof fn lemma_blocks_of_page(objects: Map<ObjectId, Value>, pages: Seq<ObjectId>, n: int, p: int)
    requires
        0 <= p < n,
        blocks_on_pages(objects, pages, n) is Ok,
    ensures
        blocks_on_pages(objects, pages, n)->Ok_0.len() == n,
        page_content(objects, pages[p]) is Ok,
        blocks_on_pages(objects, pages, n)->Ok_0[p] == text_blocks(
            operations_of(page_content(objects, pages[p])->Ok_0),
        ),
    decreases n,
{
    if p < n - 1 {
        lemma_blocks_of_page(objects, pages, n - 1, p);
    } else if n > 1 {
        lemma_blocks_of_page(objects, pages, n - 1, 0);
    }
}

/// The text of a candidate works as a keyword on its sample page: the content of the page can be
/// read and shows the text, which is not empty. Where its lower case is not empty either, the page
/// shows it.
pub proof fn law_candidate_is_on_its_sample_page(
    objects: Map<ObjectId, Value>,
    pages: Seq<ObjectId>,
    candidates: Seq<CandidateValue>,
    min_count: int,
    i: int,
)
    requires
        blocks_on_pages(objects, pages, pages.len() as int) matches Ok(blocks) && is_ranking(
            candidates,
            blocks,
            min_count,
        ),
        0 <= i < candidates.len(),
    ensures
        0 <= candidates[i].sample_page < pages.len(),
        candidates[i].text.len() > 0,
        page_content(objects, pages[candidates[i].sample_page]) matches Ok(content) && content_shows_text(
            content,
            candidates[i].text,
        ),
        lowercase(candidates[i].text).len() > 0 ==> page_shows(
            objects,
            pages[candidates[i].sample_page],
            lowercase(candidates[i].text),
        ),
{
    let blocks = blocks_on_pages(objects, pages, pages.len() as int)->Ok_0;
    let candidate = candidates[i];
    let key = (candidate.text, candidate.size);
    let p = candidate.sample_page;
    assert(is_candidate(blocks, candidate, min_count));
    if pages.len() > 0 {
        lemma_blocks_of_page(objects, pages, pages.len() as int, 0);
    }
    lemma_blocks_of_page(objects, pages, pages.len() as int, p);
    let own = blocks[p];
    let j = choose|j: int| 0 <= j < own.len() && counts(#[trigger] own[j]) && key_of(own[j]) == key;
    assert(collapsed(own[j].text) == candidate.text);
    if candidate.text.len() == 0 {
        assert(encode_utf8(candidate.text).len() == 0);
    }
    let content = page_content(objects, pages[p])->Ok_0;
    assert(content_shows_text(content, candidate.text));
    if lowercase(candidate.text).len() > 0 {
        lemma_shown_text(content, candidate.text);
    }
}

/// A text that takes two bytes or more and is shown in one size on as many pages as are asked for has
/// a candidate, however long it is: it counts these pages, and its sample page is none behind them.
pub proof fn law_repeated_text_is_a_candidate(
    candidates: Seq<CandidateValue>,
    pages: Seq<Seq<BlockValue>>,
    min_count: int,
    text: Seq<char>,
    size: u32,
    found: Set<int>,
)
    requires
        is_ranking(candidates, pages, min_count),
        encode_utf8(text).len() >= 2,
        found.finite(),
        found.len() > 0,
        found.len() >= min_count,
        forall|p: int| #[trigger]
            found.contains(p) ==> 0 <= p < pages.len() && exists|i: int|
                0 <= i < pages[p].len() && collapsed((#[trigger] pages[p][i]).text) == text && tenths_of(
                    pages[p][i].size,
                ) == size,
    ensures
        exists|c: int|
            0 <= c < candidates.len() && (#[trigger] candidates[c]).text == text && candidates[c].size == size
                && candidates[c].count >= found.len() && forall|p: int| #[trigger]
                found.contains(p) ==> candidates[c].sample_page <= p,
{
    let key = (text, size);
    assert forall|p: int| #[trigger] found.contains(p) implies appears(pages, key, p) by {
        let i = choose|i: int|
            0 <= i < pages[p].len() && collapsed((#[trigger] pages[p][i]).text) == text && tenths_of(pages[p][i].size)
                == size;
        assert(counts(pages[p][i]) && key_of(pages[p][i]) == key);
    }
    let all = pages_with(pages, key);
    let range = vstd::set_lib::set_int_range(0, pages.len() as int);
    vstd::set_lib::lemma_int_range(0, pages.len() as int);
    assert(all.subset_of(range));
    vstd::set_lib::lemma_len_subset(all, range);
    assert(found.subset_of(all));
    vstd::set_lib::lemma_len_subset(found, all);
    let p = found.choose();
    assert(found.contains(p));
    assert(appears(pages, key, p));
    assert(has_candidate(candidates, key));
    let c = choose|c: int| 0 <= c < candidates.len() && ((#[trigger] candidates[c]).text, candidates[c].size) == key;
    assert(is_candidate(pages, candidates[c], min_count));
    assert forall|q: int| #[trigger] found.contains(q) implies candidates[c].sample_page <= q by {
        assert(appears(pages, key, q));
    }
    assert(candidates[c].text == text);
}

/// A candidate counts the pages on which a block shows its text in its size, each one once. Its
/// sample page is the first of them. Its text takes two bytes or more.
pub proof fn law_candidate_counts_pages(
    candidates: Seq<CandidateValue>,
    pages: Seq<Seq<BlockValue>>,
    min_count: int,
    c: int,
)
    requires
        is_ranking(candidates, pages, min_count),
        0 <= c < candidates.len(),
    ensures
        ({
            let candidate = candidates[c];
            let found = Set::new(
                |p: int|
                    0 <= p < pages.len() && exists|i: int|
                        0 <= i < pages[p].len() && collapsed((#[trigger] pages[p][i]).text) == candidate.text
                            && tenths_of(pages[p][i].size) == candidate.size,
            );
            &&& encode_utf8(candidate.text).len() >= 2
            &&& candidate.count == found.len()
            &&& candidate.count >= min_count
            &&& found.contains(candidate.sample_page)
            &&& forall|p: int| #[trigger] found.contains(p) ==> candidate.sample_page <= p
        }),
{
    let candidate = candidates[c];
    assert(is_candidate(pages, candidate, min_count));
    let key = (candidate.text, candidate.size);
    let found = Set::new(
        |p: int|
            0 <= p < pages.len() && exists|i: int|
                0 <= i < pages[p].len() && collapsed((#[trigger] pages[p][i]).text) == candidate.text && tenths_of(
                    pages[p][i].size,
                ) == candidate.size,
    );
    let own = pages[candidate.sample_page];
    let k = choose|k: int| 0 <= k < own.len() && counts(#[trigger] own[k]) && key_of(own[k]) == key;
    assert(counts(own[k]));
    assert forall|p: int| found.contains(p) == #[trigger] pages_with(pages, key).contains(p) by {
        if found.contains(p) {
            let i = choose|i: int|
                0 <= i < pages[p].len() && collapsed((#[trigger] pages[p][i]).text) == candidate.text && tenths_of(
                    pages[p][i].size,
                ) == candidate.size;
            assert(counts(pages[p][i]) && key_of(pages[p][i]) == key);
        }
        if pages_with(pages, key).contains(p) {
            let i = choose|i: int|
                0 <= i < pages[p].len() && counts(#[trigger] pages[p][i]) && key_of(pages[p][i]) == key;
            assert(collapsed(pages[p][i].text) == candidate.text);
        }
    }
    assert(found =~= pages_with(pages, key));
    assert forall|p: int| #[trigger] found.contains(p) implies candidate.sample_page <= p by {
        assert(pages_with(pages, key).contains(p));
        assert(appears(pages, key, p));
    }
}

proof fn lemma_text_less(a: Seq<char>, b: Seq<char>, i: int)
    requires
        0 <= i <= a.len(),
        i <= b.len(),
        a.take(i) == b.take(i),
    ensures
        text_less_from(a, b, i) <==> exists|k: int|
            i <= k <= a.len() && k < b.len() && a.take(k) == #[trigger] b.take(k) && (k == a.len() || a[k] < b[k]),
    decreases b.len() - i,
{
    if i < b.len() && i < a.len() && a[i] == b[i] {
        assert(a.take(i + 1) =~= a.take(i).push(a[i]));
        assert(b.take(i + 1) =~= b.take(i).push(b[i]));
        lemma_text_less(a, b, i + 1);
    } else if i < b.len() && i < a.len() {
        if a[i] < b[i] {
            assert(a.take(i) == b.take(i));
        } else {
            assert forall|k: int|
                i <= k <= a.len() && k < b.len() && a.take(k) == #[trigger] b.take(k) implies !(k == a.len() || a[k]
                < b[k]) by {
                if k > i {
                    assert(a.take(k)[i] == a[i] && b.take(k)[i] == b[i]);
                }
            }
        }
    } else if i < b.len() {
        assert(a.take(i) == b.take(i));
    }
}

/// Candidates on more pages come first. Of two on the same number of pages the first has the smaller
/// character where their texts first differ, or its text ends there; of two with the same text it has
/// the smaller size.
pub proof fn law_candidates_are_in_order(
    candidates: Seq<CandidateValue>,
    pages: Seq<Seq<BlockValue>>,
    min_count: int,
    i: int,
    j: int,
)
    requires
        is_ranking(candidates, pages, min_count),
        0 <= i < j < candidates.len(),
    ensures
        candidates[i].count >= candidates[j].count,
        candidates[i].count == candidates[j].count ==> {
            let a = candidates[i].text;
            let b = candidates[j].text;
            ||| exists|k: int|
                0 <= k <= a.len() && k < b.len() && a.take(k) == #[trigger] b.take(k) && (k == a.len() || a[k] < b[k])
            ||| a == b && candidates[i].size < candidates[j].size
        },
{
    assert(ranks_before(candidates[i], candidates[j]));
    let a = candidates[i].text;
    let b = candidates[j].text;
    assert(a.take(0) =~= b.take(0));
    lemma_text_less(a, b, 0);
}

proof fn lemma_first_fault(objects: Map<ObjectId, Value>, pages: Seq<ObjectId>, n: int)
    requires
        0 <= n <= pages.len(),
    ensures
        match blocks_on_pages(objects, pages, n) {
            Ok(blocks) => blocks.len() == n && forall|p: int|
                0 <= p < n ==> (page_content(objects, #[trigger] pages[p]) matches Ok(content) && blocks[p]
                    == text_blocks(operations_of(content))),
            Err(fault) => exists|p: int|
                0 <= p < n && page_content(objects, #[trigger] pages[p]) == Err::<Seq<u8>, Fault>(fault)
                    && forall|q: int|
                    0 <= q < p ==> page_content(objects, #[trigger] pages[q]) is Ok,
        },
    decreases n,
{
    if n > 0 {
        lemma_first_fault(objects, pages, n - 1);
        match blocks_on_pages(objects, pages, n - 1) {
            Ok(before) => {
                if page_content(objects, pages[n - 1]) is Err {
                    assert forall|q: int| 0 <= q < n - 1 implies page_content(objects, #[trigger] pages[q]) is Ok by {}
                    assert(page_content(objects, pages[n - 1]) is Err);
                }
            },
            Err(fault) => {
                let p = choose|p: int|
                    0 <= p < n - 1 && page_content(objects, #[trigger] pages[p]) == Err::<Seq<u8>, Fault>(fault)
                        && forall|q: int| 0 <= q < p ==> page_content(objects, #[trigger] pages[q]) is Ok;
                assert(page_content(objects, pages[p]) == Err::<Seq<u8>, Fault>(fault));
            },
        }
    }
}

/// The blocks that are analyzed are those of the content of each page, page by page. The first page
/// whose content cannot be read is reported.
pub proof fn law_every_page_is_analyzed(objects: Map<ObjectId, Value>, pages: Seq<ObjectId>)
    ensures
        match blocks_on_pages(objects, pages, pages.len() as int) {
            Ok(blocks) => blocks.len() == pages.len() && forall|p: int|
                0 <= p < pages.len() ==> (page_content(objects, #[trigger] pages[p]) matches Ok(content) && blocks[p]
                    == text_blocks(operations_of(content))),
            Err(fault) => exists|p: int|
                0 <= p < pages.len() && page_content(objects, #[trigger] pages[p]) == Err::<Seq<u8>, Fault>(fault)
                    && forall|q: int| 0 <= q < p ==> page_content(objects, #[trigger] pages[q]) is Ok,
        },
{
    lemma_first_fault(objects, pages, pages.len() as int);
}

/// Of two numbers of pages the larger one counts.
pub proof fn law_larger_number_counts(a: usize, b: usize)
    ensures
        larger(a, b) >= a,
        larger(a, b) >= b,
        larger(a, b) == a || larger(a, b) == b,
{
}

/// The values of candidates and of blocks are as many as these, each one in its place.
pub proof fn law_each_candidate_has_its_value(candidates: Seq<Candidate>, pages: Seq<Vec<TextBlock>>)
    ensures
        candidate_values(candidates).len() == candidates.len(),
        forall|i: int|
            0 <= i < candidates.len() ==> {
                let value = #[trigger] candidate_values(candidates)[i];
                &&& value.text == candidates[i].text@
                &&& value.size == candidates[i].size
                &&& value.count == candidates[i].count
                &&& value.sample_page == candidates[i].sample_page
            },
        page_block_values(pages).len() == pages.len(),
        forall|p: int|
            0 <= p < pages.len() ==> (#[trigger] page_block_values(pages)[p]).len() == pages[p]@.len() && forall|i: int|
                0 <= i < pages[p]@.len() ==> {
                    let value = #[trigger] page_block_values(pages)[p][i];
                    let block = pages[p]@[i];
                    &&& value.text == block.text@
                    &&& value.size == block.size
                    &&& value.op_start == block.op_start
                    &&& value.op_end == block.op_end
                },
{
}

} // verus!
