//! The analysis: text blocks that repeat across pages are candidates for watermarks.

use crate::blocks::{block_values, extract_text_blocks, text_blocks, BlockValue, TextBlock};
use crate::content::{decode_content_or_empty, operations_of};
use crate::order::{key_less, lemma_key_irreflexive, lemma_key_total, lemma_key_transitive, relate_keys, Relation};
use crate::page::{page_content, page_content_bytes};
use crate::pdf::{document_objects, document_trailer, get_pages, page_list, Fault, PdfError};
use crate::size::{tenths, tenths_of};
use crate::text::{collapse_ws, collapsed};
use crate::value::Value;
use lopdf::{Document, ObjectId};
use vstd::prelude::*;
#[allow(unused_imports)]
use vstd::utf8::encode_utf8;

verus! {

/// A text that repeats across pages.
#[derive(Debug, Clone)]
pub struct Candidate {
    /// The text, with its white space collapsed. It can be used as a keyword for removal.
    pub text: String,
    /// The font size, in tenths of a point.
    pub size: u32,
    /// The number of pages on which the text appears in this size.
    pub count: usize,
    /// The first of these pages, counted from zero.
    pub sample_page: usize,
}

/// What a [`Candidate`] holds.
pub struct CandidateValue {
    pub text: Seq<char>,
    pub size: u32,
    pub count: int,
    pub sample_page: int,
}

impl View for Candidate {
    type V = CandidateValue;

    open spec fn view(&self) -> CandidateValue {
        CandidateValue {
            text: self.text@,
            size: self.size,
            count: self.count as int,
            sample_page: self.sample_page as int,
        }
    }
}

pub open spec fn candidate_values(candidates: Seq<Candidate>) -> Seq<CandidateValue> {
    Seq::new(candidates.len(), |i: int| candidates[i]@)
}

/// What blocks are told apart by: the text and the size in tenths of a point.
pub open spec fn key_of(block: BlockValue) -> (Seq<char>, u32) {
    (collapsed(block.text), tenths_of(block.size))
}

/// Whether a block counts: its text takes two bytes or more.
pub open spec fn counts(block: BlockValue) -> bool {
    encode_utf8(collapsed(block.text)).len() >= 2
}

/// Whether a text appears in a size among these blocks.
pub open spec fn appears_among(blocks: Seq<BlockValue>, key: (Seq<char>, u32)) -> bool {
    exists|i: int| 0 <= i < blocks.len() && counts(#[trigger] blocks[i]) && key_of(blocks[i]) == key
}

/// Whether a text appears in a size on page `p`.
pub open spec fn appears(pages: Seq<Seq<BlockValue>>, key: (Seq<char>, u32), p: int) -> bool {
    0 <= p < pages.len() && appears_among(pages[p], key)
}

/// The pages on which a text appears in a size.
pub open spec fn pages_with(pages: Seq<Seq<BlockValue>>, key: (Seq<char>, u32)) -> Set<int> {
    Set::new(|p: int| appears(pages, key, p))
}

/// Whether a candidate is one for a text that appears on at least `min_count` pages.
pub open spec fn is_candidate(pages: Seq<Seq<BlockValue>>, candidate: CandidateValue, min_count: int) -> bool {
    let key = (candidate.text, candidate.size);
    &&& candidate.count == pages_with(pages, key).len()
    &&& candidate.count >= min_count
    &&& appears(pages, key, candidate.sample_page)
    &&& forall|p: int| #[trigger] appears(pages, key, p) ==> candidate.sample_page <= p
}

/// Whether there is a candidate for a text in a size.
pub open spec fn has_candidate(candidates: Seq<CandidateValue>, key: (Seq<char>, u32)) -> bool {
    exists|i: int| 0 <= i < candidates.len() && ((#[trigger] candidates[i]).text, candidates[i].size) == key
}

/// The order of candidates: those on more pages first, then by text and size.
pub open spec fn ranks_before(a: CandidateValue, b: CandidateValue) -> bool {
    a.count > b.count || (a.count == b.count && key_less((a.text, a.size), (b.text, b.size)))
}

pub open spec fn ranked(candidates: Seq<CandidateValue>) -> bool {
    forall|i: int, j: int|
        0 <= i < j < candidates.len() ==> ranks_before(#[trigger] candidates[i], #[trigger] candidates[j])
}

/// Whether these are the candidates for all the texts that appear on at least `min_count` pages,
/// one for each, in order.
pub open spec fn is_ranking(
    candidates: Seq<CandidateValue>,
    pages: Seq<Seq<BlockValue>>,
    min_count: int,
) -> bool {
    &&& forall|i: int| 0 <= i < candidates.len() ==> is_candidate(pages, #[trigger] candidates[i], min_count)
    &&& forall|key: (Seq<char>, u32), p: int| #[trigger]
        appears(pages, key, p) && pages_with(pages, key).len() >= min_count ==> has_candidate(candidates, key)
    &&& ranked(candidates)
}

/// The text blocks of the first `n` pages, page by page.
pub open spec fn blocks_on_pages(objects: Map<ObjectId, Value>, pages: Seq<ObjectId>, n: int) -> Result<
    Seq<Seq<BlockValue>>,
    Fault,
>
    decreases n,
{
    if n <= 0 {
        Ok(Seq::empty())
    } else {
        match blocks_on_pages(objects, pages, n - 1) {
            Err(fault) => Err(fault),
            Ok(before) => match page_content(objects, pages[n - 1]) {
                Err(fault) => Err(fault),
                Ok(content) => Ok(before.push(text_blocks(operations_of(content)))),
            },
        }
    }
}

pub open spec fn page_block_values(pages: Seq<Vec<TextBlock>>) -> Seq<Seq<BlockValue>> {
    Seq::new(pages.len(), |p: int| block_values(pages[p]@))
}

/// The pages on which one text appears in one size.
struct Cluster {
    text: String,
    chars: Vec<char>,
    size: u32,
    count: usize,
    first: usize,
    last: usize,
}

spec fn cluster_key(cluster: Cluster) -> (Seq<char>, u32) {
    (cluster.chars@, cluster.size)
}

spec fn pages_seen(seen: Set<((Seq<char>, u32), int)>, key: (Seq<char>, u32)) -> Set<int> {
    Set::new(|p: int| seen.contains((key, p)))
}

/// Whether a cluster says on which pages its text was seen.
spec fn cluster_tells(cluster: Cluster, seen: Set<((Seq<char>, u32), int)>) -> bool {
    let pages = pages_seen(seen, cluster_key(cluster));
    &&& cluster.text@ == cluster.chars@
    &&& pages.finite()
    &&& pages.len() == cluster.count
    &&& cluster.count <= cluster.last + 1
    &&& pages.contains(cluster.first as int)
    &&& pages.contains(cluster.last as int)
    &&& forall|p: int| #[trigger] pages.contains(p) ==> cluster.first <= p <= cluster.last
}

/// Whether clusters say which texts were seen, and on which pages.
spec fn clusters_tell(clusters: Seq<Cluster>, seen: Set<((Seq<char>, u32), int)>) -> bool {
    &&& forall|i: int| 0 <= i < clusters.len() ==> cluster_tells(#[trigger] clusters[i], seen)
    &&& forall|key: (Seq<char>, u32), p: int| #[trigger]
        seen.contains((key, p)) ==> exists|i: int|
            0 <= i < clusters.len() && cluster_key(#[trigger] clusters[i]) == key
}

spec fn clusters_ordered(clusters: Seq<Cluster>) -> bool {
    forall|i: int, j: int|
        0 <= i < j < clusters.len() ==> key_less(
            cluster_key(#[trigger] clusters[i]),
            cluster_key(#[trigger] clusters[j]),
        )
}

/// The characters of a text.
fn text_chars(text: &str) -> (r: Vec<char>)
    ensures
        r@ == text@,
{
    let mut out: Vec<char> = Vec::new();
    for c in chars: text.chars()
        invariant
            chars.seq() == text@,
            out@ == text@.take(chars.index()),
    {
        out.push(c);
        assert(out@ =~= text@.take(chars.index() + 1));
    }
    assert(text@.take(text@.len() as int) =~= text@);
    out
}

/// The position of the cluster with a key, or the position at which it would have to be inserted.
fn find_cluster(clusters: &[Cluster], chars: &[char], size: u32) -> (r: (usize, bool))
    requires
        clusters_ordered(clusters@),
    ensures
        r.0 <= clusters@.len(),
        forall|i: int| 0 <= i < r.0 ==> key_less(cluster_key(#[trigger] clusters@[i]), (chars@, size)),
        r.1 ==> r.0 < clusters@.len() && cluster_key(clusters@[r.0 as int]) == (chars@, size),
        !r.1 ==> forall|i: int|
            r.0 <= i < clusters@.len() ==> key_less((chars@, size), cluster_key(#[trigger] clusters@[i])),
{
    let ghost key = (chars@, size);
    let mut low: usize = 0;
    let mut high: usize = clusters.len();
    while low < high
        invariant
            key == (chars@, size),
            clusters_ordered(clusters@),
            low <= high <= clusters@.len(),
            forall|i: int| 0 <= i < low ==> key_less(cluster_key(#[trigger] clusters@[i]), key),
            forall|i: int| high <= i < clusters@.len() ==> key_less(key, cluster_key(#[trigger] clusters@[i])),
        decreases high - low,
    {
        let middle: usize = low + (high - low) / 2;
        let ghost found = cluster_key(clusters@[middle as int]);
        match relate_keys(clusters[middle].chars.as_slice(), clusters[middle].size, chars, size) {
            Relation::Same => {
                return (middle, true);
            },
            Relation::Before => {
                assert forall|i: int| 0 <= i < middle + 1 implies key_less(
                    cluster_key(#[trigger] clusters@[i]),
                    key,
                ) by {
                    if i < middle {
                        lemma_key_transitive(cluster_key(clusters@[i]), found, key);
                    }
                }
                low = middle + 1;
            },
            Relation::After => {
                proof {
                    lemma_key_total(found, key);
                }
                assert forall|i: int| middle <= i < clusters@.len() implies key_less(
                    key,
                    cluster_key(#[trigger] clusters@[i]),
                ) by {
                    if i > middle {
                        lemma_key_transitive(key, found, cluster_key(clusters@[i]));
                    }
                }
                high = middle;
            },
        }
    }
    (low, false)
}

/// To see a text on a page adds the page to those on which it was seen, and changes nothing else.
proof fn lemma_seen(seen: Set<((Seq<char>, u32), int)>, key: (Seq<char>, u32), page: int)
    ensures
        pages_seen(seen.insert((key, page)), key) == pages_seen(seen, key).insert(page),
        forall|other: (Seq<char>, u32)|
            other != key ==> #[trigger] pages_seen(seen.insert((key, page)), other) == pages_seen(seen, other),
{
    assert(pages_seen(seen.insert((key, page)), key) =~= pages_seen(seen, key).insert(page));
    assert forall|other: (Seq<char>, u32)| other != key implies #[trigger] pages_seen(
        seen.insert((key, page)),
        other,
    ) == pages_seen(seen, other) by {
        assert(pages_seen(seen.insert((key, page)), other) =~= pages_seen(seen, other));
    }
}

/// Takes down that a text was seen on a page, which is the last one or one behind it.
fn record(clusters: &mut Vec<Cluster>, text: String, size: u32, page: usize, Ghost(seen): Ghost<
    Set<((Seq<char>, u32), int)>,
>)
    requires
        page < usize::MAX,
        clusters_ordered(old(clusters)@),
        clusters_tell(old(clusters)@, seen),
        forall|key: (Seq<char>, u32), p: int| #[trigger] seen.contains((key, p)) ==> p <= page,
    ensures
        clusters_ordered(final(clusters)@),
        clusters_tell(final(clusters)@, seen.insert(((text@, size), page as int))),
{
    let ghost before = clusters@;
    let ghost key = (text@, size);
    let ghost after_seen = seen.insert((key, page as int));
    let chars = text_chars(text.as_str());
    let (at, found) = find_cluster(clusters.as_slice(), chars.as_slice(), size);
    proof {
        lemma_seen(seen, key, page as int);
        lemma_key_irreflexive(key);
        assert forall|i: int| 0 <= i < before.len() && cluster_key(#[trigger] before[i]) != key implies cluster_tells(
            before[i],
            after_seen,
        ) by {
            assert(cluster_tells(before[i], seen));
        }
    }
    if found {
        assert(cluster_tells(before[at as int], seen));
        assert(seen.contains((key, before[at as int].last as int)));
        if clusters[at].last != page {
            let count = clusters[at].count;
            clusters[at].count = count + 1;
            clusters[at].last = page;
        }
        proof {
            let after = clusters@;
            assert(forall|i: int| 0 <= i < before.len() ==> cluster_key(#[trigger] after[i]) == cluster_key(before[i]));
            assert forall|i: int| 0 <= i < after.len() implies cluster_tells(#[trigger] after[i], after_seen) by {
                if i != at {
                    assert(after[i] == before[i]);
                    if i < at {
                        assert(key_less(cluster_key(before[i]), cluster_key(before[at as int])));
                    } else {
                        assert(key_less(cluster_key(before[at as int]), cluster_key(before[i])));
                    }
                }
            }
            assert forall|k: (Seq<char>, u32), p: int| #[trigger] after_seen.contains((k, p)) implies exists|i: int|
                0 <= i < after.len() && cluster_key(#[trigger] after[i]) == k by {
                if k == key {
                    assert(cluster_key(after[at as int]) == k);
                } else {
                    assert(seen.contains((k, p)));
                    let i = choose|i: int| 0 <= i < before.len() && cluster_key(#[trigger] before[i]) == k;
                    assert(cluster_key(after[i]) == k);
                }
            }
            assert forall|i: int, j: int| 0 <= i < j < after.len() implies key_less(
                cluster_key(#[trigger] after[i]),
                cluster_key(#[trigger] after[j]),
            ) by {
                assert(key_less(cluster_key(before[i]), cluster_key(before[j])));
            }
        }
    } else {
        proof {
            assert forall|p: int| !pages_seen(seen, key).contains(p) by {
                if seen.contains((key, p)) {
                    let i = choose|i: int| 0 <= i < before.len() && cluster_key(#[trigger] before[i]) == key;
                    if i < at {
                        assert(key_less(cluster_key(before[i]), key));
                    } else {
                        assert(key_less(key, cluster_key(before[i])));
                    }
                }
            }
            assert(pages_seen(seen, key) =~= Set::empty());
        }
        let cluster = Cluster { text, chars, size, count: 1, first: page, last: page };
        let ghost new = cluster;
        clusters.insert(at, cluster);
        proof {
            let after = clusters@;
            assert(after =~= before.insert(at as int, new));
            assert(cluster_tells(new, after_seen));
            assert forall|i: int| 0 <= i < after.len() implies cluster_tells(#[trigger] after[i], after_seen) by {
                if i < at {
                    assert(after[i] == before[i]);
                    assert(key_less(cluster_key(before[i]), key));
                } else if i > at {
                    assert(after[i] == before[i - 1]);
                    assert(key_less(key, cluster_key(before[i - 1])));
                }
            }
            assert forall|k: (Seq<char>, u32), p: int| #[trigger] after_seen.contains((k, p)) implies exists|i: int|
                0 <= i < after.len() && cluster_key(#[trigger] after[i]) == k by {
                if k == key {
                    assert(cluster_key(after[at as int]) == k);
                } else {
                    assert(seen.contains((k, p)));
                    let i = choose|i: int| 0 <= i < before.len() && cluster_key(#[trigger] before[i]) == k;
                    if i < at {
                        assert(cluster_key(after[i]) == k);
                    } else {
                        assert(cluster_key(after[i + 1]) == k);
                    }
                }
            }
            assert forall|i: int, j: int| 0 <= i < j < after.len() implies key_less(
                cluster_key(#[trigger] after[i]),
                cluster_key(#[trigger] after[j]),
            ) by {
                let a = if i < at { i } else { i - 1 };
                let b = if j < at { j } else { j - 1 };
                if i == at {
                    assert(key_less(key, cluster_key(before[b])));
                } else if j == at {
                    assert(key_less(cluster_key(before[a]), key));
                } else {
                    assert(key_less(cluster_key(before[a]), cluster_key(before[b])));
                }
            }
        }
    }
}

/// The texts and sizes that appear on the pages, with the pages.
spec fn all_seen(pages: Seq<Seq<BlockValue>>) -> Set<((Seq<char>, u32), int)> {
    Set::new(|seen: ((Seq<char>, u32), int)| appears(pages, seen.0, seen.1))
}

/// Groups the blocks of all pages by text and size.
fn gather(pages: &[Vec<TextBlock>]) -> (r: Vec<Cluster>)
    ensures
        clusters_ordered(r@),
        clusters_tell(r@, all_seen(page_block_values(pages@))),
{
    let ghost values = page_block_values(pages@);
    let ghost mut seen: Set<((Seq<char>, u32), int)> = Set::empty();
    let mut clusters: Vec<Cluster> = Vec::new();
    for p in 0..pages.len()
        invariant
            values == page_block_values(pages@),
            clusters_ordered(clusters@),
            clusters_tell(clusters@, seen),
            forall|key: (Seq<char>, u32), q: int| #[trigger]
                seen.contains((key, q)) <==> q < p && appears(values, key, q),
    {
        let blocks = &pages[p];
        let ghost own = values[p as int];
        assert(own == block_values(blocks@));
        assert forall|key: (Seq<char>, u32), q: int| #[trigger] seen.contains((key, q)) <==> (q < p && appears(
            values,
            key,
            q,
        )) || (q == p && appears_among(own.take(0), key)) by {}
        for j in 0..blocks.len()
            invariant
                p < pages@.len(),
                p < usize::MAX,
                values == page_block_values(pages@),
                own == values[p as int],
                own == block_values(blocks@),
                clusters_ordered(clusters@),
                clusters_tell(clusters@, seen),
                forall|key: (Seq<char>, u32), q: int| #[trigger]
                    seen.contains((key, q)) <==> (q < p && appears(values, key, q)) || (q == p && appears_among(
                        own.take(j as int),
                        key,
                    )),
        {
            let ghost block = own[j as int];
            assert(block == blocks@[j as int]@);
            let ghost before = own.take(j as int);
            let ghost after = own.take(j + 1);
            assert(after[j as int] == block);
            assert(forall|i: int| 0 <= i < j ==> before[i] == #[trigger] after[i]);
            let text = collapse_ws(blocks[j].text.as_str());
            let size = tenths(blocks[j].size);
            let ghost old_seen = seen;
            if text.as_str().as_bytes().len() >= 2 {
                let ghost key = (text@, size);
                record(&mut clusters, text, size, p, Ghost(seen));
                proof {
                    seen = seen.insert((key, p as int));
                }
                assert(appears_among(after, key)) by {
                    assert(counts(after[j as int]) && key_of(after[j as int]) == key);
                }
            }
            assert forall|key: (Seq<char>, u32)| appears_among(after, key) implies appears_among(before, key) || (
            counts(block) && key_of(block) == key) by {
                let i = choose|i: int| 0 <= i < after.len() && counts(#[trigger] after[i]) && key_of(after[i]) == key;
                if i < j {
                    assert(counts(before[i]) && key_of(before[i]) == key);
                }
            }
            assert forall|key: (Seq<char>, u32)| appears_among(before, key) implies appears_among(after, key) by {
                let i = choose|i: int|
                    0 <= i < before.len() && counts(#[trigger] before[i]) && key_of(before[i]) == key;
                assert(counts(after[i]) && key_of(after[i]) == key);
            }
            assert forall|key: (Seq<char>, u32), q: int| #[trigger] seen.contains((key, q)) <==> (q < p && appears(
                values,
                key,
                q,
            )) || (q == p && appears_among(after, key)) by {
                assert(old_seen.contains((key, q)) <==> (q < p && appears(values, key, q)) || (q == p
                    && appears_among(before, key)));
            }
        }
        assert(own.take(blocks@.len() as int) =~= own);
    }
    assert(seen =~= all_seen(values));
    clusters
}

/// The position behind the candidates that appear on at least `count` pages.
fn rank_of(candidates: &[Candidate], count: usize) -> (r: usize)
    requires
        ranked(candidate_values(candidates@)),
    ensures
        r <= candidates@.len(),
        forall|i: int| 0 <= i < r ==> (#[trigger] candidates@[i]).count >= count,
        forall|i: int| r <= i < candidates@.len() ==> (#[trigger] candidates@[i]).count < count,
{
    let ghost values = candidate_values(candidates@);
    let mut low: usize = 0;
    let mut high: usize = candidates.len();
    while low < high
        invariant
            values == candidate_values(candidates@),
            ranked(values),
            low <= high <= candidates@.len(),
            forall|i: int| 0 <= i < low ==> (#[trigger] candidates@[i]).count >= count,
            forall|i: int| high <= i < candidates@.len() ==> (#[trigger] candidates@[i]).count < count,
        decreases high - low,
    {
        let middle: usize = low + (high - low) / 2;
        assert(values[middle as int] == candidates@[middle as int]@);
        if candidates[middle].count >= count {
            assert forall|i: int| 0 <= i < middle + 1 implies (#[trigger] candidates@[i]).count >= count by {
                assert(values[i] == candidates@[i]@);
                if i < middle {
                    assert(ranks_before(values[i], values[middle as int]));
                }
            }
            low = middle + 1;
        } else {
            assert forall|i: int| middle <= i < candidates@.len() implies (#[trigger] candidates@[i]).count
                < count by {
                assert(values[i] == candidates@[i]@);
                if i > middle {
                    assert(ranks_before(values[middle as int], values[i]));
                }
            }
            high = middle;
        }
    }
    low
}

/// Whether a candidate stands for a cluster.
spec fn stands_for(candidate: CandidateValue, cluster: Cluster) -> bool {
    &&& (candidate.text, candidate.size) == cluster_key(cluster)
    &&& candidate.count == cluster.count
    &&& candidate.sample_page == cluster.first
}

/// Whether a candidate stands for one of the first `n` clusters that counts enough pages.
spec fn is_backed(candidate: CandidateValue, clusters: Seq<Cluster>, n: int, min_count: int) -> bool {
    exists|c: int| 0 <= c < n && stands_for(candidate, #[trigger] clusters[c]) && clusters[c].count >= min_count
}

/// Whether the candidates stand for those of the first `n` clusters that count enough pages.
spec fn candidates_for(candidates: Seq<CandidateValue>, clusters: Seq<Cluster>, n: int, min_count: int) -> bool {
    &&& forall|i: int|
        0 <= i < candidates.len() ==> is_backed(#[trigger] candidates[i], clusters, n, min_count)
    &&& forall|c: int|
        0 <= c < n && (#[trigger] clusters[c]).count >= min_count ==> has_candidate(
            candidates,
            cluster_key(clusters[c]),
        )
}

/// The clusters that count enough pages, as candidates in order.
fn rank(clusters: Vec<Cluster>, min_count: usize) -> (r: Vec<Candidate>)
    requires
        clusters_ordered(clusters@),
        forall|c: int| 0 <= c < clusters@.len() ==> (#[trigger] clusters@[c]).text@ == clusters@[c].chars@,
    ensures
        ranked(candidate_values(r@)),
        candidates_for(candidate_values(r@), clusters@, clusters@.len() as int, min_count as int),
{
    let mut out: Vec<Candidate> = Vec::new();
    for n in 0..clusters.len()
        invariant
            clusters_ordered(clusters@),
            forall|c: int| 0 <= c < clusters@.len() ==> (#[trigger] clusters@[c]).text@ == clusters@[c].chars@,
            ranked(candidate_values(out@)),
            candidates_for(candidate_values(out@), clusters@, n as int, min_count as int),
    {
        let ghost before = candidate_values(out@);
        let ghost cluster = clusters@[n as int];
        let ghost key = cluster_key(cluster);
        assert forall|candidate: CandidateValue|
            is_backed(candidate, clusters@, n as int, min_count as int) implies #[trigger] is_backed(
            candidate,
            clusters@,
            n + 1,
            min_count as int,
        ) by {
            let c = choose|c: int|
                0 <= c < n && stands_for(candidate, #[trigger] clusters@[c]) && clusters@[c].count >= min_count;
            assert(stands_for(candidate, clusters@[c]));
        }
        if clusters[n].count >= min_count {
            let candidate = Candidate {
                text: clusters[n].text.clone(),
                size: clusters[n].size,
                count: clusters[n].count,
                sample_page: clusters[n].first,
            };
            let ghost new = candidate@;
            let at = rank_of(out.as_slice(), candidate.count);
            out.insert(at, candidate);
            proof {
                let after = candidate_values(out@);
                assert(after =~= before.insert(at as int, new));
                assert(stands_for(new, cluster));
                assert forall|i: int| 0 <= i < after.len() implies is_backed(
                    #[trigger] after[i],
                    clusters@,
                    n + 1,
                    min_count as int,
                ) by {
                    if i == at {
                        assert(stands_for(after[i], clusters@[n as int]));
                    } else {
                        let j = if i < at { i } else { i - 1 };
                        assert(after[i] == before[j]);
                        assert(is_backed(before[j], clusters@, n as int, min_count as int));
                    }
                }
                assert forall|c: int| 0 <= c < n + 1 && (#[trigger] clusters@[c]).count
                    >= min_count implies has_candidate(after, cluster_key(clusters@[c])) by {
                    if c == n {
                        assert((after[at as int].text, after[at as int].size) == key);
                    } else {
                        assert(has_candidate(before, cluster_key(clusters@[c])));
                        let j = choose|j: int|
                            0 <= j < before.len() && ((#[trigger] before[j]).text, before[j].size) == cluster_key(
                                clusters@[c],
                            );
                        let i = if j < at { j } else { j + 1 };
                        assert(after[i] == before[j]);
                    }
                }
                assert forall|i: int, j: int| 0 <= i < j < after.len() implies ranks_before(
                    #[trigger] after[i],
                    #[trigger] after[j],
                ) by {
                    let a = if i < at { i } else { i - 1 };
                    let b = if j < at { j } else { j - 1 };
                    if i == at {
                        assert(after[j] == before[b]);
                        assert(before[b].count < new.count);
                    } else if j == at {
                        assert(after[i] == before[a]);
                        assert(before[a].count >= new.count);
                        assert(is_backed(before[a], clusters@, n as int, min_count as int));
                        let c = choose|c: int|
                            0 <= c < n && stands_for(before[a], #[trigger] clusters@[c]) && clusters@[c].count
                                >= min_count;
                        assert(key_less(cluster_key(clusters@[c]), cluster_key(clusters@[n as int])));
                    } else {
                        assert(after[i] == before[a] && after[j] == before[b]);
                        assert(ranks_before(before[a], before[b]));
                    }
                }
            }
        }
    }
    out
}

/// The candidates for all the texts that appear, in one size, on at least `min_count` pages:
/// those on more pages first, then by text and size.
pub fn repeated_texts(pages: &[Vec<TextBlock>], min_count: usize) -> (r: Vec<Candidate>)
    ensures
        is_ranking(candidate_values(r@), page_block_values(pages@), min_count as int),
{
    let ghost values = page_block_values(pages@);
    let ghost seen = all_seen(values);
    let clusters = gather(pages);
    let ghost told = clusters@;
    proof {
        assert forall|c: int| 0 <= c < told.len() implies (#[trigger] told[c]).text@ == told[c].chars@ by {
            assert(cluster_tells(told[c], seen));
        }
        assert forall|key: (Seq<char>, u32)| #[trigger] pages_with(values, key) == pages_seen(seen, key) by {
            assert(pages_with(values, key) =~= pages_seen(seen, key));
        }
    }
    let out = rank(clusters, min_count);
    proof {
        let candidates = candidate_values(out@);
        assert forall|i: int| 0 <= i < candidates.len() implies is_candidate(
            values,
            #[trigger] candidates[i],
            min_count as int,
        ) by {
            assert(is_backed(candidates[i], told, told.len() as int, min_count as int));
            let c = choose|c: int|
                0 <= c < told.len() && stands_for(candidates[i], #[trigger] told[c]) && told[c].count >= min_count;
            let key = cluster_key(told[c]);
            assert(cluster_tells(told[c], seen));
            assert(pages_with(values, key) == pages_seen(seen, key));
            assert forall|p: int| #[trigger] appears(values, key, p) implies told[c].first <= p by {
                assert(pages_seen(seen, key).contains(p));
            }
        }
        assert forall|key: (Seq<char>, u32), p: int| #[trigger] appears(values, key, p) && pages_with(values, key).len()
            >= min_count implies has_candidate(candidates, key) by {
            assert(seen.contains((key, p)));
            let c = choose|c: int| 0 <= c < told.len() && cluster_key(#[trigger] told[c]) == key;
            assert(cluster_tells(told[c], seen));
            assert(pages_with(values, key) == pages_seen(seen, key));
        }
    }
    out
}

/// The text blocks of these pages, page by page.
pub fn page_blocks(doc: &Document, pages: &[ObjectId]) -> (r: Result<Vec<Vec<TextBlock>>, PdfError>)
    ensures
        match blocks_on_pages(document_objects(*doc), pages@, pages@.len() as int) {
            Ok(blocks) => r matches Ok(found) && page_block_values(found@) == blocks,
            Err(fault) => r matches Err(error) && error@ == fault,
        },
{
    let mut blocks: Vec<Vec<TextBlock>> = Vec::new();
    assert(page_block_values(blocks@) =~= Seq::<Seq<BlockValue>>::empty());
    for i in 0..pages.len()
        invariant
            blocks_on_pages(document_objects(*doc), pages@, i as int) == Ok::<Seq<Seq<BlockValue>>, Fault>(
                page_block_values(blocks@),
            ),
    {
        let content = match page_content_bytes(doc, pages[i]) {
            Ok(content) => content,
            Err(error) => {
                proof {
                    lemma_blocks_fault(document_objects(*doc), pages@, i + 1, pages@.len() as int);
                }
                return Err(error);
            },
        };
        let operations = decode_content_or_empty(content.as_slice());
        let ghost before = page_block_values(blocks@);
        let found = extract_text_blocks(operations.as_slice());
        let ghost new = block_values(found@);
        blocks.push(found);
        assert(page_block_values(blocks@) =~= before.push(new));
    }
    Ok(blocks)
}

/// The larger of two numbers of pages.
pub open spec fn larger(a: usize, b: usize) -> usize {
    if a >= b {
        a
    } else {
        b
    }
}

/// Finds the texts that repeat across the pages of a document: those that appear, in one size, on
/// at least `max(min_pages, ratio_pages)` pages. `ratio_pages` is the share of the pages that is
/// asked for, rounded up to whole pages.
pub fn analyze(doc: &Document, ratio_pages: usize, min_pages: usize) -> (r: Result<Vec<Candidate>, PdfError>)
    ensures
        ({
            let pages = page_list(document_objects(*doc), document_trailer(*doc));
            match blocks_on_pages(document_objects(*doc), pages, pages.len() as int) {
                Ok(blocks) => r matches Ok(candidates) && is_ranking(
                    candidate_values(candidates@),
                    blocks,
                    larger(ratio_pages, min_pages) as int,
                ),
                Err(fault) => r matches Err(error) && error@ == fault,
            }
        }),
{
    let min_count: usize = if ratio_pages >= min_pages { ratio_pages } else { min_pages };
    let pages = get_pages(doc);
    match page_blocks(doc, pages.as_slice()) {
        Ok(blocks) => Ok(repeated_texts(blocks.as_slice(), min_count)),
        Err(error) => Err(error),
    }
}

proof fn lemma_blocks_fault(objects: Map<ObjectId, Value>, pages: Seq<ObjectId>, n: int, m: int)
    requires
        n <= m,
        blocks_on_pages(objects, pages, n) is Err,
    ensures
        blocks_on_pages(objects, pages, m) == blocks_on_pages(objects, pages, n),
    decreases m - n,
{
    if n < m {
        lemma_blocks_fault(objects, pages, n, m - 1);
    }
}

} // verus!
