//! The order of texts and of cluster keys.

use vstd::prelude::*;

verus! {

/// Whether `a` comes before `b` in the order of their characters' code points, from position `i`
/// on.
pub open spec fn text_less_from(a: Seq<char>, b: Seq<char>, i: int) -> bool
    decreases b.len() - i,
{
    if i >= b.len() {
        false
    } else if i >= a.len() {
        true
    } else if a[i] != b[i] {
        a[i] < b[i]
    } else {
        text_less_from(a, b, i + 1)
    }
}

/// Whether `a` comes before `b`: at the first difference it has the smaller character, or it ends.
pub open spec fn text_less(a: Seq<char>, b: Seq<char>) -> bool {
    text_less_from(a, b, 0)
}

/// Whether one cluster key comes before another: by text, then by size.
pub open spec fn key_less(a: (Seq<char>, u32), b: (Seq<char>, u32)) -> bool {
    text_less(a.0, b.0) || (a.0 == b.0 && a.1 < b.1)
}

proof fn lemma_text_irreflexive(a: Seq<char>, i: int)
    ensures
        !text_less_from(a, a, i),
    decreases a.len() - i,
{
    if i < a.len() {
        lemma_text_irreflexive(a, i + 1);
    }
}

proof fn lemma_text_transitive(a: Seq<char>, b: Seq<char>, c: Seq<char>, i: int)
    requires
        text_less_from(a, b, i),
        text_less_from(b, c, i),
    ensures
        text_less_from(a, c, i),
    decreases c.len() - i,
{
    if i < a.len() && i < b.len() && i < c.len() && a[i] == b[i] && b[i] == c[i] {
        lemma_text_transitive(a, b, c, i + 1);
    }
}

proof fn lemma_text_total(a: Seq<char>, b: Seq<char>, i: int)
    requires
        0 <= i <= a.len(),
        i <= b.len(),
        forall|j: int| 0 <= j < i ==> a[j] == b[j],
        !text_less_from(a, b, i),
        !text_less_from(b, a, i),
    ensures
        a == b,
    decreases b.len() - i,
{
    if i < a.len() && i < b.len() {
        lemma_text_total(a, b, i + 1);
    } else {
        assert(a =~= b);
    }
}

/// No key comes before itself.
pub proof fn lemma_key_irreflexive(a: (Seq<char>, u32))
    ensures
        !key_less(a, a),
{
    lemma_text_irreflexive(a.0, 0);
}

/// What comes before a key comes before all that come after it.
pub proof fn lemma_key_transitive(a: (Seq<char>, u32), b: (Seq<char>, u32), c: (Seq<char>, u32))
    requires
        key_less(a, b),
        key_less(b, c),
    ensures
        key_less(a, c),
{
    if text_less(a.0, b.0) && text_less(b.0, c.0) {
        lemma_text_transitive(a.0, b.0, c.0, 0);
    }
}

/// How two things are ordered.
#[derive(Debug, Clone, Copy, PartialEq, Eq, Structural)]
pub enum Relation {
    Before,
    Same,
    After,
}

/// How two cluster keys are ordered.
pub open spec fn key_relation(a: (Seq<char>, u32), b: (Seq<char>, u32)) -> Relation {
    if a == b {
        Relation::Same
    } else if key_less(a, b) {
        Relation::Before
    } else {
        Relation::After
    }
}

/// Of two keys that differ one comes before the other.
pub proof fn lemma_key_total(a: (Seq<char>, u32), b: (Seq<char>, u32))
    requires
        a != b,
        !key_less(a, b),
    ensures
        key_less(b, a),
{
    if a.0 != b.0 && !text_less(b.0, a.0) {
        lemma_text_total(a.0, b.0, 0);
    }
}

fn relate_texts(a: &[char], b: &[char]) -> (r: Relation)
    ensures
        r is Same <==> a@ == b@,
        r is Before <==> text_less(a@, b@),
{
    proof {
        lemma_text_irreflexive(a@, 0);
    }
    let mut i: usize = 0;
    while i < a.len() && i < b.len()
        invariant
            0 <= i <= a@.len(),
            i <= b@.len(),
            forall|j: int| 0 <= j < i ==> a@[j] == b@[j],
            text_less(a@, b@) == text_less_from(a@, b@, i as int),
            a@ == b@ ==> !text_less(a@, b@),
        decreases a@.len() - i,
    {
        if a[i] != b[i] {
            return if a[i] < b[i] { Relation::Before } else { Relation::After };
        }
        i += 1;
    }
    if i < b.len() {
        Relation::Before
    } else if i < a.len() {
        Relation::After
    } else {
        assert(a@ =~= b@);
        Relation::Same
    }
}

/// How two cluster keys are ordered.
pub fn relate_keys(a_text: &[char], a_size: u32, b_text: &[char], b_size: u32) -> (r: Relation)
    ensures
        r == key_relation((a_text@, a_size), (b_text@, b_size)),
{
    proof {
        lemma_text_irreflexive(a_text@, 0);
    }
    match relate_texts(a_text, b_text) {
        Relation::Same => if a_size == b_size {
            Relation::Same
        } else if a_size < b_size {
            Relation::Before
        } else {
            Relation::After
        },
        other => other,
    }
}

} // verus!
