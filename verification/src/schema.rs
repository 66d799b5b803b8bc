//! Schema inference.
//!
//! A column's kind is derived from the raw text of its fields in one pass.
//! An empty field is a null and says nothing.  A non-empty field is integer
//! text, real-number text, or arbitrary text, and the running kind is joined
//! with that of every field in turn, so it only ever widens along the chain
//! Int, Float, Str.  A column that never shows a non-empty field falls back
//! to Str.

use vstd::prelude::*;
use crate::parse::{is_int_text, is_float_text, lemma_int_text_is_float_text};
use crate::value::{Kind, kind_le, kind_join, kind_rank};

verus! {

/// The kind of one non-empty field: the least general kind whose grammar
/// accepts the text.
pub open spec fn cell_kind(t: Seq<char>) -> Kind {
    if is_int_text(t) {
        Kind::Int
    } else if is_float_text(t) {
        Kind::Float
    } else {
        Kind::Str
    }
}

/// One field folded into the running kind.  Nothing is known before the
/// first non-empty field, and an empty field changes nothing.
pub open spec fn infer_step(acc: Option<Kind>, t: Seq<char>) -> Option<Kind> {
    if t.len() == 0 {
        acc
    } else {
        match acc {
            None => Some(cell_kind(t)),
            Some(k) => Some(kind_join(k, cell_kind(t))),
        }
    }
}

/// The running kind after folding every field of `texts` into `acc`.
pub open spec fn infer_fold(texts: Seq<Seq<char>>, acc: Option<Kind>) -> Option<Kind>
    decreases texts.len(),
{
    if texts.len() == 0 {
        acc
    } else {
        infer_fold(texts.drop_first(), infer_step(acc, texts[0]))
    }
}

/// The kind inferred for a whole column of raw fields.
pub open spec fn inferred_kind(texts: Seq<Seq<char>>) -> Kind {
    match infer_fold(texts, None) {
        None => Kind::Str,
        Some(k) => k,
    }
}

/// Folding distributes over concatenation of field sequences.
pub proof fn lemma_infer_fold_append(a: Seq<Seq<char>>, b: Seq<Seq<char>>, acc: Option<Kind>)
    ensures
        infer_fold(a + b, acc) == infer_fold(b, infer_fold(a, acc)),
    decreases a.len(),
{
    if a.len() == 0 {
        assert(a + b =~= b);
    } else {
        assert((a + b).drop_first() =~= a.drop_first() + b);
        assert((a + b)[0] == a[0]);
        lemma_infer_fold_append(a.drop_first(), b, infer_step(acc, a[0]));
    }
}

/// Folding one more field is one more step.
pub proof fn lemma_infer_fold_push(texts: Seq<Seq<char>>, t: Seq<char>, acc: Option<Kind>)
    ensures
        infer_fold(texts.push(t), acc) == infer_step(infer_fold(texts, acc), t),
{
    assert(texts.push(t) =~= texts + seq![t]);
    lemma_infer_fold_append(texts, seq![t], acc);
    let acc1 = infer_fold(texts, acc);
    assert(seq![t].drop_first() =~= Seq::<Seq<char>>::empty());
    assert(seq![t][0] == t);
    assert(infer_fold(Seq::<Seq<char>>::empty(), infer_step(acc1, t)) == infer_step(acc1, t));
    assert(infer_fold(seq![t], acc1) == infer_step(acc1, t));
}

/// What the fold computes: an upper bound of every non-empty field's kind
/// and of the start, attained by one of them.
pub proof fn lemma_infer_fold_bounds(texts: Seq<Seq<char>>, acc: Option<Kind>)
    ensures
        infer_fold(texts, acc) is None ==> acc is None && forall|i: int|
            0 <= i < texts.len() ==> texts[i].len() == 0,
        infer_fold(texts, acc) matches Some(k) ==> {
            &&& (acc matches Some(k0) ==> kind_le(k0, k))
            &&& forall|i: int|
                0 <= i < texts.len() && texts[i].len() > 0 ==> kind_le(cell_kind(texts[i]), k)
            &&& (acc == Some(k) || exists|i: int|
                0 <= i < texts.len() && texts[i].len() > 0 && cell_kind(texts[i]) == k)
        },
    decreases texts.len(),
{
    if texts.len() > 0 {
        let rest = texts.drop_first();
        let acc1 = infer_step(acc, texts[0]);
        lemma_infer_fold_bounds(rest, acc1);
        assert(forall|i: int| 0 <= i < rest.len() ==> rest[i] == texts[i + 1]);
        match infer_fold(texts, acc) {
            None => {
                assert(forall|i: int| 1 <= i < texts.len() ==> texts[i] == rest[i - 1]);
            },
            Some(k) => {
                assert forall|i: int|
                    0 <= i < texts.len() && texts[i].len() > 0 implies kind_le(
                    cell_kind(texts[i]),
                    k,
                ) by {
                    if i == 0 {
                        assert(acc1 matches Some(k1) ==> kind_le(k1, k));
                    } else {
                        assert(texts[i] == rest[i - 1]);
                    }
                }
                if acc != Some(k) {
                    if acc1 == Some(k) {
                        // the first field is what raised the kind to `k`
                        assert(texts[0].len() > 0);
                        assert(cell_kind(texts[0]) == k) by {
                            match acc {
                                None => {},
                                Some(k0) => {
                                    assert(kind_join(k0, cell_kind(texts[0])) == k && k0 != k);
                                },
                            }
                        }
                    } else {
                        let w = choose|i: int|
                            0 <= i < rest.len() && rest[i].len() > 0 && cell_kind(rest[i]) == k;
                        assert(texts[w + 1] == rest[w]);
                    }
                }
            },
        }
    }
}

/// Widening: once a column has shown a kind, further fields only move it up
/// the chain Int, Float, Str, never down.
pub proof fn lemma_inference_widens(texts: Seq<Seq<char>>, more: Seq<Seq<char>>)
    requires
        infer_fold(texts, None) is Some,
    ensures
        kind_le(inferred_kind(texts), inferred_kind(texts + more)),
{
    lemma_infer_fold_append(texts, more, None);
    lemma_infer_fold_bounds(more, infer_fold(texts, None));
}

/// The inferred kind is a property of the multiset of fields alone: feeding
/// the same fields in any order gives the same kind.
pub proof fn lemma_inference_permutation(a: Seq<Seq<char>>, b: Seq<Seq<char>>)
    requires
        a.to_multiset() == b.to_multiset(),
    ensures
        inferred_kind(a) == inferred_kind(b),
{
    broadcast use vstd::seq_lib::group_to_multiset_ensures;

    lemma_infer_fold_bounds(a, None);
    lemma_infer_fold_bounds(b, None);
    match infer_fold(a, None) {
        None => {
            match infer_fold(b, None) {
                None => {},
                Some(kb) => {
                    let i = choose|i: int|
                        0 <= i < b.len() && b[i].len() > 0 && cell_kind(b[i]) == kb;
                    assert(b.contains(b[i]));
                    assert(b.to_multiset().count(b[i]) > 0);
                    assert(a.to_multiset().count(b[i]) > 0);
                    assert(a.contains(b[i]));
                    let j = choose|j: int| 0 <= j < a.len() && a[j] == b[i];
                    assert(false);
                },
            }
        },
        Some(ka) => {
            let i = choose|i: int| 0 <= i < a.len() && a[i].len() > 0 && cell_kind(a[i]) == ka;
            assert(a.contains(a[i]));
            assert(a.to_multiset().count(a[i]) > 0);
            assert(b.to_multiset().count(a[i]) > 0);
            assert(b.contains(a[i]));
            let j = choose|j: int| 0 <= j < b.len() && b[j] == a[i];
            match infer_fold(b, None) {
                None => {
                    assert(false);
                },
                Some(kb) => {
                    assert(kind_le(ka, kb));
                    let i2 = choose|i2: int|
                        0 <= i2 < b.len() && b[i2].len() > 0 && cell_kind(b[i2]) == kb;
                    assert(b.contains(b[i2]));
                    assert(b.to_multiset().count(b[i2]) > 0);
                    assert(a.to_multiset().count(b[i2]) > 0);
                    assert(a.contains(b[i2]));
                    let j2 = choose|j2: int| 0 <= j2 < a.len() && a[j2] == b[i2];
                    assert(kind_le(kb, ka));
                    assert(kind_rank(ka) == kind_rank(kb));
                },
            }
        },
    }
}

/// Round trip: every non-null field of a column inferred as Int is integer
/// text, so reading it back as an integer cannot fail.
pub proof fn lemma_round_trip_int(texts: Seq<Seq<char>>)
    requires
        inferred_kind(texts) == Kind::Int,
    ensures
        forall|i: int| 0 <= i < texts.len() && texts[i].len() > 0 ==> is_int_text(texts[i]),
{
    lemma_infer_fold_bounds(texts, None);
}

/// Round trip: every non-null field of a column inferred as Float is
/// real-number text, so reading it back as a real number cannot fail.
pub proof fn lemma_round_trip_float(texts: Seq<Seq<char>>)
    requires
        inferred_kind(texts) == Kind::Float,
    ensures
        forall|i: int| 0 <= i < texts.len() && texts[i].len() > 0 ==> is_float_text(texts[i]),
{
    lemma_infer_fold_bounds(texts, None);
    assert forall|i: int|
        0 <= i < texts.len() && texts[i].len() > 0 implies is_float_text(texts[i]) by {
        assert(kind_le(cell_kind(texts[i]), Kind::Float));
        if is_int_text(texts[i]) {
            lemma_int_text_is_float_text(texts[i]);
        }
    }
}

} // verus!
