//! Laws that hold of the grammar as a whole, stated over the specification
//! functions that the parser's contracts use.
use crate::grammar::{
    assoc_set, fold_assoc, named_chars, spec_components, spec_float, spec_matrix, spec_nnet3,
    spec_parse_top_level, spec_scalar, EnvelopeV,
};
use crate::model::{tensor_wf, ModelView, TensorView};
use vstd::prelude::*;

verus! {

/// No two entries share a key.
pub open spec fn distinct_keys<V>(m: Seq<(Seq<char>, V)>) -> bool {
    forall|a: int, b: int| 0 <= a < b < m.len() ==> (#[trigger] m[a]).0 != (#[trigger] m[b]).0
}

/// Whether some entry binds `k`.
pub open spec fn has_key<V>(m: Seq<(Seq<char>, V)>, k: Seq<char>) -> bool {
    exists|l: int| 0 <= l < m.len() && (#[trigger] m[l]).0 == k
}

/// Insertion adds no key but the inserted one.
proof fn lemma_assoc_set_keys<V>(m: Seq<(Seq<char>, V)>, k: Seq<char>, v: V, k2: Seq<char>)
    requires
        has_key(assoc_set(m, k, v), k2),
    ensures
        k2 == k || has_key(m, k2),
    decreases m.len(),
{
    if m.len() == 0 {
    } else if m[0].0 == k {
        let r = assoc_set(m, k, v);
        let l = choose|l: int| 0 <= l < r.len() && (#[trigger] r[l]).0 == k2;
        if l > 0 {
            assert(m[l].0 == k2);
        }
    } else {
        let r = assoc_set(m, k, v);
        let l = choose|l: int| 0 <= l < r.len() && (#[trigger] r[l]).0 == k2;
        if l == 0 {
            assert(m[0].0 == k2);
        } else {
            assert(has_key(assoc_set(m.drop_first(), k, v), k2)) by {
                assert(assoc_set(m.drop_first(), k, v)[l - 1].0 == k2);
            }
            lemma_assoc_set_keys(m.drop_first(), k, v, k2);
            if has_key(m.drop_first(), k2) {
                let l2 = choose|l2: int|
                    0 <= l2 < m.drop_first().len() && (#[trigger] m.drop_first()[l2]).0 == k2;
                assert(m[l2 + 1].0 == k2);
            }
        }
    }
}

/// Every key of the folded list was a key of the bindings.
proof fn lemma_fold_keys<V>(entries: Seq<(Seq<char>, V)>, k: Seq<char>)
    requires
        has_key(fold_assoc(entries), k),
    ensures
        has_key(entries, k),
    decreases entries.len(),
{
    if entries.len() > 0 {
        lemma_assoc_set_keys(fold_assoc(entries.drop_last()), entries.last().0, entries.last().1, k);
        if k == entries.last().0 {
            assert(entries[entries.len() - 1].0 == k);
        } else {
            lemma_fold_keys(entries.drop_last(), k);
            let l = choose|l: int|
                0 <= l < entries.drop_last().len() && (#[trigger] entries.drop_last()[l]).0 == k;
            assert(entries[l].0 == k);
        }
    }
}

/// Inserting an absent key grows the list by one entry.
proof fn lemma_assoc_set_absent_len<V>(m: Seq<(Seq<char>, V)>, k: Seq<char>, v: V)
    requires
        !has_key(m, k),
    ensures
        assoc_set(m, k, v).len() == m.len() + 1,
    decreases m.len(),
{
    if m.len() > 0 {
        assert(m[0].0 != k);
        assert(!has_key(m.drop_first(), k)) by {
            if has_key(m.drop_first(), k) {
                let l = choose|l: int|
                    0 <= l < m.drop_first().len() && (#[trigger] m.drop_first()[l]).0 == k;
                assert(m[l + 1].0 == k);
            }
        }
        lemma_assoc_set_absent_len(m.drop_first(), k, v);
    }
}

/// Folding bindings with pairwise distinct keys loses none of them.
pub proof fn lemma_fold_distinct_len<V>(entries: Seq<(Seq<char>, V)>)
    requires
        distinct_keys(entries),
    ensures
        fold_assoc(entries).len() == entries.len(),
    decreases entries.len(),
{
    if entries.len() > 0 {
        let front = entries.drop_last();
        let k = entries.last().0;
        assert(distinct_keys(front));
        lemma_fold_distinct_len(front);
        assert(!has_key(fold_assoc(front), k)) by {
            if has_key(fold_assoc(front), k) {
                lemma_fold_keys(front, k);
                let l = choose|l: int| 0 <= l < front.len() && (#[trigger] front[l]).0 == k;
                assert(entries[l].0 == entries[entries.len() - 1].0);
            }
        }
        lemma_assoc_set_absent_len(fold_assoc(front), k, entries.last().1);
    }
}

/// Exactly `n` blocks come back from a successful counted parse.
proof fn lemma_components_count(s: Seq<u8>, pos: int, n: nat)
    ensures
        match spec_components(s, pos, n) {
            Some(r) => r.1.len() == n,
            None => true,
        },
    decreases n,
{
    if n > 0 {
        if let Some((p1, nm)) = crate::grammar::spec_component_name(s, pos) {
            if let Some((p2, c)) = crate::grammar::spec_component(s, p1) {
                lemma_components_count(s, p2, (n - 1) as nat);
            }
        }
    }
}

/// Law: a successful envelope parse consumes exactly as many component
/// blocks as the declared count announced.
pub proof fn lemma_declared_count(s: Seq<u8>)
    ensures
        match spec_parse_top_level(s, 0) {
            Some(env) => env.raw.len() == env.declared,
            None => true,
        },
{
    if let Some(env) = spec_parse_top_level(s, 0) {
        if let Some(p1) = crate::grammar::spec_open(s, 0, crate::grammar::tag_nnet3()) {
            if let Some(m) = crate::grammar::find_marker(s, p1) {
                if let Some((p2, v)) = crate::grammar::spec_num_components(s, m) {
                    lemma_components_count(s, p2, v as nat);
                }
            }
        }
    }
}

/// Law: when the parsed component names are pairwise distinct, the model
/// holds exactly one entry per declared block, so its component count equals
/// the declared count.
pub proof fn lemma_model_count(s: Seq<u8>, m: ModelView, env: EnvelopeV)
    requires
        spec_parse_top_level(s, 0) == Some(env),
        spec_nnet3(s) == Some(m),
        distinct_keys(named_chars(env.raw)),
    ensures
        m.components.len() == env.declared,
{
    lemma_declared_count(s);
    lemma_fold_distinct_len(named_chars(env.raw));
}

/// Law: parsing is deterministic.  The parse result is a function of the
/// input bytes alone, so the same byte sequence always yields structurally
/// equal models; the executable parser's contract ties its result to
/// `spec_nnet3`, which transfers this law to it.
pub proof fn lemma_parse_deterministic(s: Seq<u8>, m1: ModelView, m2: ModelView)
    requires
        spec_nnet3(s) == Some(m1),
        spec_nnet3(s) == Some(m2),
    ensures
        m1 == m2,
{
}

/// Law: any literal the float scanner accepts is classified as a float
/// scalar — the integer and boolean alternatives are never consulted.
pub proof fn lemma_float_first(s: Seq<u8>, pos: int)
    ensures
        match spec_float(s, pos) {
            Some(r) => spec_scalar(s, pos) == Some((r.0, TensorView::FloatScalar(r.1))),
            None => true,
        },
{
}

/// Law: a parsed matrix is well-formed — it has at least two rows and
/// exactly `rows * cols` elements.
pub proof fn lemma_matrix_shape(s: Seq<u8>, pos: int)
    ensures
        match spec_matrix(s, pos) {
            Some(r) => tensor_wf(r.1) && (match r.1 {
                TensorView::Matrix { rows, cols, data } => rows >= 2,
                _ => false,
            }),
            None => true,
        },
{
}

} // verus!
