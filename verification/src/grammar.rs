//! The grammar of the text envelope, written as total specification
//! functions over byte sequences.  Each function returns the position after
//! the construct it matched together with the parsed value, or `None` when
//! the construct does not match at that position.  The executable parser is
//! proved to return exactly what these functions describe.
use crate::model::{ComponentView, ModelView, TensorView};
use vstd::prelude::*;
use vstd::utf8::{
    codepoint_width_1, decode_first_codepoint, decode_utf8, is_leading_byte_width_1,
    leading_bits_width_1, length_of_first_codepoint, pop_first_scalar, valid_first_scalar,
    valid_utf8,
};

verus! {

// ---------------------------------------------------------------- byte classes
/// Horizontal whitespace: space or tab.
pub open spec fn is_hspace(b: u8) -> bool {
    b == 32 || b == 9
}

/// Any whitespace: space, tab, newline or carriage return.
pub open spec fn is_mspace(b: u8) -> bool {
    b == 32 || b == 9 || b == 10 || b == 13
}

pub open spec fn is_digit_byte(b: u8) -> bool {
    48 <= b <= 57
}

pub open spec fn is_alpha_byte(b: u8) -> bool {
    (65 <= b <= 90) || (97 <= b <= 122)
}

/// After its leading alphabetic byte, a name may continue with alphanumeric
/// bytes or any of `.`, `_`, `-`.
pub open spec fn is_name_byte(b: u8) -> bool {
    is_alpha_byte(b) || is_digit_byte(b) || b == 46 || b == 95 || b == 45
}

// ---------------------------------------------------------------- whitespace
/// First position at or after `pos` that does not hold horizontal whitespace.
pub open spec fn skip_hs(s: Seq<u8>, pos: int) -> int
    decreases s.len() - pos,
{
    if 0 <= pos < s.len() && is_hspace(s[pos]) {
        skip_hs(s, pos + 1)
    } else {
        pos
    }
}

/// First position at or after `pos` that does not hold whitespace of any kind.
pub open spec fn skip_ms(s: Seq<u8>, pos: int) -> int
    decreases s.len() - pos,
{
    if 0 <= pos < s.len() && is_mspace(s[pos]) {
        skip_ms(s, pos + 1)
    } else {
        pos
    }
}

pub proof fn lemma_skip_hs(s: Seq<u8>, pos: int)
    requires
        0 <= pos <= s.len(),
    ensures
        pos <= skip_hs(s, pos) <= s.len(),
    decreases s.len() - pos,
{
    if pos < s.len() && is_hspace(s[pos]) {
        lemma_skip_hs(s, pos + 1);
    }
}

pub proof fn lemma_skip_ms(s: Seq<u8>, pos: int)
    requires
        0 <= pos <= s.len(),
    ensures
        pos <= skip_ms(s, pos) <= s.len(),
    decreases s.len() - pos,
{
    if pos < s.len() && is_mspace(s[pos]) {
        lemma_skip_ms(s, pos + 1);
    }
}

// ---------------------------------------------------------------- literal tags
/// `t` occurs literally at position `pos` of `s`.
pub open spec fn tag_at(s: Seq<u8>, pos: int, t: Seq<u8>) -> bool {
    0 <= pos && pos + t.len() <= s.len() && s.subrange(pos, pos + t.len() as int) == t
}

/// The bytes of `Nnet3`.
pub open spec fn tag_nnet3() -> Seq<u8> {
    seq![78u8, 110u8, 101u8, 116u8, 51u8]
}

/// The bytes of `NumComponents`.
pub open spec fn tag_num_components() -> Seq<u8> {
    seq![78u8, 117u8, 109u8, 67u8, 111u8, 109u8, 112u8, 111u8, 110u8, 101u8, 110u8, 116u8, 115u8]
}

/// The bytes of `ComponentName`.
pub open spec fn tag_component_name() -> Seq<u8> {
    seq![67u8, 111u8, 109u8, 112u8, 111u8, 110u8, 101u8, 110u8, 116u8, 78u8, 97u8, 109u8, 101u8]
}

/// `<tag>`, tolerant of surrounding whitespace (newlines included).
pub open spec fn spec_open(s: Seq<u8>, pos: int, t: Seq<u8>) -> Option<int> {
    let p = skip_ms(s, pos);
    if 0 <= p < s.len() && s[p] == 60 && tag_at(s, p + 1, t) && p + 1 + t.len() < s.len() && s[p
        + 1 + t.len() as int] == 62 {
        Some(skip_ms(s, p + 2 + t.len()))
    } else {
        None
    }
}

/// `</tag>`, tolerant of surrounding whitespace (newlines included).
pub open spec fn spec_close(s: Seq<u8>, pos: int, t: Seq<u8>) -> Option<int> {
    let p = skip_ms(s, pos);
    if 0 <= p && p + 2 <= s.len() && s[p] == 60 && s[p + 1] == 47 && tag_at(s, p + 2, t) && p + 2
        + t.len() < s.len() && s[p + 2 + t.len() as int] == 62 {
        Some(skip_ms(s, p + 3 + t.len()))
    } else {
        None
    }
}

// ---------------------------------------------------------------- names
/// Length of the run of name bytes starting at `pos`.
pub open spec fn name_len(s: Seq<u8>, pos: int) -> int
    decreases s.len() - pos,
{
    if 0 <= pos < s.len() && is_name_byte(s[pos]) {
        1 + name_len(s, pos + 1)
    } else {
        0
    }
}

pub proof fn lemma_name_len(s: Seq<u8>, pos: int)
    requires
        0 <= pos <= s.len(),
    ensures
        0 <= name_len(s, pos),
        pos + name_len(s, pos) <= s.len(),
    decreases s.len() - pos,
{
    if pos < s.len() && is_name_byte(s[pos]) {
        lemma_name_len(s, pos + 1);
    }
}

/// An identifier: one alphabetic byte, then the longest run of name bytes.
pub open spec fn spec_name(s: Seq<u8>, pos: int) -> Option<(int, Seq<u8>)> {
    if 0 <= pos < s.len() && is_alpha_byte(s[pos]) {
        let n = name_len(s, pos);
        Some((pos + n, s.subrange(pos, pos + n)))
    } else {
        None
    }
}

/// `<` identifier `>`, returning the identifier, whitespace-tolerant outside.
pub open spec fn spec_open_any(s: Seq<u8>, pos: int) -> Option<(int, Seq<u8>)> {
    let p = skip_ms(s, pos);
    if 0 <= p < s.len() && s[p] == 60 {
        match spec_name(s, p + 1) {
            Some((p2, nm)) => if p2 < s.len() && s[p2] == 62 {
                Some((skip_ms(s, p2 + 1), nm))
            } else {
                None
            },
            None => None,
        }
    } else {
        None
    }
}

// ---------------------------------------------------------------- integers
/// Length of the run of decimal digits starting at `pos`.
pub open spec fn digit_run(s: Seq<u8>, pos: int) -> int
    decreases s.len() - pos,
{
    if 0 <= pos < s.len() && is_digit_byte(s[pos]) {
        1 + digit_run(s, pos + 1)
    } else {
        0
    }
}

pub proof fn lemma_digit_run(s: Seq<u8>, pos: int)
    requires
        0 <= pos <= s.len(),
    ensures
        0 <= digit_run(s, pos),
        pos + digit_run(s, pos) <= s.len(),
    decreases s.len() - pos,
{
    if pos < s.len() && is_digit_byte(s[pos]) {
        lemma_digit_run(s, pos + 1);
    }
}

pub proof fn lemma_digit_run_digits(s: Seq<u8>, pos: int)
    requires
        0 <= pos <= s.len(),
    ensures
        forall|k: int| pos <= k < pos + digit_run(s, pos) ==> is_digit_byte(s[k]),
    decreases s.len() - pos,
{
    if pos < s.len() && is_digit_byte(s[pos]) {
        lemma_digit_run_digits(s, pos + 1);
    }
}

pub proof fn lemma_name_len_bytes(s: Seq<u8>, pos: int)
    requires
        0 <= pos <= s.len(),
    ensures
        forall|k: int| pos <= k < pos + name_len(s, pos) ==> is_name_byte(s[k]),
    decreases s.len() - pos,
{
    if pos < s.len() && is_name_byte(s[pos]) {
        lemma_name_len_bytes(s, pos + 1);
    }
}

/// Value of the `n` decimal digits `s[pos .. pos + n]`.
pub open spec fn digits_val(s: Seq<u8>, pos: int, n: int) -> int
    decreases n,
{
    if n <= 0 {
        0
    } else {
        digits_val(s, pos, n - 1) * 10 + (s[pos + n - 1] - 48)
    }
}

/// A longer run of digits never has a smaller value: appending a digit
/// multiplies by ten and adds a non-negative amount.
pub proof fn lemma_digits_val_grows(s: Seq<u8>, pos: int, k: int, m: int)
    requires
        0 <= k <= m,
        0 <= pos,
        pos + m <= s.len(),
        forall|l: int| pos <= l < pos + m ==> is_digit_byte(s[l]),
    ensures
        0 <= digits_val(s, pos, k) <= digits_val(s, pos, m),
    decreases m,
{
    if m == 0 {
    } else if k == m {
        lemma_digits_val_grows(s, pos, m - 1, m - 1);
        assert(is_digit_byte(s[pos + (m - 1)]));
    } else {
        lemma_digits_val_grows(s, pos, k, m - 1);
        assert(is_digit_byte(s[pos + (m - 1)]));
    }
}

/// An optional `-` then one or more digits, whose value must fit in 32 signed
/// bits; otherwise the integer alternative fails.
pub open spec fn spec_integer(s: Seq<u8>, pos: int) -> Option<(int, int)> {
    if 0 <= pos < s.len() {
        let neg = s[pos] == 45;
        let dpos = if neg {
            pos + 1
        } else {
            pos
        };
        let n = digit_run(s, dpos);
        if n >= 1 {
            let mag = digits_val(s, dpos, n);
            let v = if neg {
                -mag
            } else {
                mag
            };
            if -0x8000_0000 <= v <= 0x7fff_ffff {
                Some((dpos + n, v))
            } else {
                None
            }
        } else {
            None
        }
    } else {
        None
    }
}

// ---------------------------------------------------------------- floats
/// What the outside float scanner recognises at the head of a byte sequence:
/// the IEEE-754 bits of the scanned 32-bit float and the number of bytes it
/// consumed, or `None` when no float literal starts there.  The result is a
/// function of the bytes alone; its exact shape is stated nowhere and enters
/// proofs only through this name.
pub uninterp spec fn float_scan(s: Seq<u8>) -> Option<(u32, nat)>;

/// The float scanner applied at position `pos`: on success it consumes at
/// least one byte and at most the rest of the input.
pub open spec fn spec_float(s: Seq<u8>, pos: int) -> Option<(int, u32)> {
    if 0 <= pos <= s.len() {
        match float_scan(s.subrange(pos, s.len() as int)) {
            Some((bits, n)) => if 1 <= n <= s.len() - pos {
                Some((pos + n, bits))
            } else {
                None
            },
            None => None,
        }
    } else {
        None
    }
}

// ---------------------------------------------------------------- scalars
/// A scalar literal: a float, else an integer, else `F`, else `T` — in that
/// order, so any literal the float scanner accepts is a float.
pub open spec fn spec_scalar(s: Seq<u8>, pos: int) -> Option<(int, TensorView)> {
    match spec_float(s, pos) {
        Some((p, bits)) => Some((p, TensorView::FloatScalar(bits))),
        None => match spec_integer(s, pos) {
            Some((p, v)) => Some((p, TensorView::IntScalar(v))),
            None => if 0 <= pos < s.len() && s[pos] == 70 {
                Some((pos + 1, TensorView::BoolScalar(false)))
            } else if 0 <= pos < s.len() && s[pos] == 84 {
                Some((pos + 1, TensorView::BoolScalar(true)))
            } else {
                None
            },
        },
    }
}

// ---------------------------------------------------------------- rows
/// One or more floats separated by runs of horizontal whitespace.  Trailing
/// whitespace is left unconsumed.
pub open spec fn spec_row(s: Seq<u8>, pos: int) -> Option<(int, Seq<u32>)>
    decreases s.len() - pos,
{
    match spec_float(s, pos) {
        Some((p1, bits)) => {
            let q = skip_hs(s, p1);
            if q > p1 && q <= s.len() && spec_float(s, q) is Some && q > pos {
                match spec_row(s, q) {
                    Some((p2, rest)) => Some((p2, seq![bits] + rest)),
                    None => Some((p1, seq![bits])),
                }
            } else {
                Some((p1, seq![bits]))
            }
        },
        None => None,
    }
}

/// One or more rows separated by a newline (itself padded by horizontal
/// whitespace).  Returns the row count and the row contents, concatenated.
pub open spec fn spec_rows(s: Seq<u8>, pos: int) -> Option<(int, nat, Seq<u32>)>
    decreases s.len() - pos,
{
    match spec_row(s, pos) {
        Some((p1, row)) => {
            let q = skip_hs(s, p1);
            let q2 = skip_hs(s, q + 1);
            if 0 <= q < s.len() && s[q] == 10 && spec_row(s, q2) is Some && pos < q2 <= s.len() {
                match spec_rows(s, q2) {
                    Some((p3, k, data)) => Some((p3, (k + 1) as nat, row + data)),
                    None => Some((p1, 1 as nat, row)),
                }
            } else {
                Some((p1, 1 as nat, row))
            }
        },
        None => None,
    }
}

// ---------------------------------------------------------------- tensors
/// `[` rows `]` with at least two rows, whitespace-tolerant.  The column
/// count is the total element count divided by the row count; a total that
/// the row count does not divide is rejected rather than reshaped.
pub open spec fn spec_matrix(s: Seq<u8>, pos: int) -> Option<(int, TensorView)> {
    let p = skip_ms(s, pos);
    if 0 <= p < s.len() && s[p] == 91 {
        let p2 = skip_ms(s, p + 1);
        match spec_rows(s, p2) {
            Some((p3, k, data)) => {
                let q = skip_ms(s, p3);
                if 0 <= q < s.len() && s[q] == 93 && k >= 2 {
                    let cols = data.len() as int / k as int;
                    if k * cols == data.len() {
                        Some(
                            (skip_ms(s, q + 1), TensorView::Matrix {
                                rows: k,
                                cols: cols as nat,
                                data,
                            }),
                        )
                    } else {
                        None
                    }
                } else {
                    None
                }
            },
            None => None,
        }
    } else {
        None
    }
}

/// `[` floats `]` on a single line: only horizontal whitespace is tolerated,
/// and the float run may be empty.
pub open spec fn spec_vector(s: Seq<u8>, pos: int) -> Option<(int, TensorView)> {
    let p = skip_hs(s, pos);
    if 0 <= p < s.len() && s[p] == 91 {
        let p2 = skip_hs(s, p + 1);
        match spec_row(s, p2) {
            Some((p3, data)) => {
                let q = skip_hs(s, p3);
                if 0 <= q < s.len() && s[q] == 93 {
                    Some((skip_hs(s, q + 1), TensorView::Vector(data)))
                } else {
                    None
                }
            },
            None => if 0 <= p2 < s.len() && s[p2] == 93 {
                Some((skip_hs(s, p2 + 1), TensorView::Vector(Seq::empty())))
            } else {
                None
            },
        }
    } else {
        None
    }
}

/// A tensor literal: a matrix (more than one row), else a single-line
/// vector, else a scalar — ordered alternatives, first full match wins.
pub open spec fn spec_tensor(s: Seq<u8>, pos: int) -> Option<(int, TensorView)> {
    match spec_matrix(s, pos) {
        Some(r) => Some(r),
        None => match spec_vector(s, pos) {
            Some(r) => Some(r),
            None => spec_scalar(s, pos),
        },
    }
}

// ---------------------------------------------------------------- components
/// The characters of a byte sequence read as ASCII.
pub open spec fn ascii_chars(s: Seq<u8>) -> Seq<char> {
    Seq::new(s.len(), |k: int| ((s[k] as u32) as char))
}

/// ASCII bytes are valid UTF-8 and decode to themselves.
pub proof fn lemma_ascii_decode(b: Seq<u8>)
    requires
        forall|k: int| 0 <= k < b.len() ==> b[k] < 128,
    ensures
        valid_utf8(b),
        decode_utf8(b) == ascii_chars(b),
    decreases b.len(),
{
    if b.len() == 0 {
        assert(decode_utf8(b) =~= ascii_chars(b));
    } else {
        let b0 = b[0];
        assert(b0 < 128);
        assert(is_leading_byte_width_1(b0));
        assert((b0 & 0x7f) == b0) by (bit_vector)
            requires
                b0 < 128,
        ;
        assert(decode_first_codepoint(b) == b0 as u32);
        assert(length_of_first_codepoint(b) == 1);
        assert(valid_first_scalar(b));
        let rest = pop_first_scalar(b);
        assert(rest =~= b.subrange(1, b.len() as int));
        assert(forall|k: int| 0 <= k < rest.len() ==> rest[k] < 128);
        lemma_ascii_decode(rest);
        assert(valid_utf8(b));
        assert(decode_utf8(b) =~= ascii_chars(b));
    }
}

/// Insert into an association list: a present key keeps its place and takes
/// the new value (last writer wins); an absent key is appended.
pub open spec fn assoc_set<V>(m: Seq<(Seq<char>, V)>, k: Seq<char>, v: V) -> Seq<(Seq<char>, V)>
    decreases m.len(),
{
    if m.len() == 0 {
        seq![(k, v)]
    } else if m[0].0 == k {
        seq![(k, v)] + m.drop_first()
    } else {
        seq![m[0]] + assoc_set(m.drop_first(), k, v)
    }
}

/// Fold a sequence of bindings into an association list, in order.
pub open spec fn fold_assoc<V>(entries: Seq<(Seq<char>, V)>) -> Seq<(Seq<char>, V)>
    decreases entries.len(),
{
    if entries.len() == 0 {
        Seq::empty()
    } else {
        assoc_set(fold_assoc(entries.drop_last()), entries.last().0, entries.last().1)
    }
}

/// Inserting a key present at `j` (and nowhere earlier) updates slot `j`.
pub proof fn lemma_assoc_set_found<V>(m: Seq<(Seq<char>, V)>, j: int, k: Seq<char>, v: V)
    requires
        0 <= j < m.len(),
        m[j].0 == k,
        forall|l: int| 0 <= l < j ==> m[l].0 != k,
    ensures
        assoc_set(m, k, v) == m.update(j, (k, v)),
    decreases j,
{
    if j == 0 {
        assert(assoc_set(m, k, v) =~= m.update(0, (k, v)));
    } else {
        assert(m[0].0 != k);
        assert(forall|l: int| 0 <= l < j - 1 ==> m.drop_first()[l].0 != k);
        lemma_assoc_set_found(m.drop_first(), j - 1, k, v);
        assert(seq![m[0]] + m.drop_first().update(j - 1, (k, v)) =~= m.update(j, (k, v)));
    }
}

/// Inserting an absent key appends the binding.
pub proof fn lemma_assoc_set_absent<V>(m: Seq<(Seq<char>, V)>, k: Seq<char>, v: V)
    requires
        forall|l: int| 0 <= l < m.len() ==> m[l].0 != k,
    ensures
        assoc_set(m, k, v) == m.push((k, v)),
    decreases m.len(),
{
    if m.len() == 0 {
        assert(assoc_set(m, k, v) =~= m.push((k, v)));
    } else {
        assert(m[0].0 != k);
        assert(forall|l: int| 0 <= l < m.drop_first().len() ==> m.drop_first()[l].0 != k);
        lemma_assoc_set_absent(m.drop_first(), k, v);
        assert(seq![m[0]] + m.drop_first().push((k, v)) =~= m.push((k, v)));
    }
}

/// Folding one more binding is one insertion into the folded list.
pub proof fn lemma_fold_push<V>(entries: Seq<(Seq<char>, V)>, k: Seq<char>, v: V)
    ensures
        fold_assoc(entries.push((k, v))) == assoc_set(fold_assoc(entries), k, v),
{
    let e2 = entries.push((k, v));
    assert(e2.drop_last() =~= entries);
    assert(e2.last() == (k, v));
}

pub open spec fn named_chars<V>(entries: Seq<(Seq<u8>, V)>) -> Seq<(Seq<char>, V)> {
    Seq::new(entries.len(), |k: int| (ascii_chars(entries[k].0), entries[k].1))
}

/// Zero or more attribute pairs `<name> tensor`; stops, consuming nothing
/// further, at the first position where the pair pattern does not match.
pub open spec fn spec_attrs(s: Seq<u8>, pos: int) -> (int, Seq<(Seq<u8>, TensorView)>)
    decreases s.len() - pos,
{
    match spec_open_any(s, pos) {
        Some((p1, nm)) => match spec_tensor(s, p1) {
            Some((p2, tv)) => if pos < p2 <= s.len() {
                let r = spec_attrs(s, p2);
                (r.0, seq![(nm, tv)] + r.1)
            } else {
                (pos, Seq::empty())
            },
            None => (pos, Seq::empty()),
        },
        None => (pos, Seq::empty()),
    }
}

/// One component block: `<Klass>` attributes `</Klass>`, the closing tag
/// matching the opening class name byte for byte.
pub open spec fn spec_component(s: Seq<u8>, pos: int) -> Option<(int, ComponentView)> {
    match spec_open_any(s, pos) {
        Some((p1, klass)) => {
            let r = spec_attrs(s, p1);
            match spec_close(s, r.0, klass) {
                Some(p3) => Some(
                    (p3, ComponentView {
                        klass: ascii_chars(klass),
                        attributes: fold_assoc(named_chars(r.1)),
                    }),
                ),
                None => None,
            }
        },
        None => None,
    }
}

/// `<ComponentName>` identifier, whitespace-tolerant.
pub open spec fn spec_component_name(s: Seq<u8>, pos: int) -> Option<(int, Seq<u8>)> {
    match spec_open(s, pos, tag_component_name()) {
        Some(p1) => match spec_name(s, p1) {
            Some((p2, nm)) => Some((skip_ms(s, p2), nm)),
            None => None,
        },
        None => None,
    }
}

/// Exactly `n` named component blocks, in order.
pub open spec fn spec_components(s: Seq<u8>, pos: int, n: nat) -> Option<
    (int, Seq<(Seq<u8>, ComponentView)>),
>
    decreases n,
{
    if n == 0 {
        Some((pos, Seq::empty()))
    } else {
        match spec_component_name(s, pos) {
            Some((p1, nm)) => match spec_component(s, p1) {
                Some((p2, c)) => match spec_components(s, p2, (n - 1) as nat) {
                    Some((p3, rest)) => Some((p3, seq![(nm, c)] + rest)),
                    None => None,
                },
                None => None,
            },
            None => None,
        }
    }
}

// ---------------------------------------------------------------- envelope
/// The literal marker `<NumComponents>` that ends the configuration section.
pub open spec fn marker() -> Seq<u8> {
    seq![60u8] + tag_num_components() + seq![62u8]
}

/// Position of the first occurrence of the marker at or after `from`.
pub open spec fn find_marker(s: Seq<u8>, from: int) -> Option<int>
    decreases s.len() - from,
{
    if from < 0 || from + marker().len() > s.len() {
        None
    } else if tag_at(s, from, marker()) {
        Some(from)
    } else {
        find_marker(s, from + 1)
    }
}

/// `<NumComponents>` followed by an integer, whitespace-tolerant.
pub open spec fn spec_num_components(s: Seq<u8>, pos: int) -> Option<(int, int)> {
    match spec_open(s, pos, tag_num_components()) {
        Some(p1) => {
            let p2 = skip_ms(s, p1);
            match spec_integer(s, p2) {
                Some((p3, v)) => Some((skip_ms(s, p3), v)),
                None => None,
            }
        },
        None => None,
    }
}

/// A successfully parsed envelope: the position after the closing tag, the
/// raw configuration bytes, the declared component count, and the component
/// blocks with their names, in order of appearance.
pub struct EnvelopeV {
    pub end: int,
    pub config: Seq<u8>,
    pub declared: int,
    pub raw: Seq<(Seq<u8>, ComponentView)>,
}

/// The whole envelope: `<Nnet3>`, the configuration bytes up to the literal
/// `<NumComponents>` marker, the declared count `n` (rejected when
/// negative), exactly `n` component blocks, then `</Nnet3>`.  Input after
/// the closing tag is ignored.
pub open spec fn spec_parse_top_level(s: Seq<u8>, pos: int) -> Option<EnvelopeV> {
    match spec_open(s, pos, tag_nnet3()) {
        Some(p1) => match find_marker(s, p1) {
            Some(m) => match spec_num_components(s, m) {
                Some((p2, v)) => if v >= 0 {
                    match spec_components(s, p2, v as nat) {
                        Some((p3, raw)) => match spec_close(s, p3, tag_nnet3()) {
                            Some(p4) => Some(
                                EnvelopeV {
                                    end: p4,
                                    config: s.subrange(p1, m),
                                    declared: v,
                                    raw,
                                },
                            ),
                            None => None,
                        },
                        None => None,
                    }
                } else {
                    None
                },
                None => None,
            },
            None => None,
        },
        None => None,
    }
}

/// The full parse: the envelope, with the configuration bytes decoded as
/// UTF-8 (a failure to decode is the one non-syntactic error) and the
/// component bindings folded into an association list, last writer wins.
pub open spec fn spec_nnet3(s: Seq<u8>) -> Option<ModelView> {
    match spec_parse_top_level(s, 0) {
        Some(env) => if valid_utf8(env.config) {
            Some(
                ModelView {
                    config_lines: decode_utf8(env.config),
                    components: fold_assoc(named_chars(env.raw)),
                },
            )
        } else {
            None
        },
        None => None,
    }
}

// ---------------------------------------------------------------- progress
/// A successful float scan moves the position forward and stays in bounds.
pub proof fn lemma_spec_float_progress(s: Seq<u8>, pos: int)
    ensures
        match spec_float(s, pos) {
            Some(r) => pos < r.0 <= s.len(),
            None => true,
        },
{
}

/// A successful row moves forward, stays in bounds, and holds a float.
pub proof fn lemma_spec_row_progress(s: Seq<u8>, pos: int)
    ensures
        match spec_row(s, pos) {
            Some(r) => pos < r.0 <= s.len() && r.1.len() >= 1,
            None => true,
        },
    decreases s.len() - pos,
{
    if let Some((p1, bits)) = spec_float(s, pos) {
        let q = skip_hs(s, p1);
        if q > p1 && q <= s.len() && spec_float(s, q) is Some && q > pos {
            lemma_spec_row_progress(s, q);
        }
    }
}

/// Successful rows move forward, stay in bounds, and hold at least as many
/// elements as rows.
pub proof fn lemma_spec_rows_progress(s: Seq<u8>, pos: int)
    ensures
        match spec_rows(s, pos) {
            Some(r) => pos < r.0 <= s.len() && 1 <= r.1 <= r.2.len(),
            None => true,
        },
    decreases s.len() - pos,
{
    if let Some((p1, row)) = spec_row(s, pos) {
        lemma_spec_row_progress(s, pos);
        let q = skip_hs(s, p1);
        let q2 = skip_hs(s, q + 1);
        if 0 <= q < s.len() && s[q] == 10 && spec_row(s, q2) is Some && pos < q2 <= s.len() {
            lemma_spec_rows_progress(s, q2);
        }
    }
}

/// A successful scalar moves forward and stays in bounds.
pub proof fn lemma_spec_scalar_progress(s: Seq<u8>, pos: int)
    ensures
        match spec_scalar(s, pos) {
            Some(r) => pos < r.0 <= s.len(),
            None => true,
        },
{
    if spec_float(s, pos) is None && 0 <= pos < s.len() {
        let dpos = if s[pos] == 45 {
            pos + 1
        } else {
            pos
        };
        if dpos <= s.len() {
            lemma_digit_run(s, dpos);
        }
    }
}

/// A successful vector moves forward and stays in bounds.
pub proof fn lemma_spec_vector_progress(s: Seq<u8>, pos: int)
    requires
        0 <= pos <= s.len(),
    ensures
        match spec_vector(s, pos) {
            Some(r) => pos < r.0 <= s.len(),
            None => true,
        },
{
    lemma_skip_hs(s, pos);
    let p = skip_hs(s, pos);
    if 0 <= p < s.len() && s[p] == 91 {
        lemma_skip_hs(s, p + 1);
        let p2 = skip_hs(s, p + 1);
        match spec_row(s, p2) {
            Some((p3, data)) => {
                lemma_spec_row_progress(s, p2);
                lemma_skip_hs(s, p3);
                let q = skip_hs(s, p3);
                if 0 <= q < s.len() && s[q] == 93 {
                    lemma_skip_hs(s, q + 1);
                }
            },
            None => {
                if 0 <= p2 < s.len() && s[p2] == 93 {
                    lemma_skip_hs(s, p2 + 1);
                }
            },
        }
    }
}

/// A successful matrix moves forward and stays in bounds.
pub proof fn lemma_spec_matrix_progress(s: Seq<u8>, pos: int)
    requires
        0 <= pos <= s.len(),
    ensures
        match spec_matrix(s, pos) {
            Some(r) => pos < r.0 <= s.len(),
            None => true,
        },
{
    lemma_skip_ms(s, pos);
    let p = skip_ms(s, pos);
    if 0 <= p < s.len() && s[p] == 91 {
        lemma_skip_ms(s, p + 1);
        let p2 = skip_ms(s, p + 1);
        if let Some((p3, k, data)) = spec_rows(s, p2) {
            lemma_spec_rows_progress(s, p2);
            lemma_skip_ms(s, p3);
            let q = skip_ms(s, p3);
            if 0 <= q < s.len() && s[q] == 93 {
                lemma_skip_ms(s, q + 1);
            }
        }
    }
}

/// A successful tensor moves forward and stays in bounds.
pub proof fn lemma_spec_tensor_progress(s: Seq<u8>, pos: int)
    requires
        0 <= pos <= s.len(),
    ensures
        match spec_tensor(s, pos) {
            Some(r) => pos < r.0 <= s.len(),
            None => true,
        },
{
    lemma_spec_matrix_progress(s, pos);
    lemma_spec_vector_progress(s, pos);
    lemma_spec_scalar_progress(s, pos);
}

/// A successful tag `<name>` moves forward, stays in bounds, and yields a
/// non-empty identifier made of name bytes.
pub proof fn lemma_spec_open_any_progress(s: Seq<u8>, pos: int)
    requires
        0 <= pos <= s.len(),
    ensures
        match spec_open_any(s, pos) {
            Some(r) => {
                &&& pos < r.0 <= s.len()
                &&& 1 <= r.1.len()
                &&& forall|k: int| 0 <= k < r.1.len() ==> is_name_byte(#[trigger] r.1[k])
            },
            None => true,
        },
{
    lemma_skip_ms(s, pos);
    let p = skip_ms(s, pos);
    if 0 <= p < s.len() && s[p] == 60 {
        lemma_name_len(s, p + 1);
        lemma_name_len_bytes(s, p + 1);
        if let Some((p2, nm)) = spec_name(s, p + 1) {
            if p2 < s.len() && s[p2] == 62 {
                lemma_skip_ms(s, p2 + 1);
            }
            assert forall|k: int| 0 <= k < nm.len() implies is_name_byte(#[trigger] nm[k]) by {
                assert(nm[k] == s[p + 1 + k]);
            }
        }
    }
}

/// A successful identifier is non-empty and made of name bytes.
pub proof fn lemma_spec_name_bytes(s: Seq<u8>, pos: int)
    requires
        0 <= pos <= s.len(),
    ensures
        match spec_name(s, pos) {
            Some(r) => 1 <= r.1.len() && (forall|k: int|
                0 <= k < r.1.len() ==> is_name_byte(#[trigger] r.1[k])),
            None => true,
        },
{
    lemma_name_len(s, pos);
    lemma_name_len_bytes(s, pos);
    if let Some((p2, nm)) = spec_name(s, pos) {
        lemma_name_len(s, pos + 1);
        assert(name_len(s, pos) >= 1);
        assert forall|k: int| 0 <= k < nm.len() implies is_name_byte(#[trigger] nm[k]) by {
            assert(nm[k] == s[pos + k]);
        }
    }
}

/// Name bytes are ASCII.
pub proof fn lemma_name_bytes_ascii(nm: Seq<u8>)
    requires
        forall|k: int| 0 <= k < nm.len() ==> is_name_byte(#[trigger] nm[k]),
    ensures
        forall|k: int| 0 <= k < nm.len() ==> nm[k] < 128,
{
}

} // verus!
