//! The executable recursive-descent parser.  Every function is proved to
//! return exactly the outcome that the specification grammar in
//! `crate::grammar` assigns to its input and position: the same success or
//! failure, and on success the same end position and the same value.
use crate::grammar::{
    ascii_chars, assoc_set, digit_run, digits_val, fold_assoc, is_name_byte, lemma_ascii_decode,
    lemma_assoc_set_absent, lemma_assoc_set_found, lemma_digit_run, lemma_digit_run_digits,
    lemma_digits_val_grows, lemma_fold_push, lemma_name_bytes_ascii, lemma_spec_open_any_progress,
    lemma_spec_row_progress, lemma_spec_rows_progress, lemma_spec_tensor_progress, name_len,
    find_marker, lemma_spec_name_bytes, marker, named_chars, skip_hs, skip_ms, spec_attrs,
    spec_close, spec_component, spec_component_name, spec_components, spec_integer, spec_matrix,
    spec_name, spec_num_components, spec_nnet3, spec_open, spec_open_any, spec_parse_top_level,
    spec_row, spec_rows, spec_scalar, spec_tensor, spec_vector, tag_at, tag_component_name,
    tag_nnet3, tag_num_components,
};
use crate::model::{
    entries_view, Component, ComponentView, KaldiProtoModel, ModelError, ParseError, Tensor,
    TensorView,
};
use crate::scan::{bytes_to_string, scan_float};
use vstd::prelude::*;
use vstd::slice::{slice_subrange, slice_to_vec};
use vstd::string::StringExecFns;
use vstd::utf8::{decode_utf8, valid_utf8};

verus! {

// ---------------------------------------------------------------- errors
/// A failure at `pos` that expected the literal token `t`.
fn err_expected(pos: usize, t: &[u8]) -> (e: ParseError)
    ensures
        e.pos == pos,
        valid_utf8(t@) ==> e.expected@ == decode_utf8(t@),
{
    let expected = match bytes_to_string(slice_to_vec(t)) {
        Some(s) => s,
        None => String::new(),
    };
    ParseError { pos, expected }
}

/// A failure at `pos` that expected the class of token named by `label`.
fn err_label(pos: usize, label: &str) -> (e: ParseError)
    ensures
        e.pos == pos,
        e.expected@ == label@,
{
    ParseError { pos, expected: label.to_owned() }
}

/// The decimal digits of `n`, as bytes, most significant first.
pub open spec fn dec_bytes(n: nat) -> Seq<u8>
    decreases n,
{
    if n < 10 {
        seq![(48 + n) as u8]
    } else {
        dec_bytes(n / 10).push((48 + n % 10) as u8)
    }
}

proof fn lemma_dec_bytes_ascii(n: nat)
    ensures
        forall|k: int| 0 <= k < dec_bytes(n).len() ==> dec_bytes(n)[k] < 128,
    decreases n,
{
    if n >= 10 {
        lemma_dec_bytes_ascii(n / 10);
        assert forall|k: int| 0 <= k < dec_bytes(n).len() implies dec_bytes(n)[k] < 128 by {
            if k < dec_bytes(n).len() - 1 {
                assert(dec_bytes(n)[k] == dec_bytes(n / 10)[k]);
            }
        }
    }
}

/// Append the decimal digits of `n`.
fn push_dec(n: usize, out: &mut Vec<u8>)
    ensures
        final (out)@ == old(out)@ + dec_bytes(n as nat),
    decreases n,
{
    if n >= 10 {
        push_dec(n / 10, out);
        out.push(48 + (n % 10) as u8);
    } else {
        out.push(48 + n as u8);
    }
    proof {
        assert(out@ =~= old(out)@ + dec_bytes(n as nat));
    }
}

impl ParseError {
    /// A human-readable description: the expected token and the byte offset
    /// where matching stopped.
    pub fn message(&self) -> (r: String)
        ensures
            r@ == "expected "@ + self.expected@ + " at byte "@ + ascii_chars(
                dec_bytes(self.pos as nat),
            ),
    {
        let mut s = String::new();
        s.append("expected ");
        s.append(self.expected.as_str());
        s.append(" at byte ");
        let mut digits: Vec<u8> = Vec::new();
        push_dec(self.pos, &mut digits);
        proof {
            lemma_dec_bytes_ascii(self.pos as nat);
            lemma_ascii_decode(digits@);
        }
        let ds = match bytes_to_string(digits) {
            Some(x) => x,
            None => {
                proof {
                    assert(false);
                }
                String::new()
            },
        };
        s.append(ds.as_str());
        proof {
            assert(s@ =~= "expected "@ + self.expected@ + " at byte "@ + ascii_chars(
                dec_bytes(self.pos as nat),
            ));
        }
        s
    }
}

// ---------------------------------------------------------------- whitespace
/// Skip horizontal whitespace (space, tab) and return the next position.
pub fn spaced(i: &[u8], pos: usize) -> (r: usize)
    requires
        pos <= i@.len(),
    ensures
        r as int == skip_hs(i@, pos as int),
        pos <= r <= i@.len(),
{
    let mut j = pos;
    while j < i.len() && (i[j] == 32 || i[j] == 9)
        invariant
            pos <= j <= i@.len(),
            skip_hs(i@, pos as int) == skip_hs(i@, j as int),
        decreases i@.len() - j,
    {
        j = j + 1;
    }
    j
}

/// Skip any whitespace (space, tab, newline, carriage return) and return the
/// next position.
pub fn multispaced(i: &[u8], pos: usize) -> (r: usize)
    requires
        pos <= i@.len(),
    ensures
        r as int == skip_ms(i@, pos as int),
        pos <= r <= i@.len(),
{
    let mut j = pos;
    while j < i.len() && (i[j] == 32 || i[j] == 9 || i[j] == 10 || i[j] == 13)
        invariant
            pos <= j <= i@.len(),
            skip_ms(i@, pos as int) == skip_ms(i@, j as int),
        decreases i@.len() - j,
    {
        j = j + 1;
    }
    j
}

// ---------------------------------------------------------------- tags
/// Match the literal bytes `t` at `pos` exactly, returning the position
/// after them.
fn tag_match(i: &[u8], pos: usize, t: &[u8]) -> (r: Option<usize>)
    requires
        pos <= i@.len(),
    ensures
        match r {
            Some(q) => tag_at(i@, pos as int, t@) && q == pos + t@.len() && q <= i@.len(),
            None => !tag_at(i@, pos as int, t@),
        },
{
    if t.len() > i.len() - pos {
        return None;
    }
    let ilen = i.len();
    let mut j: usize = 0;
    while j < t.len()
        invariant
            0 <= j <= t@.len(),
            pos + t@.len() <= i@.len(),
            i@.len() == ilen,
            forall|k: int| 0 <= k < j ==> i@[pos + k] == t@[k],
        decreases t@.len() - j,
    {
        if i[pos + j] != t[j] {
            proof {
                assert(i@.subrange(pos as int, pos + t@.len() as int)[j as int] == i@[pos + j]);
            }
            return None;
        }
        j = j + 1;
    }
    proof {
        assert(i@.subrange(pos as int, pos + t@.len() as int) =~= t@);
    }
    Some(pos + t.len())
}

/// Match `<t>`, tolerant of surrounding whitespace.
pub fn open(i: &[u8], pos: usize, t: &[u8]) -> (r: Result<usize, ParseError>)
    requires
        pos <= i@.len(),
    ensures
        match r {
            Ok(p) => spec_open(i@, pos as int, t@) == Some(p as int) && p <= i@.len(),
            Err(_) => spec_open(i@, pos as int, t@) is None,
        },
{
    let p = multispaced(i, pos);
    if p < i.len() && i[p] == 60 {
        if let Some(q) = tag_match(i, p + 1, t) {
            if q < i.len() && i[q] == 62 {
                return Ok(multispaced(i, q + 1));
            }
        }
    }
    Err(err_expected(p, t))
}

/// Match `</t>`, tolerant of surrounding whitespace.
pub fn close(i: &[u8], pos: usize, t: &[u8]) -> (r: Result<usize, ParseError>)
    requires
        pos <= i@.len(),
    ensures
        match r {
            Ok(p) => spec_close(i@, pos as int, t@) == Some(p as int) && p <= i@.len(),
            Err(e) => spec_close(i@, pos as int, t@) is None && (valid_utf8(t@) ==> e.expected@
                == decode_utf8(t@)),
        },
{
    let p = multispaced(i, pos);
    if p < i.len() && i[p] == 60 && p + 1 < i.len() && i[p + 1] == 47 {
        if let Some(q) = tag_match(i, p + 2, t) {
            if q < i.len() && i[q] == 62 {
                return Ok(multispaced(i, q + 1));
            }
        }
    }
    Err(err_expected(p, t))
}

// ---------------------------------------------------------------- names
/// Match an identifier: an alphabetic byte, then the longest run of
/// alphanumeric bytes or `.`, `_`, `-`.  Returns its bytes.
pub fn name(i: &[u8], pos: usize) -> (r: Result<(usize, Vec<u8>), ParseError>)
    requires
        pos <= i@.len(),
    ensures
        match r {
            Ok((p, nm)) => spec_name(i@, pos as int) == Some((p as int, nm@)) && p <= i@.len(),
            Err(_) => spec_name(i@, pos as int) is None,
        },
{
    if !(pos < i.len() && ((65 <= i[pos] && i[pos] <= 90) || (97 <= i[pos] && i[pos] <= 122))) {
        return Err(err_label(pos, "identifier"));
    }
    let mut j = pos;
    while j < i.len() && ((65 <= i[j] && i[j] <= 90) || (97 <= i[j] && i[j] <= 122) || (48 <= i[j]
        && i[j] <= 57) || i[j] == 46 || i[j] == 95 || i[j] == 45)
        invariant
            pos <= j <= i@.len(),
            name_len(i@, pos as int) == (j - pos) + name_len(i@, j as int),
        decreases i@.len() - j,
    {
        j = j + 1;
    }
    let nm = slice_to_vec(slice_subrange(i, pos, j));
    Ok((j, nm))
}

/// Match `<` identifier `>`, returning the identifier bytes.
pub fn open_any(i: &[u8], pos: usize) -> (r: Result<(usize, Vec<u8>), ParseError>)
    requires
        pos <= i@.len(),
    ensures
        match r {
            Ok((p, nm)) => spec_open_any(i@, pos as int) == Some((p as int, nm@)) && p
                <= i@.len(),
            Err(_) => spec_open_any(i@, pos as int) is None,
        },
{
    let p = multispaced(i, pos);
    if p < i.len() && i[p] == 60 {
        match name(i, p + 1) {
            Ok((p2, nm)) => {
                if p2 < i.len() && i[p2] == 62 {
                    return Ok((multispaced(i, p2 + 1), nm));
                }
                Err(err_label(p2, "closing angle bracket"))
            },
            Err(e) => Err(e),
        }
    } else {
        Err(err_label(p, "opening angle bracket"))
    }
}

// ---------------------------------------------------------------- integers
/// Match an optional `-` and a run of decimal digits whose value fits in a
/// 32-bit signed integer.
pub fn integer(i: &[u8], pos: usize) -> (r: Result<(usize, i32), ParseError>)
    requires
        pos <= i@.len(),
    ensures
        match r {
            Ok((p, v)) => spec_integer(i@, pos as int) == Some((p as int, v as int)) && p
                <= i@.len(),
            Err(_) => spec_integer(i@, pos as int) is None,
        },
{
    if pos >= i.len() {
        return Err(err_label(pos, "integer"));
    }
    let neg = i[pos] == 45;
    let dpos = if neg {
        pos + 1
    } else {
        pos
    };
    let ghost s = i@;
    let mut j = dpos;
    let mut mag: i64 = 0;
    while j < i.len() && 48 <= i[j] && i[j] <= 57
        invariant
            dpos <= j <= i@.len(),
            pos < i@.len(),
            dpos <= i@.len(),
            neg == (s[pos as int] == 45),
            dpos as int == (if neg {
                pos as int + 1
            } else {
                pos as int
            }),
            digit_run(s, dpos as int) == (j - dpos) + digit_run(s, j as int),
            mag == digits_val(s, dpos as int, j - dpos),
            0 <= mag <= 0x8000_0000,
            s == i@,
        decreases i@.len() - j,
    {
        let d = (i[j] - 48) as i64;
        let next = mag * 10 + d;
        if next > 0x8000_0000 {
            proof {
                lemma_digit_run(s, (j + 1) as int);
                assert(digit_run(s, j as int) >= 1);
                lemma_digit_run(s, dpos as int);
                lemma_digit_run_digits(s, dpos as int);
                assert(digits_val(s, dpos as int, (j - dpos) + 1) == mag * 10 + d);
                lemma_digits_val_grows(s, dpos as int, (j - dpos) + 1, digit_run(s, dpos as int));
                assert(digits_val(s, dpos as int, digit_run(s, dpos as int)) > 0x8000_0000);
            }
            return Err(err_label(pos, "integer"));
        }
        mag = next;
        j = j + 1;
    }
    let n = j - dpos;
    if n == 0 {
        return Err(err_label(pos, "integer"));
    }
    if neg {
        Ok((j, (-mag) as i32))
    } else {
        if mag > 0x7fff_ffff {
            return Err(err_label(pos, "integer"));
        }
        Ok((j, mag as i32))
    }
}

// ---------------------------------------------------------------- scalars
/// Match a scalar literal: a float, else an integer, else `F`, else `T`.
pub fn scalar(i: &[u8], pos: usize) -> (r: Result<(usize, Tensor), ParseError>)
    requires
        pos <= i@.len(),
    ensures
        match r {
            Ok((p, t)) => spec_scalar(i@, pos as int) == Some((p as int, t@)) && p <= i@.len(),
            Err(_) => spec_scalar(i@, pos as int) is None,
        },
{
    let _ilen: usize = i.len();
    match scan_float(i, pos) {
        Some((bits, n)) => Ok((pos + n, Tensor::FloatScalar(bits))),
        None => match integer(i, pos) {
            Ok((p, v)) => Ok((p, Tensor::IntScalar(v))),
            Err(e) => if pos < i.len() && i[pos] == 70 {
                Ok((pos + 1, Tensor::BoolScalar(false)))
            } else if pos < i.len() && i[pos] == 84 {
                Ok((pos + 1, Tensor::BoolScalar(true)))
            } else {
                Err(e)
            },
        },
    }
}

// ---------------------------------------------------------------- rows
/// Match one row: floats separated by horizontal whitespace.
fn row(i: &[u8], pos: usize) -> (r: Option<(usize, Vec<u32>)>)
    requires
        pos <= i@.len(),
    ensures
        match r {
            Some((p, d)) => spec_row(i@, pos as int) == Some((p as int, d@)) && pos < p
                <= i@.len(),
            None => spec_row(i@, pos as int) is None,
        },
    decreases i@.len() - pos,
{
    let _ilen: usize = i.len();
    match scan_float(i, pos) {
        Some((bits, n)) => {
            let p1 = pos + n;
            let q = spaced(i, p1);
            if q > p1 && matches!(scan_float(i, q), Some(_)) {
                match row(i, q) {
                    Some((p2, mut rest)) => {
                        let ghost tail = rest@;
                        rest.insert(0, bits);
                        proof {
                            assert(rest@ =~= seq![bits] + tail);
                        }
                        Some((p2, rest))
                    },
                    None => {
                        proof {
                            assert(false);
                        }
                        None
                    },
                }
            } else {
                Some((p1, vec![bits]))
            }
        },
        None => None,
    }
}

/// Match one or more rows separated by newlines, returning the row count
/// and the concatenated elements.
fn rows(i: &[u8], pos: usize) -> (r: Option<(usize, usize, Vec<u32>)>)
    requires
        pos <= i@.len(),
    ensures
        match r {
            Some((p, k, d)) => spec_rows(i@, pos as int) == Some((p as int, k as nat, d@)) && pos
                < p <= i@.len() && 1 <= k,
            None => spec_rows(i@, pos as int) is None,
        },
    decreases i@.len() - pos,
{
    match row(i, pos) {
        Some((p1, data)) => {
            let q = spaced(i, p1);
            if q < i.len() && i[q] == 10 {
                let q2 = spaced(i, q + 1);
                match rows(i, q2) {
                    Some((p3, k, rest)) => {
                        proof {
                            lemma_spec_row_progress(i@, pos as int);
                            lemma_spec_rows_progress(i@, q2 as int);
                        }
                        let mut d = data;
                        let mut r2 = rest;
                        d.append(&mut r2);
                        let _dlen: usize = d.len();
                        Some((p3, k + 1, d))
                    },
                    None => Some((p1, 1, data)),
                }
            } else {
                Some((p1, 1, data))
            }
        },
        None => None,
    }
}

// ---------------------------------------------------------------- tensors
/// Match a single-line bracketed vector of floats (possibly empty).
pub fn vector(i: &[u8], pos: usize) -> (r: Result<(usize, Tensor), ParseError>)
    requires
        pos <= i@.len(),
    ensures
        match r {
            Ok((p, t)) => spec_vector(i@, pos as int) == Some((p as int, t@)) && p <= i@.len(),
            Err(_) => spec_vector(i@, pos as int) is None,
        },
{
    let p = spaced(i, pos);
    if p < i.len() && i[p] == 91 {
        let p2 = spaced(i, p + 1);
        match row(i, p2) {
            Some((p3, data)) => {
                let q = spaced(i, p3);
                if q < i.len() && i[q] == 93 {
                    Ok((spaced(i, q + 1), Tensor::Vector(data)))
                } else {
                    Err(err_label(q, "vector"))
                }
            },
            None => if p2 < i.len() && i[p2] == 93 {
                let empty: Vec<u32> = Vec::new();
                Ok((spaced(i, p2 + 1), Tensor::Vector(empty)))
            } else {
                Err(err_label(p2, "vector"))
            },
        }
    } else {
        Err(err_label(p, "vector"))
    }
}

/// Match a bracketed matrix of two or more newline-separated rows.
pub fn matrix(i: &[u8], pos: usize) -> (r: Result<(usize, Tensor), ParseError>)
    requires
        pos <= i@.len(),
    ensures
        match r {
            Ok((p, t)) => spec_matrix(i@, pos as int) == Some((p as int, t@)) && p <= i@.len(),
            Err(_) => spec_matrix(i@, pos as int) is None,
        },
{
    let p = multispaced(i, pos);
    if !(p < i.len() && i[p] == 91) {
        return Err(err_label(p, "matrix"));
    }
    let p2 = multispaced(i, p + 1);
    match rows(i, p2) {
        Some((p3, k, data)) => {
            let q = multispaced(i, p3);
            if q < i.len() && i[q] == 93 && k >= 2 {
                let cols = data.len() / k;
                proof {
                    vstd::arithmetic::div_mod::lemma_fundamental_div_mod(
                        data@.len() as int,
                        k as int,
                    );
                    vstd::arithmetic::div_mod::lemma_mod_division_less_than_divisor(
                        data@.len() as int,
                        k as int,
                    );
                }
                if k * cols == data.len() {
                    Ok((multispaced(i, q + 1), Tensor::Matrix { rows: k, cols, data }))
                } else {
                    Err(err_label(q, "matrix"))
                }
            } else {
                Err(err_label(q, "matrix"))
            }
        },
        None => Err(err_label(p2, "matrix")),
    }
}

/// Match a tensor literal: a matrix, else a vector, else a scalar.
pub fn tensor(i: &[u8], pos: usize) -> (r: Result<(usize, Tensor), ParseError>)
    requires
        pos <= i@.len(),
    ensures
        match r {
            Ok((p, t)) => spec_tensor(i@, pos as int) == Some((p as int, t@)) && p <= i@.len(),
            Err(_) => spec_tensor(i@, pos as int) is None,
        },
{
    match matrix(i, pos) {
        Ok(r) => Ok(r),
        Err(_) => match vector(i, pos) {
            Ok(r) => Ok(r),
            Err(_) => scalar(i, pos),
        },
    }
}

// ---------------------------------------------------------------- components
/// The string spelt by identifier bytes; identifier bytes are ASCII.
fn name_string(nm: Vec<u8>) -> (r: String)
    requires
        forall|k: int| 0 <= k < nm@.len() ==> is_name_byte(#[trigger] nm@[k]),
    ensures
        r@ == ascii_chars(nm@),
{
    proof {
        lemma_name_bytes_ascii(nm@);
        lemma_ascii_decode(nm@);
    }
    match bytes_to_string(nm) {
        Some(s) => s,
        None => {
            proof {
                assert(false);
            }
            String::new()
        },
    }
}

/// Bind `k` to `v` in an association list held as a vector: a present key
/// keeps its place and takes the new value, an absent key is appended.
fn assoc_insert<T: View>(m: &mut Vec<(String, T)>, k: String, v: T)
    ensures
        entries_view(final (m)@) == assoc_set(entries_view(old(m)@), k@, v@),
{
    let n = m.len();
    let mut idx: usize = 0;
    while idx < n
        invariant
            n == m@.len(),
            idx <= n,
            m@ == old(m)@,
            forall|l: int| 0 <= l < idx ==> (#[trigger] m@[l]).0@ != k@,
        decreases n - idx,
    {
        if m[idx].0 == k {
            proof {
                assert(forall|l: int|
                    0 <= l < idx ==> entries_view(m@)[l].0 != k@);
                lemma_assoc_set_found(entries_view(m@), idx as int, k@, v@);
            }
            m.remove(idx);
            m.insert(idx, (k, v));
            proof {
                assert(entries_view(m@) =~= entries_view(old(m)@).update(
                    idx as int,
                    (k@, v@),
                ));
            }
            return ;
        }
        idx = idx + 1;
    }
    proof {
        assert(forall|l: int| 0 <= l < m@.len() ==> entries_view(m@)[l].0 != k@);
        lemma_assoc_set_absent(entries_view(m@), k@, v@);
    }
    m.push((k, v));
    proof {
        assert(entries_view(m@) =~= entries_view(old(m)@).push((k@, v@)));
    }
}

/// Match one component block: `<Klass>` attribute pairs `</Klass>`, the
/// closing tag echoing the class name byte for byte.
pub(crate) fn component(i: &[u8], pos: usize) -> (r: Result<(usize, Component), ParseError>)
    requires
        pos <= i@.len(),
    ensures
        match r {
            Ok((p, c)) => spec_component(i@, pos as int) == Some((p as int, c@)) && p
                <= i@.len(),
            Err(_) => spec_component(i@, pos as int) is None,
        },
{
    let (p1, klass) = match open_any(i, pos) {
        Ok(x) => x,
        Err(e) => {
            return Err(e);
        },
    };
    proof {
        lemma_spec_open_any_progress(i@, pos as int);
    }
    let mut attrs: Vec<(String, Tensor)> = Vec::new();
    let mut cur = p1;
    let ghost mut raw_done: Seq<(Seq<u8>, TensorView)> = Seq::empty();
    proof {
        assert(spec_attrs(i@, p1 as int).1 =~= raw_done + spec_attrs(i@, p1 as int).1);
        assert(entries_view(attrs@) =~= fold_assoc(named_chars(raw_done)));
    }
    loop
        invariant
            p1 <= cur <= i@.len(),
            spec_attrs(i@, p1 as int).0 == spec_attrs(i@, cur as int).0,
            spec_attrs(i@, p1 as int).1 == raw_done + spec_attrs(i@, cur as int).1,
            entries_view(attrs@) == fold_assoc(named_chars(raw_done)),
        ensures
            p1 <= cur <= i@.len(),
            spec_attrs(i@, p1 as int).0 == cur as int,
            spec_attrs(i@, p1 as int).1 == raw_done,
            entries_view(attrs@) == fold_assoc(named_chars(raw_done)),
        decreases i@.len() - cur,
    {
        let (a1, nm) = match open_any(i, cur) {
            Ok(x) => x,
            Err(_) => {
                break ;
            },
        };
        let (a2, tv) = match tensor(i, a1) {
            Ok(x) => x,
            Err(_) => {
                break ;
            },
        };
        proof {
            lemma_spec_open_any_progress(i@, cur as int);
            lemma_spec_tensor_progress(i@, a1 as int);
        }
        let ghost nm_bytes = nm@;
        let ghost tvv = tv@;
        let ghost raw_old = raw_done;
        let nm_str = name_string(nm);
        assoc_insert(&mut attrs, nm_str, tv);
        proof {
            raw_done = raw_old.push((nm_bytes, tvv));
            assert(named_chars(raw_done) =~= named_chars(raw_old).push(
                (ascii_chars(nm_bytes), tvv),
            ));
            lemma_fold_push(named_chars(raw_old), ascii_chars(nm_bytes), tvv);
            assert(raw_old + (seq![(nm_bytes, tvv)] + spec_attrs(i@, a2 as int).1) =~= raw_done
                + spec_attrs(i@, a2 as int).1);
        }
        cur = a2;
    }
    let p3 = match close(i, cur, klass.as_slice()) {
        Ok(x) => x,
        Err(e) => {
            return Err(e);
        },
    };
    let ghost klass_bytes = klass@;
    let klass_str = name_string(klass);
    Ok((p3, Component { klass: klass_str, attributes: attrs }))
}

// ---------------------------------------------------------------- envelope
/// The bytes of the `Nnet3` tag name.
fn tag_bytes_nnet3() -> (r: Vec<u8>)
    ensures
        r@ == tag_nnet3(),
{
    let mut v: Vec<u8> = Vec::new();
    v.push(78);
    v.push(110);
    v.push(101);
    v.push(116);
    v.push(51);
    proof {
        assert(v@ =~= tag_nnet3());
    }
    v
}

/// The bytes of the `NumComponents` tag name.
fn tag_bytes_num_components() -> (r: Vec<u8>)
    ensures
        r@ == tag_num_components(),
{
    let mut v: Vec<u8> = Vec::new();
    v.push(78);
    v.push(117);
    v.push(109);
    v.push(67);
    v.push(111);
    v.push(109);
    v.push(112);
    v.push(111);
    v.push(110);
    v.push(101);
    v.push(110);
    v.push(116);
    v.push(115);
    proof {
        assert(v@ =~= tag_num_components());
    }
    v
}

/// The bytes of the `ComponentName` tag name.
fn tag_bytes_component_name() -> (r: Vec<u8>)
    ensures
        r@ == tag_component_name(),
{
    let mut v: Vec<u8> = Vec::new();
    v.push(67);
    v.push(111);
    v.push(109);
    v.push(112);
    v.push(111);
    v.push(110);
    v.push(101);
    v.push(110);
    v.push(116);
    v.push(78);
    v.push(97);
    v.push(109);
    v.push(101);
    proof {
        assert(v@ =~= tag_component_name());
    }
    v
}

/// The literal `<NumComponents>` marker.
fn marker_bytes() -> (r: Vec<u8>)
    ensures
        r@ == marker(),
{
    let mut v = tag_bytes_num_components();
    v.insert(0, 60);
    v.push(62);
    proof {
        assert(v@ =~= marker());
    }
    v
}

/// Find the first occurrence of the `<NumComponents>` marker at or after
/// `from`.
fn find_num_marker(i: &[u8], from: usize) -> (r: Option<usize>)
    requires
        from <= i@.len(),
    ensures
        match r {
            Some(m) => find_marker(i@, from as int) == Some(m as int) && from <= m && m
                + marker().len() <= i@.len(),
            None => find_marker(i@, from as int) is None,
        },
{
    let mk = marker_bytes();
    let mut j = from;
    while i.len() - j >= mk.len()
        invariant
            from <= j <= i@.len(),
            mk@ == marker(),
            find_marker(i@, from as int) == find_marker(i@, j as int),
        decreases i@.len() - j,
    {
        match tag_match(i, j, mk.as_slice()) {
            Some(_) => {
                return Some(j);
            },
            None => {
                j = j + 1;
            },
        }
    }
    None
}

/// Match `<NumComponents>` and the declared count.
fn num_components(i: &[u8], pos: usize) -> (r: Result<(usize, i32), ParseError>)
    requires
        pos <= i@.len(),
    ensures
        match r {
            Ok((p, v)) => spec_num_components(i@, pos as int) == Some((p as int, v as int)) && p
                <= i@.len(),
            Err(_) => spec_num_components(i@, pos as int) is None,
        },
{
    let t = tag_bytes_num_components();
    let p1 = match open(i, pos, t.as_slice()) {
        Ok(x) => x,
        Err(e) => {
            return Err(e);
        },
    };
    let p2 = multispaced(i, p1);
    let (p3, v) = match integer(i, p2) {
        Ok(x) => x,
        Err(e) => {
            return Err(e);
        },
    };
    Ok((multispaced(i, p3), v))
}

/// Match `<ComponentName>` and the component's name.
fn component_name(i: &[u8], pos: usize) -> (r: Result<(usize, Vec<u8>), ParseError>)
    requires
        pos <= i@.len(),
    ensures
        match r {
            Ok((p, nm)) => spec_component_name(i@, pos as int) == Some((p as int, nm@)) && p
                <= i@.len() && (forall|k: int|
                0 <= k < nm@.len() ==> is_name_byte(#[trigger] nm@[k])),
            Err(_) => spec_component_name(i@, pos as int) is None,
        },
{
    let t = tag_bytes_component_name();
    let p1 = match open(i, pos, t.as_slice()) {
        Ok(x) => x,
        Err(e) => {
            return Err(e);
        },
    };
    let (p2, nm) = match name(i, p1) {
        Ok(x) => x,
        Err(e) => {
            return Err(e);
        },
    };
    proof {
        lemma_spec_name_bytes(i@, p1 as int);
    }
    Ok((multispaced(i, p2), nm))
}

/// Match exactly `count` named component blocks.
fn components_n(i: &[u8], pos: usize, count: usize) -> (r: Result<
    (usize, Vec<(String, Component)>),
    ParseError,
>)
    requires
        pos <= i@.len(),
    ensures
        match r {
            Ok((p, cs)) => match spec_components(i@, pos as int, count as nat) {
                Some(rr) => rr.0 == p as int && p <= i@.len() && entries_view(cs@) == fold_assoc(
                    named_chars(rr.1),
                ),
                None => false,
            },
            Err(_) => spec_components(i@, pos as int, count as nat) is None,
        },
{
    let mut comps: Vec<(String, Component)> = Vec::new();
    let ghost mut raws_done: Seq<(Seq<u8>, ComponentView)> = Seq::empty();
    let mut cur = pos;
    let mut idx: usize = 0;
    proof {
        assert(entries_view(comps@) =~= fold_assoc(named_chars(raws_done)));
    }
    while idx < count
        invariant
            idx <= count,
            cur <= i@.len(),
            match spec_components(i@, cur as int, (count - idx) as nat) {
                Some(rr) => spec_components(i@, pos as int, count as nat) == Some(
                    (rr.0, raws_done + rr.1),
                ),
                None => spec_components(i@, pos as int, count as nat) is None,
            },
            entries_view(comps@) == fold_assoc(named_chars(raws_done)),
        decreases count - idx,
    {
        let (q1, nm) = match component_name(i, cur) {
            Ok(x) => x,
            Err(e) => {
                return Err(e);
            },
        };
        let (q2, c) = match component(i, q1) {
            Ok(x) => x,
            Err(e) => {
                return Err(e);
            },
        };
        let ghost nm_bytes = nm@;
        let ghost cv = c@;
        let ghost raw_old = raws_done;
        let nm_str = name_string(nm);
        assoc_insert(&mut comps, nm_str, c);
        proof {
            raws_done = raw_old.push((nm_bytes, cv));
            assert(named_chars(raws_done) =~= named_chars(raw_old).push(
                (ascii_chars(nm_bytes), cv),
            ));
            lemma_fold_push(named_chars(raw_old), ascii_chars(nm_bytes), cv);
            if let Some(rr) = spec_components(i@, q2 as int, (count - (idx + 1)) as nat) {
                assert(raw_old + (seq![(nm_bytes, cv)] + rr.1) =~= raws_done + rr.1);
            }
        }
        cur = q2;
        idx = idx + 1;
    }
    proof {
        assert(raws_done + Seq::<(Seq<u8>, ComponentView)>::empty() =~= raws_done);
    }
    Ok((cur, comps))
}

/// Parse the whole envelope, returning the end position, the raw
/// configuration bytes, and the components.
fn parse_top_level(i: &[u8]) -> (r: Result<
    (usize, Vec<u8>, Vec<(String, Component)>),
    ParseError,
>)
    ensures
        match r {
            Ok((p, cfg, cs)) => match spec_parse_top_level(i@, 0) {
                Some(env) => env.end == p as int && env.config == cfg@ && entries_view(cs@)
                    == fold_assoc(named_chars(env.raw)) && p <= i@.len(),
                None => false,
            },
            Err(_) => spec_parse_top_level(i@, 0) is None,
        },
{
    let tn = tag_bytes_nnet3();
    let p1 = match open(i, 0, tn.as_slice()) {
        Ok(x) => x,
        Err(e) => {
            return Err(e);
        },
    };
    let m = match find_num_marker(i, p1) {
        Some(x) => x,
        None => {
            return Err(err_label(p1, "NumComponents marker"));
        },
    };
    let cfg = slice_to_vec(slice_subrange(i, p1, m));
    let (p2, v) = match num_components(i, m) {
        Ok(x) => x,
        Err(e) => {
            return Err(e);
        },
    };
    if v < 0 {
        return Err(err_label(m, "non-negative component count"));
    }
    let count = v as usize;
    let (p3, comps) = match components_n(i, p2, count) {
        Ok(x) => x,
        Err(e) => {
            return Err(e);
        },
    };
    let p4 = match close(i, p3, tn.as_slice()) {
        Ok(x) => x,
        Err(e) => {
            return Err(e);
        },
    };
    Ok((p4, cfg, comps))
}

/// The public entry point: parse a complete text dump into a model, or
/// report a descriptive error.  The parse is all-or-nothing; bytes after the
/// closing envelope tag are ignored.
pub fn nnet3(i: &[u8]) -> (r: Result<KaldiProtoModel, ModelError>)
    ensures
        match r {
            Ok(m) => spec_nnet3(i@) == Some(m@),
            Err(e) => spec_nnet3(i@) is None && (match e {
                ModelError::Parse(_) => spec_parse_top_level(i@, 0) is None,
                ModelError::Utf8 => match spec_parse_top_level(i@, 0) {
                    Some(env) => !valid_utf8(env.config),
                    None => false,
                },
            }),
        },
{
    let (end, cfg, comps) = match parse_top_level(i) {
        Ok(x) => x,
        Err(e) => {
            return Err(ModelError::Parse(e));
        },
    };
    let config_lines = match bytes_to_string(cfg) {
        Some(s) => s,
        None => {
            return Err(ModelError::Utf8);
        },
    };
    Ok(KaldiProtoModel { config_lines, components: comps })
}

} // verus!
