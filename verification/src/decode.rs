//! The decoder: a resumable parser that reads one frame off the front of a
//! byte buffer. `spec_parse` is the byte-exact statement of what a buffer
//! holds: a complete frame and its length, the `NotComplete` signal when the
//! buffer holds only a prefix of a frame, or a permanent error. Every
//! executable parsing function is proved to agree with it.

use vstd::prelude::*;
use vstd::utf8::valid_utf8;
use crate::frame::{
    BulkString, CR, Double, FrameView, LF, RespArray, RespError, RespFrame, RespMap, RespNull,
    RespNullArray, RespNullBulkString, RespSet, SimpleError, SimpleString, digits_prefix_len,
    double_body_ok, frame_view, frames_view, is_digit, pairs_view,
};
use crate::encode::{COLON, COMMA, DOLLAR, HASH, LETTER_F, LETTER_T, MINUS, PERCENT, PLUS, STAR,
    TILDE, UNDERSCORE};
use crate::num::{all_digits, digits_val, lemma_digits_val_snoc};

verus! {

broadcast use vstd::std_specs::vec::group_vec_axioms, vstd::seq::group_seq_axioms;

// ------------------------------------------------------------- spec parser

/// The position of the first CRLF pair in `s`, if any.
pub open spec fn crlf_pos(s: Seq<u8>) -> Option<int>
    decreases s.len(),
{
    if s.len() < 2 {
        None
    } else if s[0] == CR && s[1] == LF {
        Some(0)
    } else {
        match crlf_pos(s.drop_first()) {
            Some(j) => Some(j + 1),
            None => None,
        }
    }
}

/// What `crlf_pos` returns: the first position holding a CRLF pair.
pub proof fn lemma_crlf_pos_char(s: Seq<u8>)
    ensures
        match crlf_pos(s) {
            Some(p) => 0 <= p && p + 1 < s.len() && s[p] == CR && s[p + 1] == LF && forall|i: int|
                0 <= i < p ==> !(s[i] == CR && #[trigger] s[i + 1] == LF),
            None => forall|i: int|
                0 <= i && i + 1 < s.len() ==> !(s[i] == CR && #[trigger] s[i + 1] == LF),
        },
    decreases s.len(),
{
    if s.len() >= 2 && !(s[0] == CR && s[1] == LF) {
        let t = s.drop_first();
        lemma_crlf_pos_char(t);
        match crlf_pos(s) {
            Some(p) => {
                assert(crlf_pos(t) == Some(p - 1));
                assert forall|i: int| 0 <= i < p implies !(s[i] == CR && #[trigger] s[i + 1]
                    == LF) by {
                    if i > 0 {
                        assert(!(t[i - 1] == CR && t[i - 1 + 1] == LF));
                        assert(t[i - 1] == s[i] && t[i] == s[i + 1]);
                    }
                }
            },
            None => {
                assert forall|i: int| 0 <= i && i + 1 < s.len() implies !(s[i] == CR
                    && #[trigger] s[i + 1] == LF) by {
                    if i > 0 {
                        assert(!(t[i - 1] == CR && t[i - 1 + 1] == LF));
                        assert(t[i - 1] == s[i] && t[i] == s[i + 1]);
                    }
                }
            },
        }
    }
}

/// A CRLF pair at `p` with none before it pins `crlf_pos` to `p`.
pub proof fn lemma_crlf_pos_found(s: Seq<u8>, p: int)
    requires
        0 <= p,
        p + 1 < s.len(),
        s[p] == CR,
        s[p + 1] == LF,
        forall|i: int| 0 <= i < p ==> !(s[i] == CR && #[trigger] s[i + 1] == LF),
    ensures
        crlf_pos(s) == Some(p),
    decreases s.len(),
{
    if p > 0 {
        let t = s.drop_first();
        assert forall|i: int| 0 <= i < p - 1 implies !(t[i] == CR && #[trigger] t[i + 1] == LF) by {
            assert(!(s[i + 1] == CR && s[i + 1 + 1] == LF));
            assert(t[i] == s[i + 1] && t[i + 1] == s[i + 2]);
        }
        assert(t[p - 1] == s[p] && t[p - 1 + 1] == s[p + 1]);
        lemma_crlf_pos_found(t, p - 1);
        assert(!(s[0] == CR && s[0int + 1] == LF));
    }
}

/// No CRLF pair anywhere pins `crlf_pos` to `None`.
pub proof fn lemma_crlf_pos_none(s: Seq<u8>)
    requires
        forall|i: int| 0 <= i && i + 1 < s.len() ==> !(s[i] == CR && #[trigger] s[i + 1] == LF),
    ensures
        crlf_pos(s) == None::<int>,
    decreases s.len(),
{
    if s.len() >= 2 {
        let t = s.drop_first();
        assert forall|i: int| 0 <= i && i + 1 < t.len() implies !(t[i] == CR && #[trigger] t[i + 1]
            == LF) by {
            assert(!(s[i + 1] == CR && s[i + 1 + 1] == LF));
            assert(t[i] == s[i + 1] && t[i + 1] == s[i + 2]);
        }
        lemma_crlf_pos_none(t);
        assert(!(s[0] == CR && s[0int + 1] == LF));
    }
}

/// The value of a signless decimal body, negated when `neg` holds, if the
/// body is one or more digits and the value fits a 64-bit signed integer.
pub open spec fn spec_parse_uint_as(t: Seq<u8>, neg: bool) -> Option<int> {
    if t.len() == 0 || !all_digits(t) {
        None
    } else {
        let v: int = if neg {
            -digits_val(t)
        } else {
            digits_val(t)
        };
        if i64::MIN <= v <= i64::MAX {
            Some(v)
        } else {
            None
        }
    }
}

/// The value of an integer body: an optional sign, then decimal digits,
/// accepted exactly when the value fits a 64-bit signed integer.
pub open spec fn spec_parse_i64(s: Seq<u8>) -> Option<int> {
    if s.len() > 0 && s[0] == PLUS {
        spec_parse_uint_as(s.drop_first(), false)
    } else if s.len() > 0 && s[0] == MINUS {
        spec_parse_uint_as(s.drop_first(), true)
    } else {
        spec_parse_uint_as(s, false)
    }
}

/// Parses one frame from the front of `s`: the frame's view and the bytes
/// it occupies, `NotComplete` when `s` holds only a prefix of a frame, or
/// the permanent error the malformed input earns.
pub open spec fn spec_parse(s: Seq<u8>) -> Result<(FrameView, int), RespError>
    decreases s.len(), 0int,
    via spec_parse_decreases
{
    if s.len() == 0 {
        Err(RespError::NotComplete)
    } else {
        let tag = s[0];
        if tag == PLUS || tag == MINUS || tag == COLON || tag == HASH || tag == COMMA || tag
            == UNDERSCORE {
            match crlf_pos(s.skip(1)) {
                None => Err(RespError::NotComplete),
                Some(p) => spec_parse_line(tag, s.skip(1).take(p), 1 + p + 2),
            }
        } else if tag == DOLLAR || tag == STAR || tag == PERCENT || tag == TILDE {
            match crlf_pos(s.skip(1)) {
                None => Err(RespError::NotComplete),
                Some(p) => {
                    let hlen = 1 + p + 2;
                    match spec_parse_i64(s.skip(1).take(p)) {
                        None => Err(RespError::ParseIntError),
                        Some(v) => if v == -1 && tag == DOLLAR {
                            Ok((FrameView::NullBulkString, hlen))
                        } else if v == -1 && tag == STAR {
                            Ok((FrameView::NullArray, hlen))
                        } else if v < 0 {
                            Err(RespError::InvalidFrameLength)
                        } else if tag == DOLLAR {
                            if s.len() < hlen + v + 2 {
                                Err(RespError::NotComplete)
                            } else if s[hlen + v] == CR && s[hlen + v + 1] == LF {
                                Ok((FrameView::BulkString(s.subrange(hlen, hlen + v)), hlen + v
                                    + 2))
                            } else {
                                Err(RespError::InvalidFrame)
                            }
                        } else if tag == PERCENT {
                            match spec_parse_pairs(s.skip(hlen), v as nat) {
                                Err(e) => Err(e),
                                Ok((ps, c)) => Ok((FrameView::MapFrame(ps), hlen + c)),
                            }
                        } else {
                            match spec_parse_list(s.skip(hlen), v as nat) {
                                Err(e) => Err(e),
                                Ok((es, c)) => if tag == STAR {
                                    Ok((FrameView::Arrays(es), hlen + c))
                                } else {
                                    Ok((FrameView::SetFrame(es), hlen + c))
                                },
                            }
                        },
                    }
                },
            }
        } else {
            Err(RespError::InvalidFrameType)
        }
    }
}

#[via_fn]
proof fn spec_parse_decreases(s: Seq<u8>) {
    if s.len() > 0 {
        lemma_crlf_pos_char(s.skip(1));
    }
}

/// Finishes a line-oriented frame from its tag and body.
pub open spec fn spec_parse_line(tag: u8, body: Seq<u8>, total: int) -> Result<
    (FrameView, int),
    RespError,
> {
    if tag == PLUS {
        if valid_utf8(body) {
            Ok((FrameView::SimpleString(body), total))
        } else {
            Err(RespError::Utf8Error)
        }
    } else if tag == MINUS {
        if valid_utf8(body) {
            Ok((FrameView::Error(body), total))
        } else {
            Err(RespError::Utf8Error)
        }
    } else if tag == COLON {
        match spec_parse_i64(body) {
            Some(v) => Ok((FrameView::Integer(v), total)),
            None => Err(RespError::ParseIntError),
        }
    } else if tag == HASH {
        if body == seq![LETTER_T] {
            Ok((FrameView::Boolean(true), total))
        } else if body == seq![LETTER_F] {
            Ok((FrameView::Boolean(false), total))
        } else {
            Err(RespError::InvalidFrame)
        }
    } else if tag == COMMA {
        if double_body_ok(body) {
            Ok((FrameView::Double(body), total))
        } else {
            Err(RespError::ParseFloatError)
        }
    } else {
        if body.len() == 0 {
            Ok((FrameView::Null, total))
        } else {
            Err(RespError::InvalidFrame)
        }
    }
}

/// Parses `n` frames from the front of `s`: their views and the bytes they
/// occupy together, or the first error. A nested `NotComplete` surfaces as
/// the whole list's `NotComplete`.
pub open spec fn spec_parse_list(s: Seq<u8>, n: nat) -> Result<(Seq<FrameView>, int), RespError>
    decreases s.len(), n + 1,
{
    if n == 0 {
        Ok((Seq::empty(), 0))
    } else {
        match spec_parse(s) {
            Err(e) => Err(e),
            Ok((f, k)) => if k < 1 || k > s.len() {
                Err(RespError::InvalidFrame)
            } else {
                match spec_parse_list(s.skip(k), (n - 1) as nat) {
                    Err(e) => Err(e),
                    Ok((fs, c)) => Ok((seq![f] + fs, k + c)),
                }
            },
        }
    }
}

/// Parses `n` key-value entries from the front of `s`: each key a simple
/// string frame, each value any frame. A nested `NotComplete` surfaces as
/// the whole run's `NotComplete`.
pub open spec fn spec_parse_pairs(s: Seq<u8>, n: nat) -> Result<
    (Seq<(Seq<u8>, FrameView)>, int),
    RespError,
>
    decreases s.len(), n + 1,
{
    if n == 0 {
        Ok((Seq::empty(), 0))
    } else {
        match spec_parse(s) {
            Err(e) => Err(e),
            Ok((kf, k)) => if k < 1 || k > s.len() {
                Err(RespError::InvalidFrame)
            } else {
                match kf {
                    FrameView::SimpleString(kb) => match spec_parse(s.skip(k)) {
                        Err(e) => Err(e),
                        Ok((vf, k2)) => if k2 < 1 || k2 > s.len() - k {
                            Err(RespError::InvalidFrame)
                        } else {
                            match spec_parse_pairs(s.skip(k).skip(k2), (n - 1) as nat) {
                                Err(e) => Err(e),
                                Ok((ps, c)) => Ok((seq![(kb, vf)] + ps, k + k2 + c)),
                            }
                        },
                    },
                    _ => Err(RespError::InvalidFrame),
                }
            },
        }
    }
}

// ------------------------------------------------------------ exec helpers

/// A digit run up to `d` followed by a non-digit (or the end) pins
/// `digits_prefix_len` to `d`.
pub proof fn lemma_digits_prefix_len_eq(s: Seq<u8>, d: int)
    requires
        0 <= d <= s.len(),
        forall|i: int| 0 <= i < d ==> is_digit(#[trigger] s[i]),
        d < s.len() ==> !is_digit(s[d]),
    ensures
        digits_prefix_len(s) == d,
    decreases s.len(),
{
    if d > 0 {
        let t = s.drop_first();
        assert forall|i: int| 0 <= i < d - 1 implies is_digit(#[trigger] t[i]) by {
            assert(t[i] == s[i + 1]);
        }
        assert(d - 1 < t.len() ==> t[d - 1] == s[d]);
        lemma_digits_prefix_len_eq(t, d - 1);
    }
}

/// Returns the position of the first CRLF pair at or after `from`, if any.
fn find_crlf(data: &Vec<u8>, from: usize) -> (r: Option<usize>)
    requires
        from <= data@.len(),
    ensures
        match r {
            Some(p) => from <= p && p + 1 < data@.len() && crlf_pos(data@.skip(from as int))
                == Some(p - from),
            None => crlf_pos(data@.skip(from as int)) == None::<int>,
        },
{
    let n = data.len();
    let ghost s = data@.skip(from as int);
    let mut i = from;
    while n >= 1 && i < n - 1
        invariant
            from <= i <= n,
            n == data@.len(),
            s == data@.skip(from as int),
            forall|j: int| from <= j < i ==> !(data@[j] == CR && #[trigger] data@[j + 1] == LF),
        decreases n - i,
    {
        if data[i] == CR && data[i + 1] == LF {
            proof {
                assert forall|k: int| 0 <= k < i - from implies !(s[k] == CR && #[trigger] s[k + 1]
                    == LF) by {
                    assert(s[k] == data@[from + k] && s[k + 1] == data@[from + k + 1]);
                }
                assert(s[i - from] == data@[i as int] && s[i - from + 1] == data@[i as int + 1]);
                lemma_crlf_pos_found(s, i - from);
            }
            return Some(i);
        }
        i += 1;
    }
    proof {
        assert forall|k: int| 0 <= k && k + 1 < s.len() implies !(s[k] == CR && #[trigger] s[k + 1]
            == LF) by {
            assert(s[k] == data@[from + k] && s[k + 1] == data@[from + k + 1]);
        }
        lemma_crlf_pos_none(s);
    }
    None
}

/// Copies the bytes of `data` in `[a, b)` into a fresh buffer.
fn copy_range(data: &Vec<u8>, a: usize, b: usize) -> (r: Vec<u8>)
    requires
        a <= b <= data@.len(),
    ensures
        r@ == data@.subrange(a as int, b as int),
{
    let mut out: Vec<u8> = Vec::new();
    let mut i = a;
    while i < b
        invariant
            a <= i <= b <= data@.len(),
            out@ == data@.subrange(a as int, i as int),
        decreases b - i,
    {
        out.push(data[i]);
        proof {
            assert(out@ =~= data@.subrange(a as int, i as int + 1));
        }
        i += 1;
    }
    out
}

/// Returns the end of the run of decimal digits that starts at `from` and
/// stays below `to`.
fn scan_digits(data: &Vec<u8>, from: usize, to: usize) -> (r: usize)
    requires
        from <= to <= data@.len(),
    ensures
        from <= r <= to,
        digits_prefix_len(data@.subrange(from as int, to as int)) == r - from,
        forall|k: int| from <= k < r ==> is_digit(#[trigger] data@[k]),
        r < to ==> !is_digit(data@[r as int]),
    decreases to - from,
{
    let mut i = from;
    while i < to && data[i] >= 48 && data[i] <= 57
        invariant
            from <= i <= to <= data@.len(),
            forall|k: int| from <= k < i ==> is_digit(#[trigger] data@[k]),
        decreases to - i,
    {
        i += 1;
    }
    proof {
        let s = data@.subrange(from as int, to as int);
        assert forall|k: int| 0 <= k < i - from implies is_digit(#[trigger] s[k]) by {
            assert(s[k] == data@[from + k]);
        }
        assert(i - from < s.len() ==> s[i - from] == data@[i as int]);
        lemma_digits_prefix_len_eq(s, i as int - from);
    }
    i
}

/// Decides whether `[from, to)` holds an exponent tail: an optional sign,
/// then one or more digits and nothing else.
fn exp_tail_range(data: &Vec<u8>, from: usize, to: usize) -> (r: bool)
    requires
        from <= to <= data@.len(),
    ensures
        r == crate::frame::exp_tail_ok(data@.subrange(from as int, to as int)),
{
    let ghost s = data@.subrange(from as int, to as int);
    let mut i = from;
    if i < to && (data[i] == PLUS || data[i] == MINUS) {
        i += 1;
    }
    proof {
        assert(data@.subrange(i as int, to as int) =~= if s.len() > 0 && (s[0] == PLUS || s[0]
            == MINUS) {
            s.drop_first()
        } else {
            s
        });
    }
    let e = scan_digits(data, i, to);
    proof {
        let t = data@.subrange(i as int, to as int);
        if e == to && to > i {
            assert(digits_prefix_len(t) == t.len());
        }
    }
    e == to && to > i
}

/// Decides whether `[from, to)` holds what may follow the digits of a
/// double numeral: nothing, or an exponent marker and its tail.
fn exp_part_range(data: &Vec<u8>, from: usize, to: usize) -> (r: bool)
    requires
        from <= to <= data@.len(),
    ensures
        r == crate::frame::exp_part_ok(data@.subrange(from as int, to as int)),
{
    let ghost s = data@.subrange(from as int, to as int);
    if from == to {
        proof {
            assert(s.len() == 0);
        }
        return true;
    }
    let c = data[from];
    proof {
        assert(s[0] == data@[from as int]);
    }
    if c != 101 && c != 69 {
        return false;
    }
    proof {
        assert(data@.subrange(from as int + 1, to as int) =~= s.drop_first());
    }
    exp_tail_range(data, from + 1, to)
}

/// Decides whether `[from, to)` holds the body of a double numeral.
fn double_ok_range(data: &Vec<u8>, from: usize, to: usize) -> (r: bool)
    requires
        from <= to <= data@.len(),
    ensures
        r == double_body_ok(data@.subrange(from as int, to as int)),
{
    let ghost s = data@.subrange(from as int, to as int);
    let mut i = from;
    if i < to && (data[i] == PLUS || data[i] == MINUS) {
        i += 1;
    }
    proof {
        assert(data@.subrange(i as int, to as int) =~= if s.len() > 0 && (s[0] == PLUS || s[0]
            == MINUS) {
            s.drop_first()
        } else {
            s
        });
    }
    let ghost t = data@.subrange(i as int, to as int);
    let d_end = scan_digits(data, i, to);
    if d_end == i {
        proof {
            assert(digits_prefix_len(t) == 0);
        }
        return false;
    }
    proof {
        assert(t.skip(d_end - i) =~= data@.subrange(d_end as int, to as int));
    }
    if d_end < to && data[d_end] == 46 {
        proof {
            assert(data@.subrange(d_end as int, to as int)[0] == data@[d_end as int]);
            assert(data@.subrange(d_end as int + 1, to as int) =~= data@.subrange(
                d_end as int,
                to as int,
            ).drop_first());
        }
        let f_end = scan_digits(data, d_end + 1, to);
        if f_end == d_end + 1 {
            return false;
        }
        proof {
            assert(data@.subrange(d_end as int, to as int).drop_first().skip(f_end - (d_end + 1))
                =~= data@.subrange(f_end as int, to as int));
        }
        exp_part_range(data, f_end, to)
    } else {
        proof {
            if d_end < to {
                assert(data@.subrange(d_end as int, to as int)[0] == data@[d_end as int]);
            }
        }
        exp_part_range(data, d_end, to)
    }
}


/// Parses the decimal body in `[a, b)` as a 64-bit signed integer, exactly
/// as `spec_parse_i64` reads it: an optional sign, then digits, rejected
/// when a byte is not a digit or the value does not fit.
fn parse_i64_range(data: &Vec<u8>, a: usize, b: usize) -> (r: Option<i64>)
    requires
        a <= b <= data@.len(),
    ensures
        match r {
            Some(v) => spec_parse_i64(data@.subrange(a as int, b as int)) == Some(v as int),
            None => spec_parse_i64(data@.subrange(a as int, b as int)) == None::<int>,
        },
{
    let ghost s = data@.subrange(a as int, b as int);
    let mut i = a;
    let mut neg = false;
    if i < b && data[i] == PLUS {
        i += 1;
    } else if i < b && data[i] == MINUS {
        neg = true;
        i += 1;
    }
    let ghost t = data@.subrange(i as int, b as int);
    proof {
        if s.len() > 0 {
            assert(s[0] == data@[a as int]);
        }
        if s.len() > 0 && (s[0] == PLUS || s[0] == MINUS) {
            assert(t =~= s.drop_first());
        } else {
            assert(t =~= s);
        }
        assert(spec_parse_i64(s) == spec_parse_uint_as(t, neg));
    }
    if i == b {
        proof {
            assert(t.len() == 0);
        }
        return None;
    }
    let start = i;
    let mut acc: u64 = 0;
    let mut over = false;
    while i < b
        invariant
            a <= start <= i <= b <= data@.len(),
            t == data@.subrange(start as int, b as int),
            s == data@.subrange(a as int, b as int),
            spec_parse_i64(s) == spec_parse_uint_as(t, neg),
            t.len() > 0,
            forall|k: int| 0 <= k < i - start ==> is_digit(#[trigger] t[k]),
            !over ==> acc == digits_val(t.take(i - start)),
            over ==> digits_val(t.take(i - start)) > u64::MAX,
        decreases b - i,
    {
        let c = data[i];
        proof {
            assert(t[i - start] == data@[i as int]);
        }
        if c < 48 || c > 57 {
            proof {
                assert(!is_digit(t[i - start]));
                assert(!all_digits(t));
            }
            return None;
        }
        let d = (c - 48) as u64;
        proof {
            lemma_digits_val_snoc(t, i - start);
            lemma_digits_val_nonneg_pref(t, i - start);
        }
        if !over {
            if acc <= (u64::MAX - d) / 10 {
                proof {
                    assert(acc * 10 + d <= u64::MAX) by (nonlinear_arith)
                        requires
                            acc <= (u64::MAX - d) / 10,
                            d <= 9,
                    {}
                }
                acc = acc * 10 + d;
            } else {
                proof {
                    assert(acc * 10 + d > u64::MAX) by (nonlinear_arith)
                        requires
                            acc > (u64::MAX - d) / 10,
                            d <= 9,
                    {}
                }
                over = true;
            }
        } else {
            proof {
                assert(digits_val(t.take(i - start)) * 10 + (t[i - start] - 48) > u64::MAX)
                    by (nonlinear_arith)
                    requires
                        digits_val(t.take(i - start)) > u64::MAX,
                        t[i - start] >= 48,
                {}
            }
        }
        i += 1;
    }
    proof {
        assert(t.take(b - start) =~= t);
        assert(all_digits(t));
        crate::num::lemma_digits_val_nonneg(t);
    }
    if over {
        return None;
    }
    if neg {
        if acc <= 9223372036854775808u64 {
            let m: i128 = -(acc as i128);
            Some(m as i64)
        } else {
            None
        }
    } else {
        if acc <= 9223372036854775807u64 {
            Some(acc as i64)
        } else {
            None
        }
    }
}

/// The value of a digit prefix is not negative.
proof fn lemma_digits_val_nonneg_pref(t: Seq<u8>, k: int)
    requires
        0 <= k <= t.len(),
        forall|i: int| 0 <= i < k ==> is_digit(#[trigger] t[i]),
    ensures
        digits_val(t.take(k)) >= 0,
{
    let p = t.take(k);
    assert(all_digits(p));
    crate::num::lemma_digits_val_nonneg(p);
}



/// How many bytes the frame at the front of `s` will occupy once complete,
/// computed from headers alone: a line frame ends at its first terminator;
/// a bulk string's header declares its body length, which need not be
/// buffered yet; an aggregate's total is its header plus what its declared
/// elements occupy. `NotComplete` means not even the headers are all here.
pub open spec fn spec_expect(s: Seq<u8>) -> Result<int, RespError>
    decreases s.len(), 0int,
    via spec_expect_decreases
{
    if s.len() == 0 {
        Err(RespError::NotComplete)
    } else {
        let tag = s[0];
        if tag == PLUS || tag == MINUS || tag == COLON || tag == HASH || tag == COMMA || tag
            == UNDERSCORE {
            match crlf_pos(s.skip(1)) {
                None => Err(RespError::NotComplete),
                Some(p) => Ok(1 + p + 2),
            }
        } else if tag == DOLLAR || tag == STAR || tag == PERCENT || tag == TILDE {
            match crlf_pos(s.skip(1)) {
                None => Err(RespError::NotComplete),
                Some(p) => {
                    let hlen = 1 + p + 2;
                    match spec_parse_i64(s.skip(1).take(p)) {
                        None => Err(RespError::ParseIntError),
                        Some(v) => if v == -1 && (tag == DOLLAR || tag == STAR) {
                            Ok(hlen)
                        } else if v < 0 {
                            Err(RespError::InvalidFrameLength)
                        } else if tag == DOLLAR {
                            Ok(hlen + v + 2)
                        } else if tag == PERCENT {
                            match spec_expect_n(s.skip(hlen), (2 * v) as nat) {
                                Err(e) => Err(e),
                                Ok(c) => Ok(hlen + c),
                            }
                        } else {
                            match spec_expect_n(s.skip(hlen), v as nat) {
                                Err(e) => Err(e),
                                Ok(c) => Ok(hlen + c),
                            }
                        },
                    }
                },
            }
        } else {
            Err(RespError::InvalidFrameType)
        }
    }
}

#[via_fn]
proof fn spec_expect_decreases(s: Seq<u8>) {
    if s.len() > 0 {
        lemma_crlf_pos_char(s.skip(1));
    }
}

/// The bytes that `n` consecutive frames at the front of `s` will occupy.
/// A frame whose declared extent runs past the buffer leaves the frames
/// after it unreachable, so the run is `NotComplete`.
pub open spec fn spec_expect_n(s: Seq<u8>, n: nat) -> Result<int, RespError>
    decreases s.len(), n + 1,
{
    if n == 0 {
        Ok(0)
    } else {
        match spec_expect(s) {
            Err(e) => Err(e),
            Ok(k) => if k < 1 || k > s.len() {
                Err(RespError::NotComplete)
            } else {
                match spec_expect_n(s.skip(k), (n - 1) as nat) {
                    Err(e) => Err(e),
                    Ok(c) => Ok(k + c),
                }
            },
        }
    }
}

// ---------------------------------------------------------- trusted items

/// The outside mutable byte buffer that callers feed the decoder from.
#[verifier::external_type_specification]
#[verifier::external_body]
pub struct ExBytesMut(bytes::BytesMut);

/// What the buffer holds, front to back.
pub uninterp spec fn bytes_view(b: bytes::BytesMut) -> Seq<u8>;

/// Relies on BytesMut's slice view (`AsRef<[u8]>`): the buffered bytes,
/// front to back.
#[verifier::external_body]
fn buffered_bytes(b: &bytes::BytesMut) -> (r: Vec<u8>)
    ensures
        r@ == bytes_view(*b),
{
    b.as_ref().to_vec()
}

/// Relies on bytes::Buf::advance: discards the first `n` buffered bytes
/// and keeps the rest.
#[verifier::external_body]
fn advance_buffer(b: &mut bytes::BytesMut, n: usize)
    requires
        n <= bytes_view(*old(b)).len(),
    ensures
        bytes_view(*final(b)) == bytes_view(*old(b)).skip(n as int),
{
    bytes::Buf::advance(b, n);
}

/// Relies on core::str::from_utf8: succeeds exactly on valid UTF-8.
#[verifier::external_body]
fn utf8_valid(v: &Vec<u8>) -> (r: bool)
    ensures
        r == valid_utf8(v@),
{
    core::str::from_utf8(v.as_slice()).is_ok()
}

// ------------------------------------------------------------ exec parser

/// A frame's view is a simple string exactly when the frame is one.
proof fn lemma_view_variant(f: RespFrame)
    ensures
        (frame_view(f) is SimpleString) <==> (f is SimpleString),
{
    match f {
        RespFrame::SimpleString(_) => {},
        RespFrame::Error(_) => {},
        RespFrame::Integer(_) => {},
        RespFrame::BulkString(_) => {},
        RespFrame::NullBulkString(_) => {},
        RespFrame::Arrays(_) => {},
        RespFrame::Null(_) => {},
        RespFrame::NullArray(_) => {},
        RespFrame::Boolean(_) => {},
        RespFrame::Double(_) => {},
        RespFrame::MapFrame(_) => {},
        RespFrame::SetFrame(_) => {},
    }
}

/// Parses one frame starting at `pos`, agreeing byte for byte with
/// `spec_parse` on the suffix that starts there.
#[verifier::rlimit(100)]
pub fn parse_frame_at(data: &Vec<u8>, pos: usize) -> (r: Result<(RespFrame, usize), RespError>)
    requires
        pos <= data@.len(),
    ensures
        ({
            let s = data@.skip(pos as int);
            match r {
                Ok((f, k)) => spec_parse(s) == Ok::<(FrameView, int), RespError>(
                    (frame_view(f), k as int),
                ) && 1 <= k <= s.len(),
                Err(e) => spec_parse(s) == Err::<(FrameView, int), RespError>(e),
            }
        }),
    decreases data@.len() - pos, 0int,
{
    let ghost s = data@.skip(pos as int);
    let n = data.len();
    if pos == n {
        return Err(RespError::NotComplete);
    }
    let tag = data[pos];
    proof {
        assert(s[0] == data@[pos as int]);
        assert(s.skip(1) =~= data@.skip(pos as int + 1));
    }
    if tag == PLUS || tag == MINUS || tag == COLON || tag == HASH || tag == COMMA || tag
        == UNDERSCORE {
        match find_crlf(data, pos + 1) {
            None => Err(RespError::NotComplete),
            Some(p) => {
                let ghost body = s.skip(1).take(p - pos - 1);
                proof {
                    assert(body =~= data@.subrange(pos as int + 1, p as int));
                }
                let k = p + 2 - pos;
                if tag == PLUS || tag == MINUS {
                    let text = copy_range(data, pos + 1, p);
                    if utf8_valid(&text) {
                        if tag == PLUS {
                            Ok((RespFrame::SimpleString(SimpleString(text)), k))
                        } else {
                            Ok((RespFrame::Error(SimpleError(text)), k))
                        }
                    } else {
                        Err(RespError::Utf8Error)
                    }
                } else if tag == COLON {
                    match parse_i64_range(data, pos + 1, p) {
                        Some(v) => Ok((RespFrame::Integer(v), k)),
                        None => Err(RespError::ParseIntError),
                    }
                } else if tag == HASH {
                    proof {
                        if p == pos + 2 {
                            assert(body.len() == 1 && body[0] == data@[pos as int + 1]);
                        } else {
                            assert(body.len() != 1);
                        }
                    }
                    if p == pos + 2 && data[pos + 1] == LETTER_T {
                        proof {
                            assert(body =~= seq![LETTER_T]);
                        }
                        Ok((RespFrame::Boolean(true), k))
                    } else if p == pos + 2 && data[pos + 1] == LETTER_F {
                        proof {
                            assert(body =~= seq![LETTER_F]);
                        }
                        Ok((RespFrame::Boolean(false), k))
                    } else {
                        Err(RespError::InvalidFrame)
                    }
                } else if tag == COMMA {
                    if double_ok_range(data, pos + 1, p) {
                        let text = copy_range(data, pos + 1, p);
                        Ok((RespFrame::Double(Double(text)), k))
                    } else {
                        Err(RespError::ParseFloatError)
                    }
                } else {
                    if p == pos + 1 {
                        proof {
                            assert(body.len() == 0);
                        }
                        Ok((RespFrame::Null(RespNull), k))
                    } else {
                        proof {
                            assert(body.len() > 0);
                        }
                        Err(RespError::InvalidFrame)
                    }
                }
            },
        }
    } else if tag == DOLLAR || tag == STAR || tag == PERCENT || tag == TILDE {
        match find_crlf(data, pos + 1) {
            None => Err(RespError::NotComplete),
            Some(p) => {
                let ghost header = s.skip(1).take(p - pos - 1);
                let ghost hlen_rel: int = p + 2 - pos;
                proof {
                    assert(header =~= data@.subrange(pos as int + 1, p as int));
                }
                let hend = p + 2;
                match parse_i64_range(data, pos + 1, p) {
                    None => Err(RespError::ParseIntError),
                    Some(v) => {
                        if v == -1 && tag == DOLLAR {
                            Ok((RespFrame::NullBulkString(RespNullBulkString), hend - pos))
                        } else if v == -1 && tag == STAR {
                            Ok((RespFrame::NullArray(RespNullArray), hend - pos))
                        } else if v < 0 {
                            Err(RespError::InvalidFrameLength)
                        } else if tag == DOLLAR {
                            let remaining = n - hend;
                            if (v as u128) + 2 > remaining as u128 {
                                proof {
                                    assert(s.len() < hlen_rel + v + 2);
                                }
                                Err(RespError::NotComplete)
                            } else {
                                let blen = v as usize;
                                let bend = hend + blen;
                                proof {
                                    assert(s[hlen_rel + v] == data@[bend as int]);
                                    assert(s[hlen_rel + v + 1] == data@[bend as int + 1]);
                                }
                                if data[bend] == CR && data[bend + 1] == LF {
                                    let body = copy_range(data, hend, bend);
                                    proof {
                                        assert(s.subrange(hlen_rel, hlen_rel + v) =~= data@
                                            .subrange(hend as int, bend as int));
                                    }
                                    Ok((RespFrame::BulkString(BulkString(body)), bend + 2 - pos))
                                } else {
                                    Err(RespError::InvalidFrame)
                                }
                            }
                        } else if tag == PERCENT {
                            proof {
                                assert(s.skip(hlen_rel) =~= data@.skip(hend as int));
                            }
                            match parse_pairs_at(data, hend, v as u64) {
                                Err(e) => Err(e),
                                Ok((ps, c)) => Ok((RespFrame::MapFrame(RespMap(ps)), hend - pos
                                    + c)),
                            }
                        } else {
                            proof {
                                assert(s.skip(hlen_rel) =~= data@.skip(hend as int));
                            }
                            match parse_list_at(data, hend, v as u64) {
                                Err(e) => Err(e),
                                Ok((fs, c)) => if tag == STAR {
                                    Ok((RespFrame::Arrays(RespArray(fs)), hend - pos + c))
                                } else {
                                    Ok((RespFrame::SetFrame(RespSet(fs)), hend - pos + c))
                                },
                            }
                        }
                    },
                }
            },
        }
    } else {
        Err(RespError::InvalidFrameType)
    }
}

/// Parses `count` frames starting at `pos`, agreeing with
/// `spec_parse_list` on the suffix that starts there.
fn parse_list_at(data: &Vec<u8>, pos: usize, count: u64) -> (r: Result<
    (Vec<RespFrame>, usize),
    RespError,
>)
    requires
        pos <= data@.len(),
    ensures
        ({
            let s = data@.skip(pos as int);
            match r {
                Ok((fs, c)) => spec_parse_list(s, count as nat) == Ok::<
                    (Seq<FrameView>, int),
                    RespError,
                >((frames_view(fs@), c as int)) && c <= s.len(),
                Err(e) => spec_parse_list(s, count as nat) == Err::<
                    (Seq<FrameView>, int),
                    RespError,
                >(e),
            }
        }),
    decreases data@.len() - pos, count as int + 1,
{
    let ghost s = data@.skip(pos as int);
    let n = data.len();
    if count == 0 {
        proof {
            assert(frames_view(Seq::<RespFrame>::empty()) =~= Seq::<FrameView>::empty());
        }
        return Ok((Vec::new(), 0));
    }
    match parse_frame_at(data, pos) {
        Err(e) => Err(e),
        Ok((f, k)) => {
            proof {
                assert(s.len() == data@.len() - pos);
                assert(1 <= k as int <= s.len());
                assert(s.skip(k as int) =~= data@.skip(pos as int + k as int));
            }
            match parse_list_at(data, pos + k, count - 1) {
                Err(e) => Err(e),
                Ok((fs, c)) => {
                    let ghost rest = fs@;
                    let mut fs = fs;
                    fs.insert(0, f);
                    proof {
                        assert(fs@ =~= seq![f] + rest);
                        assert((seq![f] + rest)[0] == f);
                        assert((seq![f] + rest).drop_first() =~= rest);
                        assert(frames_view(fs@) =~= seq![frame_view(f)] + frames_view(rest));
                    }
                    Ok((fs, k + c))
                },
            }
        },
    }
}

/// Parses `count` key-value entries starting at `pos`, agreeing with
/// `spec_parse_pairs` on the suffix that starts there.
fn parse_pairs_at(data: &Vec<u8>, pos: usize, count: u64) -> (r: Result<
    (Vec<(Vec<u8>, RespFrame)>, usize),
    RespError,
>)
    requires
        pos <= data@.len(),
    ensures
        ({
            let s = data@.skip(pos as int);
            match r {
                Ok((ps, c)) => spec_parse_pairs(s, count as nat) == Ok::<
                    (Seq<(Seq<u8>, FrameView)>, int),
                    RespError,
                >((pairs_view(ps@), c as int)) && c <= s.len(),
                Err(e) => spec_parse_pairs(s, count as nat) == Err::<
                    (Seq<(Seq<u8>, FrameView)>, int),
                    RespError,
                >(e),
            }
        }),
    decreases data@.len() - pos, count as int + 1,
{
    let ghost s = data@.skip(pos as int);
    let n = data.len();
    if count == 0 {
        proof {
            assert(pairs_view(Seq::<(Vec<u8>, RespFrame)>::empty()) =~= Seq::<
                (Seq<u8>, FrameView),
            >::empty());
        }
        return Ok((Vec::new(), 0));
    }
    match parse_frame_at(data, pos) {
        Err(e) => Err(e),
        Ok((kf, k)) => {
            proof {
                assert(s.len() == data@.len() - pos);
                lemma_view_variant(kf);
            }
            match kf {
                RespFrame::SimpleString(ss) => {
                    proof {
                        assert(s.skip(k as int) =~= data@.skip(pos as int + k as int));
                    }
                    match parse_frame_at(data, pos + k) {
                        Err(e) => Err(e),
                        Ok((vf, k2)) => {
                            proof {
                                assert(data@.skip(pos as int + k as int).len() == data@.len() - pos
                                    - k);
                                assert(s.skip(k as int).skip(k2 as int) =~= data@.skip(
                                    pos as int + k as int + k2 as int,
                                ));
                            }
                            match parse_pairs_at(data, pos + k + k2, count - 1) {
                                Err(e) => Err(e),
                                Ok((ps, c)) => {
                                    let ghost rest = ps@;
                                    let mut ps = ps;
                                    ps.insert(0, (ss.0, vf));
                                    proof {
                                        assert(ps@ =~= seq![(ss.0, vf)] + rest);
                                        assert((seq![(ss.0, vf)] + rest).drop_first() =~= rest);
                                        assert(pairs_view(ps@) =~= seq![(ss.0@, frame_view(vf))]
                                            + pairs_view(rest));
                                    }
                                    Ok((ps, k + k2 + c))
                                },
                            }
                        },
                    }
                },
                _ => Err(RespError::InvalidFrame),
            }
        },
    }
}


/// Computes the expected extent of the frame starting at `pos`, agreeing
/// with `spec_expect` on the suffix that starts there.
fn expect_at(data: &Vec<u8>, pos: usize) -> (r: Result<u128, RespError>)
    requires
        pos <= data@.len(),
    ensures
        ({
            let s = data@.skip(pos as int);
            match r {
                Ok(k) => spec_expect(s) == Ok::<int, RespError>(k as int) && 1 <= k,
                Err(e) => spec_expect(s) == Err::<int, RespError>(e),
            }
        }),
    decreases data@.len() - pos, 0int,
{
    let ghost s = data@.skip(pos as int);
    let n = data.len();
    if pos == n {
        return Err(RespError::NotComplete);
    }
    let tag = data[pos];
    proof {
        assert(s[0] == data@[pos as int]);
        assert(s.skip(1) =~= data@.skip(pos as int + 1));
    }
    if tag == PLUS || tag == MINUS || tag == COLON || tag == HASH || tag == COMMA || tag
        == UNDERSCORE {
        match find_crlf(data, pos + 1) {
            None => Err(RespError::NotComplete),
            Some(p) => Ok((p + 2 - pos) as u128),
        }
    } else if tag == DOLLAR || tag == STAR || tag == PERCENT || tag == TILDE {
        match find_crlf(data, pos + 1) {
            None => Err(RespError::NotComplete),
            Some(p) => {
                let ghost header = s.skip(1).take(p - pos - 1);
                proof {
                    assert(header =~= data@.subrange(pos as int + 1, p as int));
                }
                let hend = p + 2;
                match parse_i64_range(data, pos + 1, p) {
                    None => Err(RespError::ParseIntError),
                    Some(v) => {
                        if v == -1 && (tag == DOLLAR || tag == STAR) {
                            Ok((hend - pos) as u128)
                        } else if v < 0 {
                            Err(RespError::InvalidFrameLength)
                        } else if tag == DOLLAR {
                            Ok((hend - pos) as u128 + (v as u128) + 2)
                        } else {
                            let count: u64 = if tag == PERCENT {
                                2 * (v as u64)
                            } else {
                                v as u64
                            };
                            proof {
                                assert(s.skip(hend - pos) =~= data@.skip(hend as int));
                            }
                            match expect_n_at(data, hend, count) {
                                Err(e) => Err(e),
                                Ok(c) => Ok((hend - pos) as u128 + c),
                            }
                        }
                    },
                }
            },
        }
    } else {
        Err(RespError::InvalidFrameType)
    }
}

/// Computes the joint extent of `count` consecutive frames starting at
/// `pos`, agreeing with `spec_expect_n` on the suffix that starts there.
fn expect_n_at(data: &Vec<u8>, pos: usize, count: u64) -> (r: Result<u128, RespError>)
    requires
        pos <= data@.len(),
    ensures
        ({
            let s = data@.skip(pos as int);
            match r {
                Ok(c) => spec_expect_n(s, count as nat) == Ok::<int, RespError>(c as int) && c
                    <= s.len(),
                Err(e) => spec_expect_n(s, count as nat) == Err::<int, RespError>(e),
            }
        }),
    decreases data@.len() - pos, count as int + 1,
{
    let ghost s = data@.skip(pos as int);
    let n = data.len();
    if count == 0 {
        return Ok(0);
    }
    match expect_at(data, pos) {
        Err(e) => Err(e),
        Ok(k) => {
            proof {
                assert(s.len() == data@.len() - pos);
            }
            if k > (n - pos) as u128 {
                Err(RespError::NotComplete)
            } else {
                let kk = k as usize;
                proof {
                    assert(s.skip(kk as int) =~= data@.skip(pos as int + kk as int));
                }
                match expect_n_at(data, pos + kk, count - 1) {
                    Err(e) => Err(e),
                    Ok(c) => Ok(k + c),
                }
            }
        },
    }
}

// ------------------------------------------------------------- public API

impl RespFrame {
    /// Reads one frame off the front of the buffer. On success exactly the
    /// frame's bytes are removed; on `NotComplete` and on every other error
    /// the buffer is left untouched, so the caller can append more bytes
    /// and retry the identical call.
    pub fn decode(buf: &mut bytes::BytesMut) -> (r: Result<RespFrame, RespError>)
        ensures
            ({
                let s = bytes_view(*old(buf));
                match spec_parse(s) {
                    Ok((fv, k)) => (r matches Ok(f) && frame_view(f) == fv) && bytes_view(
                        *final(buf),
                    ) == s.skip(k),
                    Err(e) => r == Err::<RespFrame, RespError>(e) && bytes_view(*final(buf)) == s,
                }
            }),
    {
        let data = buffered_bytes(buf);
        proof {
            assert(data@.skip(0) =~= data@);
        }
        match parse_frame_at(&data, 0) {
            Ok((f, k)) => {
                advance_buffer(buf, k);
                Ok(f)
            },
            Err(e) => Err(e),
        }
    }

    /// Computes from the buffered headers how many bytes the frame at the
    /// front of `buf` will occupy once complete, without consuming anything
    /// and without requiring a declared body to be present yet. The result
    /// is reported as `Err(InvalidFrameLength)` when it does not fit a
    /// `usize` on this machine.
    pub fn expect_length(buf: &[u8]) -> (r: Result<usize, RespError>)
        ensures
            match spec_expect(buf@) {
                Ok(k) => if k <= usize::MAX {
                    r == Ok::<usize, RespError>(k as usize)
                } else {
                    r == Err::<usize, RespError>(RespError::InvalidFrameLength)
                },
                Err(e) => r == Err::<usize, RespError>(e),
            },
    {
        let data = vstd::slice::slice_to_vec(buf);
        proof {
            assert(data@.skip(0) =~= data@);
        }
        match expect_at(&data, 0) {
            Ok(k) => {
                if k <= usize::MAX as u128 {
                    Ok(k as usize)
                } else {
                    Err(RespError::InvalidFrameLength)
                }
            },
            Err(e) => Err(e),
        }
    }
}

} // verus!
