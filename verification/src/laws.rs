//! The codec's laws: decoding the encoding of a well-formed frame yields
//! that frame back (round trip), and decoding any strict prefix of an
//! encoding reports `NotComplete` (partial buffer).

use vstd::prelude::*;
use crate::frame::{
    CR, FrameView, LF, RespError, contains_crlf, digits_prefix_len, double_body_ok, exp_part_ok,
    exp_tail_ok, frame_wf, is_digit, line_text_ok,
};
use crate::encode::{
    COLON, COMMA, DOLLAR, HASH, LETTER_F, LETTER_T, MINUS, PERCENT, PLUS, STAR, TILDE, UNDERSCORE,
    crlf, spec_encode, spec_encode_list, spec_encode_pairs,
};
use crate::decode::{
    crlf_pos, lemma_crlf_pos_found, lemma_crlf_pos_none, spec_expect, spec_expect_n, spec_parse,
    spec_parse_i64, spec_parse_list, spec_parse_pairs, spec_parse_uint_as,
};
use crate::num::{all_digits, dec_digits, digits_val, lemma_dec_digits};

verus! {

broadcast use vstd::seq::group_seq_axioms;

// --------------------------------------------------------- byte classes

/// A sequence without a carriage return holds no CRLF pair.
proof fn lemma_no_cr_no_crlf(s: Seq<u8>)
    requires
        forall|i: int| 0 <= i < s.len() ==> #[trigger] s[i] != CR,
    ensures
        !contains_crlf(s),
{
    if contains_crlf(s) {
        let i = choose|i: int| 0 <= i && i + 1 < s.len() && s[i] == CR && #[trigger] s[i + 1]
            == LF;
        assert(s[i] != CR);
    }
}

/// A digit string holds no CRLF pair.
proof fn lemma_digits_no_crlf(s: Seq<u8>)
    requires
        all_digits(s),
    ensures
        !contains_crlf(s),
{
    assert forall|i: int| 0 <= i < s.len() implies #[trigger] s[i] != CR by {
        assert(is_digit(s[i]));
    }
    lemma_no_cr_no_crlf(s);
}

/// What `digits_prefix_len` counts: leading digits up to the first byte
/// that is not one.
proof fn lemma_digits_prefix_len_char(s: Seq<u8>)
    ensures
        0 <= digits_prefix_len(s) <= s.len(),
        forall|i: int| 0 <= i < digits_prefix_len(s) ==> is_digit(#[trigger] s[i]),
        digits_prefix_len(s) < s.len() ==> !is_digit(s[digits_prefix_len(s)]),
    decreases s.len(),
{
    if s.len() > 0 && is_digit(s[0]) {
        let t = s.drop_first();
        lemma_digits_prefix_len_char(t);
        assert forall|i: int| 0 <= i < digits_prefix_len(s) implies is_digit(
            #[trigger] s[i],
        ) by {
            if i > 0 {
                assert(s[i] == t[i - 1]);
            }
        }
        assert(digits_prefix_len(s) < s.len() ==> s[digits_prefix_len(s)] == t[digits_prefix_len(
            t,
        )]);
    }
}

/// A byte of an exponent part is a digit, a sign, or an exponent marker.
proof fn lemma_exp_part_char(e: Seq<u8>, j: int)
    requires
        exp_part_ok(e),
        0 <= j < e.len(),
    ensures
        is_digit(e[j]) || e[j] == 43 || e[j] == 45 || e[j] == 101 || e[j] == 69,
{
    if j > 0 {
        let u = e.drop_first();
        assert(e[j] == u[j - 1]);
        assert(exp_tail_ok(u));
        if u.len() > 0 && (u[0] == 43 || u[0] == 45) {
            if j - 1 > 0 {
                let w = u.drop_first();
                assert(u[j - 1] == w[j - 2]);
                lemma_digits_prefix_len_char(w);
            }
        } else {
            lemma_digits_prefix_len_char(u);
        }
    }
}

/// A byte of a double numeral is a digit, a sign, a decimal point, or an
/// exponent marker.
proof fn lemma_double_char_at(d: Seq<u8>, i: int)
    requires
        double_body_ok(d),
        0 <= i < d.len(),
    ensures
        is_digit(d[i]) || d[i] == 43 || d[i] == 45 || d[i] == 46 || d[i] == 101 || d[i] == 69,
{
    let signed = d.len() > 0 && (d[0] == 43 || d[0] == 45);
    let t = if signed {
        d.drop_first()
    } else {
        d
    };
    if signed && i == 0 {
    } else {
        let j = if signed {
            i - 1
        } else {
            i
        };
        assert(t[j] == d[i]);
        let dd = digits_prefix_len(t);
        lemma_digits_prefix_len_char(t);
        if j < dd {
        } else {
            let r = t.skip(dd);
            assert(r[j - dd] == t[j]);
            if r[0] == 46 {
                if j == dd {
                } else {
                    let r1 = r.drop_first();
                    assert(r1[j - dd - 1] == r[j - dd]);
                    let ff = digits_prefix_len(r1);
                    lemma_digits_prefix_len_char(r1);
                    if j - dd - 1 < ff {
                    } else {
                        let e = r1.skip(ff);
                        assert(e[j - dd - 1 - ff] == r1[j - dd - 1]);
                        lemma_exp_part_char(e, j - dd - 1 - ff);
                    }
                }
            } else {
                lemma_exp_part_char(r, j - dd);
            }
        }
    }
}

/// The body of a double numeral holds no CRLF pair.
proof fn lemma_double_no_crlf(d: Seq<u8>)
    requires
        double_body_ok(d),
    ensures
        !contains_crlf(d),
{
    assert forall|i: int| 0 <= i < d.len() implies #[trigger] d[i] != CR by {
        lemma_double_char_at(d, i);
    }
    lemma_no_cr_no_crlf(d);
}

// ------------------------------------------------------------- framing

/// The terminator of a line frame is found exactly at the end of its
/// body, whatever bytes follow the frame.
proof fn lemma_line_framing(tag: u8, b: Seq<u8>, rest: Seq<u8>)
    requires
        !contains_crlf(b),
    ensures
        ({
            let s = seq![tag] + b + crlf() + rest;
            s.len() == b.len() + 3 + rest.len() && s[0] == tag && crlf_pos(s.skip(1)) == Some(
                b.len() as int,
            ) && s.skip(1).take(b.len() as int) == b
        }),
{
    let s = seq![tag] + b + crlf() + rest;
    let t = s.skip(1);
    assert(t =~= b + crlf() + rest);
    assert(t[b.len() as int] == CR);
    assert(t[b.len() as int + 1] == LF);
    assert forall|i: int| 0 <= i < b.len() implies !(t[i] == CR && #[trigger] t[i + 1] == LF) by {
        if i + 1 < b.len() {
            if t[i] == CR && t[i + 1] == LF {
                assert(b[i] == CR && b[i + 1] == LF);
                assert(contains_crlf(b));
            }
        } else {
            assert(t[i + 1] == CR);
        }
    }
    lemma_crlf_pos_found(t, b.len() as int);
    assert(t.take(b.len() as int) =~= b);
}

/// Every encoding is at least three bytes long.
proof fn lemma_encode_len(v: FrameView)
    ensures
        spec_encode(v).len() >= 3,
{
    match v {
        FrameView::Integer(i) => {
            if i >= 0 {
                lemma_dec_digits(i as nat);
            } else {
                lemma_dec_digits((-i) as nat);
            }
        },
        FrameView::BulkString(b) => {
            lemma_dec_digits(b.len());
        },
        FrameView::Arrays(es) => {
            lemma_dec_digits(es.len());
        },
        FrameView::MapFrame(ps) => {
            lemma_dec_digits(ps.len());
        },
        FrameView::SetFrame(es) => {
            lemma_dec_digits(es.len());
        },
        _ => {},
    }
}

/// A decimal numeral with an explicit sign parses back to its value.
proof fn lemma_parse_signed_numeral(i: int)
    requires
        i64::MIN <= i <= i64::MAX,
    ensures
        i >= 0 ==> spec_parse_i64(seq![PLUS] + dec_digits(i as nat)) == Some(i),
        i < 0 ==> spec_parse_i64(seq![MINUS] + dec_digits((-i) as nat)) == Some(i),
{
    if i >= 0 {
        let b = seq![PLUS] + dec_digits(i as nat);
        lemma_dec_digits(i as nat);
        assert(b.drop_first() =~= dec_digits(i as nat));
        assert(spec_parse_uint_as(dec_digits(i as nat), false) == Some(i));
    } else {
        let b = seq![MINUS] + dec_digits((-i) as nat);
        lemma_dec_digits((-i) as nat);
        assert(b.drop_first() =~= dec_digits((-i) as nat));
        assert(spec_parse_uint_as(dec_digits((-i) as nat), true) == Some(i));
    }
}

/// A bare decimal numeral parses back to its value.
proof fn lemma_parse_bare_numeral(n: nat)
    requires
        n <= i64::MAX,
    ensures
        spec_parse_i64(dec_digits(n)) == Some(n as int),
{
    lemma_dec_digits(n);
    let b = dec_digits(n);
    assert(is_digit(b[0]));
    assert(b[0] != PLUS && b[0] != MINUS);
    assert(spec_parse_uint_as(b, false) == Some(n as int));
}

// ----------------------------------------------------------- round trip

/// Round trip for one frame, with any suffix behind its encoding.
pub proof fn lemma_parse_encode(v: FrameView, rest: Seq<u8>)
    requires
        frame_wf(v),
    ensures
        spec_parse(spec_encode(v) + rest) == Ok::<(FrameView, int), RespError>(
            (v, spec_encode(v).len() as int),
        ),
    decreases v, 0int,
{
    let enc = spec_encode(v);
    let s = enc + rest;
    match v {
        FrameView::SimpleString(b) => {
            assert(s =~= seq![PLUS] + b + crlf() + rest);
            lemma_line_framing(PLUS, b, rest);
        },
        FrameView::Error(b) => {
            assert(s =~= seq![MINUS] + b + crlf() + rest);
            lemma_line_framing(MINUS, b, rest);
        },
        FrameView::Integer(i) => {
            let b = if i >= 0 {
                seq![PLUS] + dec_digits(i as nat)
            } else {
                seq![MINUS] + dec_digits((-i) as nat)
            };
            assert(s =~= seq![COLON] + b + crlf() + rest);
            if i >= 0 {
                lemma_dec_digits(i as nat);
            } else {
                lemma_dec_digits((-i) as nat);
            }
            assert forall|k: int| 0 <= k < b.len() implies #[trigger] b[k] != CR by {
                if k > 0 {
                    assert(is_digit(b[k]));
                }
            }
            lemma_no_cr_no_crlf(b);
            lemma_line_framing(COLON, b, rest);
            lemma_parse_signed_numeral(i);
        },
        FrameView::Boolean(t) => {
            let b = if t {
                seq![LETTER_T]
            } else {
                seq![LETTER_F]
            };
            assert(s =~= seq![HASH] + b + crlf() + rest);
            assert forall|k: int| 0 <= k < b.len() implies #[trigger] b[k] != CR by {}
            lemma_no_cr_no_crlf(b);
            lemma_line_framing(HASH, b, rest);
        },
        FrameView::Double(d) => {
            assert(s =~= seq![COMMA] + d + crlf() + rest);
            lemma_double_no_crlf(d);
            lemma_line_framing(COMMA, d, rest);
        },
        FrameView::Null => {
            let b = Seq::<u8>::empty();
            assert(s =~= seq![UNDERSCORE] + b + crlf() + rest);
            lemma_no_cr_no_crlf(b);
            lemma_line_framing(UNDERSCORE, b, rest);
        },
        FrameView::NullBulkString => {
            let b = seq![MINUS, 49u8];
            assert(s =~= seq![DOLLAR] + b + crlf() + rest);
            assert forall|k: int| 0 <= k < b.len() implies #[trigger] b[k] != CR by {}
            lemma_no_cr_no_crlf(b);
            lemma_line_framing(DOLLAR, b, rest);
            assert(b.drop_first() =~= seq![49u8]);
            assert(digits_val(seq![49u8].take(0)) == 0);
            assert(digits_val(seq![49u8]) == 1);
            assert(spec_parse_i64(b) == Some(-1int));
        },
        FrameView::NullArray => {
            let b = seq![MINUS, 49u8];
            assert(s =~= seq![STAR] + b + crlf() + rest);
            assert forall|k: int| 0 <= k < b.len() implies #[trigger] b[k] != CR by {}
            lemma_no_cr_no_crlf(b);
            lemma_line_framing(STAR, b, rest);
            assert(b.drop_first() =~= seq![49u8]);
            assert(digits_val(seq![49u8].take(0)) == 0);
            assert(digits_val(seq![49u8]) == 1);
            assert(spec_parse_i64(b) == Some(-1int));
        },
        FrameView::BulkString(b) => {
            let hdr = dec_digits(b.len());
            let blen = b.len() as int;
            lemma_dec_digits(b.len());
            lemma_digits_no_crlf(hdr);
            let tail = b + crlf() + rest;
            assert(s =~= seq![DOLLAR] + hdr + crlf() + tail);
            lemma_line_framing(DOLLAR, hdr, tail);
            lemma_parse_bare_numeral(b.len());
            let hlen = 1 + hdr.len() as int + 2;
            assert(s.len() == hlen + blen + 2 + rest.len());
            assert(s.subrange(hlen, hlen + blen) =~= b);
            assert(s[hlen + blen] == CR);
            assert(s[hlen + blen + 1] == LF);
            assert(spec_encode(v).len() == hlen + blen + 2);
        },
        FrameView::Arrays(es) => {
            let hdr = dec_digits(es.len());
            lemma_dec_digits(es.len());
            lemma_digits_no_crlf(hdr);
            let tail = spec_encode_list(es) + rest;
            assert(s =~= seq![STAR] + hdr + crlf() + tail);
            lemma_line_framing(STAR, hdr, tail);
            lemma_parse_bare_numeral(es.len());
            let hlen = 1 + hdr.len() as int + 2;
            assert(s.skip(hlen) =~= tail);
            lemma_parse_encode_list(es, rest);
            assert(spec_encode(v).len() == hlen + spec_encode_list(es).len());
        },
        FrameView::SetFrame(es) => {
            let hdr = dec_digits(es.len());
            lemma_dec_digits(es.len());
            lemma_digits_no_crlf(hdr);
            let tail = spec_encode_list(es) + rest;
            assert(s =~= seq![TILDE] + hdr + crlf() + tail);
            lemma_line_framing(TILDE, hdr, tail);
            lemma_parse_bare_numeral(es.len());
            let hlen = 1 + hdr.len() as int + 2;
            assert(s.skip(hlen) =~= tail);
            lemma_parse_encode_list(es, rest);
            assert(spec_encode(v).len() == hlen + spec_encode_list(es).len());
        },
        FrameView::MapFrame(ps) => {
            let hdr = dec_digits(ps.len());
            lemma_dec_digits(ps.len());
            lemma_digits_no_crlf(hdr);
            let tail = spec_encode_pairs(ps) + rest;
            assert(s =~= seq![PERCENT] + hdr + crlf() + tail);
            lemma_line_framing(PERCENT, hdr, tail);
            lemma_parse_bare_numeral(ps.len());
            let hlen = 1 + hdr.len() as int + 2;
            assert(s.skip(hlen) =~= tail);
            lemma_parse_encode_pairs(ps, rest);
            assert(spec_encode(v).len() == hlen + spec_encode_pairs(ps).len());
        },
    }
}

/// Round trip for a run of frames, with any suffix behind their encodings.
proof fn lemma_parse_encode_list(es: Seq<FrameView>, rest: Seq<u8>)
    requires
        forall|i: int| 0 <= i < es.len() ==> frame_wf(#[trigger] es[i]),
    ensures
        spec_parse_list(spec_encode_list(es) + rest, es.len()) == Ok::<
            (Seq<FrameView>, int),
            RespError,
        >((es, spec_encode_list(es).len() as int)),
    decreases es, 1int,
{
    let s = spec_encode_list(es) + rest;
    if es.len() == 0 {
        assert(es =~= Seq::<FrameView>::empty());
        assert(spec_encode_list(es).len() == 0);
    } else {
        let head = es[0];
        let tail = es.drop_first();
        let enc0 = spec_encode(head);
        let tailrest = spec_encode_list(tail) + rest;
        assert(s =~= enc0 + tailrest);
        lemma_parse_encode(head, tailrest);
        lemma_encode_len(head);
        assert(s.len() == enc0.len() + tailrest.len());
        assert(s.skip(enc0.len() as int) =~= tailrest);
        assert forall|i: int| 0 <= i < tail.len() implies frame_wf(#[trigger] tail[i]) by {
            assert(tail[i] == es[i + 1]);
        }
        lemma_parse_encode_list(tail, rest);
        assert(seq![head] + tail =~= es);
        assert(spec_encode_list(es).len() == enc0.len() + spec_encode_list(tail).len());
    }
}

/// Round trip for a run of map entries, with any suffix behind them.
proof fn lemma_parse_encode_pairs(ps: Seq<(Seq<u8>, FrameView)>, rest: Seq<u8>)
    requires
        forall|i: int|
            0 <= i < ps.len() ==> line_text_ok((#[trigger] ps[i]).0) && frame_wf(ps[i].1),
    ensures
        spec_parse_pairs(spec_encode_pairs(ps) + rest, ps.len()) == Ok::<
            (Seq<(Seq<u8>, FrameView)>, int),
            RespError,
        >((ps, spec_encode_pairs(ps).len() as int)),
    decreases ps, 1int,
{
    let s = spec_encode_pairs(ps) + rest;
    if ps.len() == 0 {
        assert(ps =~= Seq::<(Seq<u8>, FrameView)>::empty());
        assert(spec_encode_pairs(ps).len() == 0);
    } else {
        let kb = ps[0].0;
        let vf = ps[0].1;
        let tail = ps.drop_first();
        let kenc = seq![PLUS] + kb + crlf();
        let venc = spec_encode(vf);
        let afterkey = venc + (spec_encode_pairs(tail) + rest);
        assert(s =~= kenc + afterkey);
        assert(kenc + afterkey =~= seq![PLUS] + kb + crlf() + afterkey);
        lemma_line_framing(PLUS, kb, afterkey);
        assert(spec_parse(s) == Ok::<(FrameView, int), RespError>(
            (FrameView::SimpleString(kb), kb.len() as int + 3),
        ));
        let k = kb.len() as int + 3;
        assert(s.skip(k) =~= afterkey);
        lemma_parse_encode(vf, spec_encode_pairs(tail) + rest);
        lemma_encode_len(vf);
        let k2 = venc.len() as int;
        assert(s.skip(k).skip(k2) =~= spec_encode_pairs(tail) + rest);
        assert forall|i: int|
            0 <= i < tail.len() implies line_text_ok((#[trigger] tail[i]).0) && frame_wf(
            tail[i].1,
        ) by {
            assert(tail[i] == ps[i + 1]);
        }
        lemma_parse_encode_pairs(tail, rest);
        assert(seq![(kb, vf)] + tail =~= ps);
        assert(spec_encode_pairs(ps).len() == k + k2 + spec_encode_pairs(tail).len());
    }
}

/// Round-trip law: the encoding of any well-formed frame decodes back to
/// exactly that frame, consuming exactly the encoding's length.
pub proof fn lemma_round_trip(v: FrameView)
    requires
        frame_wf(v),
    ensures
        spec_parse(spec_encode(v)) == Ok::<(FrameView, int), RespError>(
            (v, spec_encode(v).len() as int),
        ),
{
    assert(spec_encode(v) + Seq::<u8>::empty() =~= spec_encode(v));
    lemma_parse_encode(v, Seq::empty());
}


// -------------------------------------------------------- partial buffer

/// In any prefix that ends before a line frame's terminator, no CRLF pair
/// is found.
proof fn lemma_crlf_prefix_none(b: Seq<u8>, u: Seq<u8>, w: Seq<u8>)
    requires
        !contains_crlf(b),
        forall|i: int| 0 <= i < b.len() ==> u[i] == b[i],
        b.len() < u.len() ==> u[b.len() as int] == CR,
        w.len() <= b.len() + 1,
        w.len() <= u.len(),
        forall|i: int| 0 <= i < w.len() ==> w[i] == u[i],
    ensures
        crlf_pos(w) == None::<int>,
{
    assert forall|i: int| 0 <= i && i + 1 < w.len() implies !(w[i] == CR && #[trigger] w[i + 1]
        == LF) by {
        if i + 1 < b.len() {
            if w[i] == CR && w[i + 1] == LF {
                assert(b[i] == CR && b[i + 1] == LF);
                assert(contains_crlf(b));
            }
        } else {
            assert(i + 1 == b.len());
            assert(w[i + 1] == CR);
        }
    }
    lemma_crlf_pos_none(w);
}

/// In any prefix that reaches past a line frame's terminator, the first
/// CRLF pair is found exactly at the end of the body.
proof fn lemma_crlf_prefix_found(b: Seq<u8>, u: Seq<u8>, w: Seq<u8>)
    requires
        !contains_crlf(b),
        u.len() >= b.len() + 2,
        forall|i: int| 0 <= i < b.len() ==> u[i] == b[i],
        u[b.len() as int] == CR,
        u[b.len() as int + 1] == LF,
        b.len() + 2 <= w.len() <= u.len(),
        forall|i: int| 0 <= i < w.len() ==> w[i] == u[i],
    ensures
        crlf_pos(w) == Some(b.len() as int),
{
    assert(w[b.len() as int] == CR);
    assert(w[b.len() as int + 1] == LF);
    assert forall|i: int| 0 <= i < b.len() implies !(w[i] == CR && #[trigger] w[i + 1] == LF) by {
        if i + 1 < b.len() {
            if w[i] == CR && w[i + 1] == LF {
                assert(b[i] == CR && b[i + 1] == LF);
                assert(contains_crlf(b));
            }
        } else {
            assert(i + 1 == b.len());
            assert(w[i + 1] == CR);
        }
    }
    lemma_crlf_pos_found(w, b.len() as int);
}

/// The body that the encoding of `v` frames between its tag and its first
/// terminator, for the variants framed as a single line.
proof fn lemma_line_body(v: FrameView) -> (b: Seq<u8>)
    requires
        frame_wf(v),
        !(v is BulkString) && !(v is Arrays) && !(v is MapFrame) && !(v is SetFrame),
    ensures
        !contains_crlf(b),
        spec_encode(v) == seq![spec_encode(v)[0]] + b + crlf(),
{
    match v {
        FrameView::SimpleString(t) => {
            assert(spec_encode(v) =~= seq![spec_encode(v)[0]] + t + crlf());
            t
        },
        FrameView::Error(t) => {
            assert(spec_encode(v) =~= seq![spec_encode(v)[0]] + t + crlf());
            t
        },
        FrameView::Integer(i) => {
            let b = if i >= 0 {
                seq![PLUS] + dec_digits(i as nat)
            } else {
                seq![MINUS] + dec_digits((-i) as nat)
            };
            if i >= 0 {
                lemma_dec_digits(i as nat);
            } else {
                lemma_dec_digits((-i) as nat);
            }
            assert forall|k: int| 0 <= k < b.len() implies #[trigger] b[k] != CR by {
                if k > 0 {
                    assert(is_digit(b[k]));
                }
            }
            lemma_no_cr_no_crlf(b);
            assert(spec_encode(v) =~= seq![spec_encode(v)[0]] + b + crlf());
            b
        },
        FrameView::Boolean(t) => {
            let b = if t {
                seq![LETTER_T]
            } else {
                seq![LETTER_F]
            };
            assert(forall|k: int| 0 <= k < b.len() ==> #[trigger] b[k] != CR);
            lemma_no_cr_no_crlf(b);
            assert(spec_encode(v) =~= seq![spec_encode(v)[0]] + b + crlf());
            b
        },
        FrameView::Double(d) => {
            lemma_double_no_crlf(d);
            assert(spec_encode(v) =~= seq![spec_encode(v)[0]] + d + crlf());
            d
        },
        FrameView::Null => {
            let b = Seq::<u8>::empty();
            lemma_no_cr_no_crlf(b);
            assert(spec_encode(v) =~= seq![spec_encode(v)[0]] + b + crlf());
            b
        },
        FrameView::NullBulkString => {
            let b = seq![MINUS, 49u8];
            assert(forall|k: int| 0 <= k < b.len() ==> #[trigger] b[k] != CR);
            lemma_no_cr_no_crlf(b);
            assert(spec_encode(v) =~= seq![spec_encode(v)[0]] + b + crlf());
            b
        },
        FrameView::NullArray => {
            let b = seq![MINUS, 49u8];
            assert(forall|k: int| 0 <= k < b.len() ==> #[trigger] b[k] != CR);
            lemma_no_cr_no_crlf(b);
            assert(spec_encode(v) =~= seq![spec_encode(v)[0]] + b + crlf());
            b
        },
        _ => Seq::empty(),
    }
}

/// Partial-buffer law for one frame: every strict prefix of a well-formed
/// frame's encoding parses to `NotComplete`.
pub proof fn lemma_parse_prefix(v: FrameView, m: int)
    requires
        frame_wf(v),
        0 <= m < spec_encode(v).len(),
    ensures
        spec_parse(spec_encode(v).take(m)) == Err::<(FrameView, int), RespError>(
            RespError::NotComplete,
        ),
    decreases v, 0int,
{
    let enc = spec_encode(v);
    let q = enc.take(m);
    if m == 0 {
        assert(q.len() == 0);
    } else {
        assert(q[0] == enc[0]);
        match v {
            FrameView::BulkString(b) => {
                let hdr = dec_digits(b.len());
                lemma_dec_digits(b.len());
                lemma_digits_no_crlf(hdr);
                let hlen = 3 + hdr.len() as int;
                let u = enc.skip(1);
                let w = q.skip(1);
                assert(forall|i: int| 0 <= i < w.len() ==> w[i] == u[i]);
                assert(forall|i: int| 0 <= i < hdr.len() ==> u[i] == hdr[i]);
                assert(u[hdr.len() as int] == CR);
                assert(u[hdr.len() as int + 1] == LF);
                if m < hlen {
                    lemma_crlf_prefix_none(hdr, u, w);
                } else {
                    lemma_crlf_prefix_found(hdr, u, w);
                    assert(w.take(hdr.len() as int) =~= hdr);
                    lemma_parse_bare_numeral(b.len());
                    assert(q.len() < hlen + b.len() + 2);
                }
            },
            FrameView::Arrays(es) => {
                lemma_parse_prefix_sized(STAR, es, m);
                assert(q =~= (seq![STAR] + dec_digits(es.len()) + crlf() + spec_encode_list(
                    es,
                )).take(m));
            },
            FrameView::SetFrame(es) => {
                lemma_parse_prefix_sized(TILDE, es, m);
                assert(q =~= (seq![TILDE] + dec_digits(es.len()) + crlf() + spec_encode_list(
                    es,
                )).take(m));
            },
            FrameView::MapFrame(ps) => {
                let hdr = dec_digits(ps.len());
                lemma_dec_digits(ps.len());
                lemma_digits_no_crlf(hdr);
                let hlen = 3 + hdr.len() as int;
                let u = enc.skip(1);
                let w = q.skip(1);
                assert(forall|i: int| 0 <= i < w.len() ==> w[i] == u[i]);
                assert(forall|i: int| 0 <= i < hdr.len() ==> u[i] == hdr[i]);
                assert(u[hdr.len() as int] == CR);
                assert(u[hdr.len() as int + 1] == LF);
                if m < hlen {
                    lemma_crlf_prefix_none(hdr, u, w);
                } else {
                    lemma_crlf_prefix_found(hdr, u, w);
                    assert(w.take(hdr.len() as int) =~= hdr);
                    lemma_parse_bare_numeral(ps.len());
                    assert(q.skip(hlen) =~= spec_encode_pairs(ps).take(m - hlen));
                    lemma_parse_prefix_pairs(ps, m - hlen);
                }
            },
            _ => {
                let b = lemma_line_body(v);
                let u = enc.skip(1);
                let w = q.skip(1);
                assert(forall|i: int| 0 <= i < w.len() ==> w[i] == u[i]);
                assert(forall|i: int| 0 <= i < b.len() ==> u[i] == b[i]);
                assert(b.len() < u.len() ==> u[b.len() as int] == CR);
                assert(w.len() <= b.len() + 1);
                lemma_crlf_prefix_none(b, u, w);
            },
        }
    }
}

/// Partial-buffer law for the count-prefixed list variants.
proof fn lemma_parse_prefix_sized(tag: u8, es: Seq<FrameView>, m: int)
    requires
        tag == STAR || tag == TILDE,
        es.len() <= i64::MAX,
        forall|i: int| 0 <= i < es.len() ==> frame_wf(#[trigger] es[i]),
        0 < m < (seq![tag] + dec_digits(es.len()) + crlf() + spec_encode_list(es)).len(),
    ensures
        spec_parse((seq![tag] + dec_digits(es.len()) + crlf() + spec_encode_list(es)).take(m))
            == Err::<(FrameView, int), RespError>(RespError::NotComplete),
    decreases es, 2int,
{
    let enc = seq![tag] + dec_digits(es.len()) + crlf() + spec_encode_list(es);
    let q = enc.take(m);
    assert(q[0] == tag);
    let hdr = dec_digits(es.len());
    lemma_dec_digits(es.len());
    lemma_digits_no_crlf(hdr);
    let hlen = 3 + hdr.len() as int;
    let u = enc.skip(1);
    let w = q.skip(1);
    assert(forall|i: int| 0 <= i < w.len() ==> w[i] == u[i]);
    assert(forall|i: int| 0 <= i < hdr.len() ==> u[i] == hdr[i]);
    assert(u[hdr.len() as int] == CR);
    assert(u[hdr.len() as int + 1] == LF);
    if m < hlen {
        lemma_crlf_prefix_none(hdr, u, w);
    } else {
        lemma_crlf_prefix_found(hdr, u, w);
        assert(w.take(hdr.len() as int) =~= hdr);
        lemma_parse_bare_numeral(es.len());
        assert(q.skip(hlen) =~= spec_encode_list(es).take(m - hlen));
        lemma_parse_prefix_list(es, m - hlen);
    }
}

/// Partial-buffer law for a run of frames.
proof fn lemma_parse_prefix_list(es: Seq<FrameView>, m: int)
    requires
        forall|i: int| 0 <= i < es.len() ==> frame_wf(#[trigger] es[i]),
        0 <= m < spec_encode_list(es).len(),
    ensures
        spec_parse_list(spec_encode_list(es).take(m), es.len()) == Err::<
            (Seq<FrameView>, int),
            RespError,
        >(RespError::NotComplete),
    decreases es, 1int,
{
    let q = spec_encode_list(es).take(m);
    assert(es.len() > 0) by {
        if es.len() == 0 {
            assert(spec_encode_list(es).len() == 0);
        }
    }
    let head = es[0];
    let tail = es.drop_first();
    let enc0 = spec_encode(head);
    assert forall|i: int| 0 <= i < tail.len() implies frame_wf(#[trigger] tail[i]) by {
        assert(tail[i] == es[i + 1]);
    }
    assert(spec_encode_list(es) == enc0 + spec_encode_list(tail));
    if m < enc0.len() {
        assert(q =~= enc0.take(m));
        lemma_parse_prefix(head, m);
    } else {
        let mrest = m - enc0.len() as int;
        assert(q =~= enc0 + spec_encode_list(tail).take(mrest));
        lemma_parse_encode(head, spec_encode_list(tail).take(mrest));
        lemma_encode_len(head);
        assert(q.skip(enc0.len() as int) =~= spec_encode_list(tail).take(mrest));
        lemma_parse_prefix_list(tail, mrest);
    }
}

/// Partial-buffer law for a run of map entries, cut inside the first
/// entry's key frame.
#[verifier::spinoff_prover]
proof fn lemma_parse_prefix_pairs_key(ps: Seq<(Seq<u8>, FrameView)>, m: int)
    requires
        ps.len() > 0,
        forall|i: int|
            0 <= i < ps.len() ==> line_text_ok((#[trigger] ps[i]).0) && frame_wf(ps[i].1),
        0 <= m < ps[0].0.len() + 3,
        m <= spec_encode_pairs(ps).len(),
    ensures
        spec_parse_pairs(spec_encode_pairs(ps).take(m), ps.len()) == Err::<
            (Seq<(Seq<u8>, FrameView)>, int),
            RespError,
        >(RespError::NotComplete),
{
    let q = spec_encode_pairs(ps).take(m);
    let kb = ps[0].0;
    let vf = ps[0].1;
    let tail = ps.drop_first();
    let venc = spec_encode(vf);
    assert(spec_encode_pairs(ps) == seq![PLUS] + kb + crlf() + venc + spec_encode_pairs(tail));
    if m > 0 {
        assert(q[0] == PLUS);
        let u = kb + crlf() + venc + spec_encode_pairs(tail);
        let w = q.skip(1);
        assert(forall|i: int| 0 <= i < w.len() ==> w[i] == u[i]);
        assert(forall|i: int| 0 <= i < kb.len() ==> u[i] == kb[i]);
        assert(kb.len() < u.len() ==> u[kb.len() as int] == CR);
        assert(w.len() <= kb.len() + 1);
        lemma_crlf_prefix_none(kb, u, w);
        assert(spec_parse(q) == Err::<(FrameView, int), RespError>(RespError::NotComplete));
    } else {
        assert(q.len() == 0);
        assert(spec_parse(q) == Err::<(FrameView, int), RespError>(RespError::NotComplete));
    }
}

/// Partial-buffer law for a run of map entries, cut at or after the first
/// entry's value frame.
#[verifier::rlimit(100)]
#[verifier::spinoff_prover]
proof fn lemma_parse_prefix_pairs_value(ps: Seq<(Seq<u8>, FrameView)>, m: int)
    requires
        ps.len() > 0,
        forall|i: int|
            0 <= i < ps.len() ==> line_text_ok((#[trigger] ps[i]).0) && frame_wf(ps[i].1),
        ps[0].0.len() + 3 <= m < spec_encode_pairs(ps).len(),
    ensures
        spec_parse_pairs(spec_encode_pairs(ps).take(m), ps.len()) == Err::<
            (Seq<(Seq<u8>, FrameView)>, int),
            RespError,
        >(RespError::NotComplete),
    decreases ps, 1int,
{
    let q = spec_encode_pairs(ps).take(m);
    let kb = ps[0].0;
    let vf = ps[0].1;
    let tail = ps.drop_first();
    let venc = spec_encode(vf);
    assert forall|i: int|
        0 <= i < tail.len() implies line_text_ok((#[trigger] tail[i]).0) && frame_wf(
        tail[i].1,
    ) by {
        assert(tail[i] == ps[i + 1]);
    }
    assert(spec_encode_pairs(ps) == seq![PLUS] + kb + crlf() + venc + spec_encode_pairs(tail));
    let klen = kb.len() as int + 3;
    lemma_encode_len(vf);
    if m < klen + venc.len() {
        let mv = m - klen;
        assert(q =~= seq![PLUS] + kb + crlf() + venc.take(mv));
        lemma_line_framing(PLUS, kb, venc.take(mv));
        assert(q.len() > 0 && q[0] == PLUS);
        assert(crlf_pos(q.skip(1)) == Some(kb.len() as int));
        assert(q.skip(1).take(kb.len() as int) == kb);
        assert(spec_parse(q) == Ok::<(FrameView, int), RespError>(
            (FrameView::SimpleString(kb), klen),
        ));
        assert(q.skip(klen) =~= venc.take(mv));
        lemma_parse_prefix(vf, mv);
        assert(spec_parse(q.skip(klen)) == Err::<(FrameView, int), RespError>(
            RespError::NotComplete,
        ));
        assert(spec_parse_pairs(q, ps.len()) == Err::<(Seq<(Seq<u8>, FrameView)>, int),
            RespError>(RespError::NotComplete));
    } else {
        let mrest = m - klen - venc.len() as int;
        assert(q =~= seq![PLUS] + kb + crlf() + (venc + spec_encode_pairs(tail).take(mrest)));
        lemma_line_framing(PLUS, kb, venc + spec_encode_pairs(tail).take(mrest));
        assert(q.skip(klen) =~= venc + spec_encode_pairs(tail).take(mrest));
        lemma_parse_encode(vf, spec_encode_pairs(tail).take(mrest));
        assert(q.skip(klen).skip(venc.len() as int) =~= spec_encode_pairs(tail).take(mrest));
        lemma_parse_prefix_pairs(tail, mrest);
    }
}

/// Partial-buffer law for a run of map entries.
proof fn lemma_parse_prefix_pairs(ps: Seq<(Seq<u8>, FrameView)>, m: int)
    requires
        forall|i: int|
            0 <= i < ps.len() ==> line_text_ok((#[trigger] ps[i]).0) && frame_wf(ps[i].1),
        0 <= m < spec_encode_pairs(ps).len(),
    ensures
        spec_parse_pairs(spec_encode_pairs(ps).take(m), ps.len()) == Err::<
            (Seq<(Seq<u8>, FrameView)>, int),
            RespError,
        >(RespError::NotComplete),
    decreases ps, 2int,
{
    assert(ps.len() > 0) by {
        if ps.len() == 0 {
            assert(spec_encode_pairs(ps).len() == 0);
        }
    }
    if m < ps[0].0.len() + 3 {
        lemma_parse_prefix_pairs_key(ps, m);
    } else {
        lemma_parse_prefix_pairs_value(ps, m);
    }
}

/// Partial-buffer law: a buffer holding any strict prefix of a well-formed
/// frame's encoding decodes to `NotComplete`; once the remaining suffix is
/// appended, decoding succeeds and consumes exactly the whole encoding.
pub proof fn lemma_partial_buffer(v: FrameView, m: int)
    requires
        frame_wf(v),
        0 <= m < spec_encode(v).len(),
    ensures
        spec_parse(spec_encode(v).take(m)) == Err::<(FrameView, int), RespError>(
            RespError::NotComplete,
        ),
        spec_parse(spec_encode(v).take(m) + spec_encode(v).skip(m)) == Ok::<
            (FrameView, int),
            RespError,
        >((v, spec_encode(v).len() as int)),
{
    lemma_parse_prefix(v, m);
    assert(spec_encode(v).take(m) + spec_encode(v).skip(m) =~= spec_encode(v));
    lemma_round_trip(v);
}

/// Nested aggregate atomicity: a truncated encoding of an array decodes to
/// `NotComplete` as a whole, wherever the cut falls, so no partially
/// decoded element is ever surfaced.
pub proof fn lemma_nested_atomicity(es: Seq<FrameView>, m: int)
    requires
        frame_wf(FrameView::Arrays(es)),
        0 <= m < spec_encode(FrameView::Arrays(es)).len(),
    ensures
        spec_parse(spec_encode(FrameView::Arrays(es)).take(m)) == Err::<
            (FrameView, int),
            RespError,
        >(RespError::NotComplete),
{
    lemma_parse_prefix(FrameView::Arrays(es), m);
}


// ------------------------------------------------- expected length agrees

/// On a buffer holding a complete frame, the header scan names exactly the
/// bytes the parser consumes.
pub proof fn lemma_expect_agrees(s: Seq<u8>)
    ensures
        match spec_parse(s) {
            Ok((f, k)) => spec_expect(s) == Ok::<int, RespError>(k),
            Err(_) => true,
        },
    decreases s.len(), 0int,
{
    if s.len() > 0 {
        let tag = s[0];
        crate::decode::lemma_crlf_pos_char(s.skip(1));
        if tag == DOLLAR || tag == STAR || tag == PERCENT || tag == TILDE {
            if let Some(p) = crlf_pos(s.skip(1)) {
                let hlen = 1 + p + 2;
                match spec_parse_i64(s.skip(1).take(p)) {
                    None => {},
                    Some(v) => {
                        if v >= 0 && tag == PERCENT {
                            lemma_expect_agrees_pairs(s.skip(hlen), v as nat);
                        } else if v >= 0 && (tag == STAR || tag == TILDE) {
                            lemma_expect_agrees_list(s.skip(hlen), v as nat);
                        }
                    },
                }
            }
        }
    }
}

/// The header scan of `n` consecutive frames agrees with their parse.
proof fn lemma_expect_agrees_list(s: Seq<u8>, n: nat)
    ensures
        match spec_parse_list(s, n) {
            Ok((fs, c)) => spec_expect_n(s, n) == Ok::<int, RespError>(c),
            Err(_) => true,
        },
    decreases s.len(), n + 1,
{
    if n > 0 {
        match spec_parse(s) {
            Err(_) => {},
            Ok((f, k)) => {
                lemma_expect_agrees(s);
                if 1 <= k <= s.len() {
                    lemma_expect_agrees_list(s.skip(k), (n - 1) as nat);
                }
            },
        }
    }
}

/// The header scan of `n` key-value entries agrees with their parse: each
/// entry is two frames.
proof fn lemma_expect_agrees_pairs(s: Seq<u8>, n: nat)
    ensures
        match spec_parse_pairs(s, n) {
            Ok((ps, c)) => spec_expect_n(s, 2 * n) == Ok::<int, RespError>(c),
            Err(_) => true,
        },
    decreases s.len(), n + 1,
{
    if n > 0 {
        match spec_parse(s) {
            Err(_) => {},
            Ok((kf, k)) => {
                lemma_expect_agrees(s);
                if 1 <= k <= s.len() {
                    match kf {
                        FrameView::SimpleString(_) => {
                            match spec_parse(s.skip(k)) {
                                Err(_) => {},
                                Ok((vf, k2)) => {
                                    lemma_expect_agrees(s.skip(k));
                                    if 1 <= k2 <= s.len() - k {
                                        lemma_expect_agrees_pairs(
                                            s.skip(k).skip(k2),
                                            (n - 1) as nat,
                                        );
                                        match spec_parse_pairs(s, n) {
                                            Err(_) => {},
                                            Ok((ps, c)) => {
                                                assert(2 * n - 2 == 2 * ((n - 1) as nat));
                                                assert(s.skip(k).len() == s.len() - k);
                                                assert(spec_expect_n(s.skip(k), (2 * n - 1) as nat)
                                                    == Ok::<int, RespError>(c - k));
                                                assert(spec_expect_n(s, 2 * n) == Ok::<
                                                    int,
                                                    RespError,
                                                >(c));
                                            },
                                        }
                                    }
                                },
                            }
                        },
                        _ => {},
                    }
                }
            },
        }
    }
}

} // verus!
