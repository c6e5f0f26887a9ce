//! The encoder: one deterministic, infallible wire form per frame variant.
//! `spec_encode` is the byte-exact statement of the format; every executable
//! encoder is proved to produce exactly that sequence.

use vstd::prelude::*;
use crate::frame::{
    BulkString, CR, Double, FrameView, LF, RespArray, RespFrame, RespMap, RespNull, RespNullArray,
    RespNullBulkString, RespSet, SimpleError, SimpleString, frame_view, frames_view,
    frames_view_index, pairs_view, pairs_view_index,
};

use crate::num::{dec_digits, fmt_u64};

verus! {

broadcast use vstd::std_specs::vec::group_vec_axioms, vstd::seq::group_seq_axioms;

// The tag and sign bytes of the wire format, by their ASCII names.
pub const PLUS: u8 = 43;
pub const MINUS: u8 = 45;
pub const COLON: u8 = 58;
pub const DOLLAR: u8 = 36;
pub const STAR: u8 = 42;
pub const UNDERSCORE: u8 = 95;
pub const HASH: u8 = 35;
pub const COMMA: u8 = 44;
pub const PERCENT: u8 = 37;
pub const TILDE: u8 = 126;
pub const LETTER_T: u8 = 116;
pub const LETTER_F: u8 = 102;
pub const DIGIT_ONE: u8 = 49;

/// The two-byte frame terminator.
pub open spec fn crlf() -> Seq<u8> {
    seq![CR, LF]
}

/// The wire form of a frame: tag byte, payload, CRLF framing. Integers
/// carry an explicit `+` when not negative; doubles carry their rendered
/// numeral unchanged; aggregates declare their element count and then
/// concatenate the elements' encodings; map keys are framed as simple
/// strings in the order they stand in.
pub open spec fn spec_encode(v: FrameView) -> Seq<u8>
    decreases v, 0int,
{
    match v {
        FrameView::SimpleString(s) => seq![PLUS] + s + crlf(),
        FrameView::Error(s) => seq![MINUS] + s + crlf(),
        FrameView::Integer(i) => if i >= 0 {
            seq![COLON, PLUS] + dec_digits(i as nat) + crlf()
        } else {
            seq![COLON, MINUS] + dec_digits((-i) as nat) + crlf()
        },
        FrameView::BulkString(b) => seq![DOLLAR] + dec_digits(b.len()) + crlf() + b + crlf(),
        FrameView::NullBulkString => seq![DOLLAR, MINUS, DIGIT_ONE, CR, LF],
        FrameView::Arrays(es) => seq![STAR] + dec_digits(es.len()) + crlf() + spec_encode_list(es),
        FrameView::Null => seq![UNDERSCORE, CR, LF],
        FrameView::NullArray => seq![STAR, MINUS, DIGIT_ONE, CR, LF],
        FrameView::Boolean(b) => seq![HASH, if b { LETTER_T } else { LETTER_F }, CR, LF],
        FrameView::Double(d) => seq![COMMA] + d + crlf(),
        FrameView::MapFrame(ps) => seq![PERCENT] + dec_digits(ps.len()) + crlf()
            + spec_encode_pairs(ps),
        FrameView::SetFrame(es) => seq![TILDE] + dec_digits(es.len()) + crlf()
            + spec_encode_list(es),
    }
}

/// The concatenated encodings of a sequence of frames, in order.
pub open spec fn spec_encode_list(es: Seq<FrameView>) -> Seq<u8>
    decreases es, 1int,
{
    if es.len() == 0 {
        Seq::empty()
    } else {
        spec_encode(es[0]) + spec_encode_list(es.drop_first())
    }
}

/// The concatenated encodings of a sequence of map entries: each key framed
/// as a simple string, followed by its value's encoding.
pub open spec fn spec_encode_pairs(ps: Seq<(Seq<u8>, FrameView)>) -> Seq<u8>
    decreases ps, 1int,
{
    if ps.len() == 0 {
        Seq::empty()
    } else {
        seq![PLUS] + ps[0].0 + crlf() + spec_encode(ps[0].1) + spec_encode_pairs(ps.drop_first())
    }
}

/// Encoding a list element by element: one more element appends its encoding.
pub proof fn lemma_encode_list_snoc(es: Seq<FrameView>, i: int)
    requires
        0 <= i < es.len(),
    ensures
        spec_encode_list(es.take(i + 1)) == spec_encode_list(es.take(i)) + spec_encode(es[i]),
    decreases i,
{
    if i == 0 {
        assert(es.take(1) =~= seq![es[0]]);
        assert(es.take(1).drop_first() =~= Seq::<FrameView>::empty());
        assert(es.take(1)[0] == es[0]);
        assert(spec_encode_list(Seq::<FrameView>::empty()) == Seq::<u8>::empty());
        assert(spec_encode_list(es.take(1)) =~= spec_encode_list(es.take(0)) + spec_encode(es[0]));
    } else {
        lemma_encode_list_snoc(es.drop_first(), i - 1);
        assert(es.take(i + 1).drop_first() =~= es.drop_first().take(i));
        assert(es.take(i).drop_first() =~= es.drop_first().take(i - 1));
        assert(es.take(i + 1)[0] == es[0]);
        assert(es.take(i)[0] == es[0]);
        assert(es.drop_first()[i - 1] == es[i]);
        assert(spec_encode(es[0]) + (spec_encode_list(es.drop_first().take(i - 1)) + spec_encode(
            es[i],
        )) =~= (spec_encode(es[0]) + spec_encode_list(es.drop_first().take(i - 1))) + spec_encode(
            es[i],
        ));
    }
}

/// Encoding map entries one by one: one more entry appends its framed key
/// and its value's encoding.
pub proof fn lemma_encode_pairs_snoc(ps: Seq<(Seq<u8>, FrameView)>, i: int)
    requires
        0 <= i < ps.len(),
    ensures
        spec_encode_pairs(ps.take(i + 1)) == spec_encode_pairs(ps.take(i)) + (seq![PLUS] + ps[i].0
            + crlf() + spec_encode(ps[i].1)),
    decreases i,
{
    if i == 0 {
        assert(ps.take(1) =~= seq![ps[0]]);
        assert(ps.take(1).drop_first() =~= Seq::<(Seq<u8>, FrameView)>::empty());
        assert(ps.take(1)[0] == ps[0]);
        assert(spec_encode_pairs(Seq::<(Seq<u8>, FrameView)>::empty()) == Seq::<u8>::empty());
        assert(spec_encode_pairs(ps.take(1)) =~= spec_encode_pairs(ps.take(0)) + (seq![PLUS]
            + ps[0].0 + crlf() + spec_encode(ps[0].1)));
    } else {
        lemma_encode_pairs_snoc(ps.drop_first(), i - 1);
        assert(ps.take(i + 1).drop_first() =~= ps.drop_first().take(i));
        assert(ps.take(i).drop_first() =~= ps.drop_first().take(i - 1));
        assert(ps.take(i + 1)[0] == ps[0]);
        assert(ps.take(i)[0] == ps[0]);
        assert(ps.drop_first()[i - 1] == ps[i]);
        assert(spec_encode_pairs(ps.take(i + 1)) =~= spec_encode_pairs(ps.take(i)) + (seq![PLUS]
            + ps[i].0 + crlf() + spec_encode(ps[i].1)));
    }
}

/// Appends all bytes of `s` to `out`.
fn push_bytes(out: &mut Vec<u8>, s: &Vec<u8>)
    ensures
        final(out)@ == old(out)@ + s@,
{
    let n = s.len();
    let mut i: usize = 0;
    while i < n
        invariant
            i <= n,
            n == s@.len(),
            out@ == old(out)@ + s@.take(i as int),
        decreases n - i,
    {
        out.push(s[i]);
        proof {
            assert(out@ =~= old(out)@ + s@.take(i as int + 1));
        }
        i += 1;
    }
    proof {
        assert(s@.take(n as int) =~= s@);
    }
}

/// Appends the terminator to `out`.
fn push_crlf(out: &mut Vec<u8>)
    ensures
        final(out)@ == old(out)@ + crlf(),
{
    out.push(CR);
    out.push(LF);
    proof {
        assert(out@ =~= old(out)@ + crlf());
    }
}

/// Appends the wire form of a line frame: tag, text, terminator.
fn encode_line_into(tag: u8, text: &Vec<u8>, out: &mut Vec<u8>)
    ensures
        final(out)@ == old(out)@ + seq![tag] + text@ + crlf(),
{
    out.push(tag);
    push_bytes(out, text);
    push_crlf(out);
    proof {
        assert(out@ =~= old(out)@ + seq![tag] + text@ + crlf());
    }
}

/// Appends the wire form of an integer frame: explicit sign, then the
/// decimal digits of the magnitude.
fn encode_int_into(v: i64, out: &mut Vec<u8>)
    ensures
        final(out)@ == old(out)@ + spec_encode(FrameView::Integer(v as int)),
{
    out.push(COLON);
    if v >= 0 {
        out.push(PLUS);
        let d = fmt_u64(v as u64);
        push_bytes(out, &d);
    } else {
        out.push(MINUS);
        let m: u64 = (-(v as i128)) as u64;
        let d = fmt_u64(m);
        push_bytes(out, &d);
    }
    push_crlf(out);
    proof {
        assert(out@ =~= old(out)@ + spec_encode(FrameView::Integer(v as int)));
    }
}

/// Appends the wire form of a boolean frame.
fn encode_bool_into(v: bool, out: &mut Vec<u8>)
    ensures
        final(out)@ == old(out)@ + spec_encode(FrameView::Boolean(v)),
{
    out.push(HASH);
    out.push(if v { LETTER_T } else { LETTER_F });
    out.push(CR);
    out.push(LF);
    proof {
        assert(out@ =~= old(out)@ + spec_encode(FrameView::Boolean(v)));
    }
}

/// Appends a count header: tag, decimal count, terminator.
fn encode_count_into(tag: u8, n: usize, out: &mut Vec<u8>)
    ensures
        final(out)@ == old(out)@ + seq![tag] + dec_digits(n as nat) + crlf(),
{
    out.push(tag);
    let d = fmt_u64(n as u64);
    push_bytes(out, &d);
    push_crlf(out);
    proof {
        assert(out@ =~= old(out)@ + seq![tag] + dec_digits(n as nat) + crlf());
    }
}

/// Appends the wire form of a bulk string: declared byte length, then the
/// raw bytes, then the terminator.
fn encode_bulk_into(b: &BulkString, out: &mut Vec<u8>)
    ensures
        final(out)@ == old(out)@ + spec_encode(FrameView::BulkString(b.0@)),
{
    encode_count_into(DOLLAR, b.0.len(), out);
    push_bytes(out, &b.0);
    push_crlf(out);
    proof {
        assert(out@ =~= old(out)@ + spec_encode(FrameView::BulkString(b.0@)));
    }
}

/// Appends the wire form of an array: element count, then each element's
/// encoding in order.
fn encode_array_into(a: &RespArray, out: &mut Vec<u8>)
    ensures
        final(out)@ == old(out)@ + spec_encode(frame_view(RespFrame::Arrays(*a))),
    decreases *a,
{
    encode_count_into(STAR, a.0.len(), out);
    encode_elems_into(&a.0, out);
    proof {
        frames_view_index(a.0@);
        assert(out@ =~= old(out)@ + spec_encode(frame_view(RespFrame::Arrays(*a))));
    }
}

/// Appends the wire form of a set: element count, then each element's
/// encoding in order.
fn encode_set_into(s: &RespSet, out: &mut Vec<u8>)
    ensures
        final(out)@ == old(out)@ + spec_encode(frame_view(RespFrame::SetFrame(*s))),
    decreases *s,
{
    encode_count_into(TILDE, s.0.len(), out);
    encode_elems_into(&s.0, out);
    proof {
        frames_view_index(s.0@);
        assert(out@ =~= old(out)@ + spec_encode(frame_view(RespFrame::SetFrame(*s))));
    }
}

/// Appends the encodings of all frames of `v`, in order.
fn encode_elems_into(v: &Vec<RespFrame>, out: &mut Vec<u8>)
    ensures
        final(out)@ == old(out)@ + spec_encode_list(frames_view(v@)),
    decreases *v,
{
    proof {
        frames_view_index(v@);
    }
    let n = v.len();
    let mut i: usize = 0;
    while i < n
        invariant
            i <= n,
            n == v@.len(),
            frames_view(v@).len() == n,
            forall|k: int| 0 <= k < n ==> frames_view(v@)[k] == frame_view(#[trigger] v@[k]),
            out@ == old(out)@ + spec_encode_list(frames_view(v@).take(i as int)),
        decreases n - i,
    {
        encode_frame_into(&v[i], out);
        proof {
            lemma_encode_list_snoc(frames_view(v@), i as int);
        }
        i += 1;
    }
    proof {
        assert(frames_view(v@).take(n as int) =~= frames_view(v@));
    }
}

/// Appends the wire form of a map: entry count, then for each entry the key
/// framed as a simple string and the value's encoding.
fn encode_map_into(m: &RespMap, out: &mut Vec<u8>)
    ensures
        final(out)@ == old(out)@ + spec_encode(frame_view(RespFrame::MapFrame(*m))),
    decreases *m,
{
    proof {
        pairs_view_index(m.0@);
    }
    encode_count_into(PERCENT, m.0.len(), out);
    let n = m.0.len();
    let mut i: usize = 0;
    while i < n
        invariant
            i <= n,
            n == m.0@.len(),
            pairs_view(m.0@).len() == n,
            forall|k: int|
                0 <= k < n ==> pairs_view(m.0@)[k] == ((#[trigger] m.0@[k]).0@, frame_view(
                    m.0@[k].1,
                )),
            out@ == old(out)@ + seq![PERCENT] + dec_digits(n as nat) + crlf() + spec_encode_pairs(
                pairs_view(m.0@).take(i as int),
            ),
        decreases n - i,
    {
        out.push(PLUS);
        push_bytes(out, &m.0[i].0);
        push_crlf(out);
        encode_frame_into(&m.0[i].1, out);
        proof {
            lemma_encode_pairs_snoc(pairs_view(m.0@), i as int);
            assert(out@ =~= old(out)@ + seq![PERCENT] + dec_digits(n as nat) + crlf()
                + spec_encode_pairs(pairs_view(m.0@).take(i as int + 1)));
        }
        i += 1;
    }
    proof {
        assert(pairs_view(m.0@).take(n as int) =~= pairs_view(m.0@));
        assert(out@ =~= old(out)@ + spec_encode(frame_view(RespFrame::MapFrame(*m))));
    }
}

/// Appends the wire form of any frame, dispatching on its variant.
pub fn encode_frame_into(f: &RespFrame, out: &mut Vec<u8>)
    ensures
        final(out)@ == old(out)@ + spec_encode(frame_view(*f)),
    decreases *f,
{
    match f {
        RespFrame::SimpleString(s) => {
            encode_line_into(PLUS, &s.0, out);
            proof {
                assert(out@ =~= old(out)@ + spec_encode(frame_view(*f)));
            }
        },
        RespFrame::Error(e) => {
            encode_line_into(MINUS, &e.0, out);
            proof {
                assert(out@ =~= old(out)@ + spec_encode(frame_view(*f)));
            }
        },
        RespFrame::Integer(i) => {
            encode_int_into(*i, out);
        },
        RespFrame::BulkString(b) => {
            encode_bulk_into(b, out);
        },
        RespFrame::NullBulkString(_) => {
            out.push(DOLLAR);
            out.push(MINUS);
            out.push(DIGIT_ONE);
            push_crlf(out);
            proof {
                assert(out@ =~= old(out)@ + spec_encode(frame_view(*f)));
            }
        },
        RespFrame::Arrays(a) => {
            encode_array_into(a, out);
        },
        RespFrame::Null(_) => {
            out.push(UNDERSCORE);
            push_crlf(out);
            proof {
                assert(out@ =~= old(out)@ + spec_encode(frame_view(*f)));
            }
        },
        RespFrame::NullArray(_) => {
            out.push(STAR);
            out.push(MINUS);
            out.push(DIGIT_ONE);
            push_crlf(out);
            proof {
                assert(out@ =~= old(out)@ + spec_encode(frame_view(*f)));
            }
        },
        RespFrame::Boolean(b) => {
            encode_bool_into(*b, out);
        },
        RespFrame::Double(d) => {
            encode_line_into(COMMA, &d.0, out);
            proof {
                assert(out@ =~= old(out)@ + spec_encode(frame_view(*f)));
            }
        },
        RespFrame::MapFrame(m) => {
            encode_map_into(m, out);
        },
        RespFrame::SetFrame(s) => {
            encode_set_into(s, out);
        },
    }
}

/// A value with a wire form. `wire` is the byte sequence the value encodes
/// to; `encode` is proved to produce exactly that sequence.
pub trait RespEncode {
    /// The byte sequence this value encodes to.
    spec fn wire(&self) -> Seq<u8>;

    /// Encodes the value into a fresh buffer holding exactly its wire form.
    fn encode(&self) -> (r: Vec<u8>)
        ensures
            r@ == self.wire(),
    ;
}

impl RespEncode for RespFrame {
    open spec fn wire(&self) -> Seq<u8> {
        spec_encode(frame_view(*self))
    }

    fn encode(&self) -> (r: Vec<u8>) {
        let mut out: Vec<u8> = Vec::new();
        encode_frame_into(self, &mut out);
        out
    }
}

impl RespEncode for SimpleString {
    open spec fn wire(&self) -> Seq<u8> {
        spec_encode(FrameView::SimpleString(self.0@))
    }

    fn encode(&self) -> (r: Vec<u8>) {
        let mut out: Vec<u8> = Vec::new();
        encode_line_into(PLUS, &self.0, &mut out);
        proof {
            assert(out@ =~= self.wire());
        }
        out
    }
}

impl RespEncode for SimpleError {
    open spec fn wire(&self) -> Seq<u8> {
        spec_encode(FrameView::Error(self.0@))
    }

    fn encode(&self) -> (r: Vec<u8>) {
        let mut out: Vec<u8> = Vec::new();
        encode_line_into(MINUS, &self.0, &mut out);
        proof {
            assert(out@ =~= self.wire());
        }
        out
    }
}

impl RespEncode for i64 {
    open spec fn wire(&self) -> Seq<u8> {
        spec_encode(FrameView::Integer(*self as int))
    }

    fn encode(&self) -> (r: Vec<u8>) {
        let mut out: Vec<u8> = Vec::new();
        encode_int_into(*self, &mut out);
        out
    }
}

impl RespEncode for bool {
    open spec fn wire(&self) -> Seq<u8> {
        spec_encode(FrameView::Boolean(*self))
    }

    fn encode(&self) -> (r: Vec<u8>) {
        let mut out: Vec<u8> = Vec::new();
        encode_bool_into(*self, &mut out);
        out
    }
}

impl RespEncode for BulkString {
    open spec fn wire(&self) -> Seq<u8> {
        spec_encode(FrameView::BulkString(self.0@))
    }

    fn encode(&self) -> (r: Vec<u8>) {
        let mut out: Vec<u8> = Vec::new();
        encode_bulk_into(self, &mut out);
        out
    }
}

impl RespEncode for Double {
    open spec fn wire(&self) -> Seq<u8> {
        spec_encode(FrameView::Double(self.0@))
    }

    fn encode(&self) -> (r: Vec<u8>) {
        let mut out: Vec<u8> = Vec::new();
        encode_line_into(COMMA, &self.0, &mut out);
        proof {
            assert(out@ =~= self.wire());
        }
        out
    }
}

impl RespEncode for RespNull {
    open spec fn wire(&self) -> Seq<u8> {
        spec_encode(FrameView::Null)
    }

    fn encode(&self) -> (r: Vec<u8>) {
        let mut out: Vec<u8> = Vec::new();
        out.push(UNDERSCORE);
        push_crlf(&mut out);
        proof {
            assert(out@ =~= self.wire());
        }
        out
    }
}

impl RespEncode for RespNullArray {
    open spec fn wire(&self) -> Seq<u8> {
        spec_encode(FrameView::NullArray)
    }

    fn encode(&self) -> (r: Vec<u8>) {
        let mut out: Vec<u8> = Vec::new();
        out.push(STAR);
        out.push(MINUS);
        out.push(DIGIT_ONE);
        push_crlf(&mut out);
        proof {
            assert(out@ =~= self.wire());
        }
        out
    }
}

impl RespEncode for RespNullBulkString {
    open spec fn wire(&self) -> Seq<u8> {
        spec_encode(FrameView::NullBulkString)
    }

    fn encode(&self) -> (r: Vec<u8>) {
        let mut out: Vec<u8> = Vec::new();
        out.push(DOLLAR);
        out.push(MINUS);
        out.push(DIGIT_ONE);
        push_crlf(&mut out);
        proof {
            assert(out@ =~= self.wire());
        }
        out
    }
}

impl RespEncode for RespArray {
    open spec fn wire(&self) -> Seq<u8> {
        spec_encode(FrameView::Arrays(frames_view(self.0@)))
    }

    fn encode(&self) -> (r: Vec<u8>) {
        let mut out: Vec<u8> = Vec::new();
        encode_array_into(self, &mut out);
        out
    }
}

impl RespEncode for RespSet {
    open spec fn wire(&self) -> Seq<u8> {
        spec_encode(FrameView::SetFrame(frames_view(self.0@)))
    }

    fn encode(&self) -> (r: Vec<u8>) {
        let mut out: Vec<u8> = Vec::new();
        encode_set_into(self, &mut out);
        out
    }
}

impl RespEncode for RespMap {
    open spec fn wire(&self) -> Seq<u8> {
        spec_encode(FrameView::MapFrame(pairs_view(self.0@)))
    }

    fn encode(&self) -> (r: Vec<u8>) {
        let mut out: Vec<u8> = Vec::new();
        encode_map_into(self, &mut out);
        out
    }
}

} // verus!
