//! The frame model: a closed tagged union of protocol value variants, its
//! mathematical view, and the well-formedness predicate that the encoder's
//! and decoder's laws are stated over.

use vstd::prelude::*;
use vstd::utf8::{encode_utf8, valid_utf8};
use vstd::string::StrSliceExecFns;

verus! {

broadcast use vstd::std_specs::vec::group_vec_axioms, vstd::seq::group_seq_axioms;

/// Carriage return, the first byte of a frame terminator.
pub const CR: u8 = 13;
/// Line feed, the second byte of a frame terminator.
pub const LF: u8 = 10;

// ------------------------------------------------------------------ model

/// The mathematical view of a frame: payloads are byte sequences,
/// unbounded integers, booleans, and sequences of nested views.
pub enum FrameView {
    SimpleString(Seq<u8>),
    Error(Seq<u8>),
    Integer(int),
    BulkString(Seq<u8>),
    NullBulkString,
    Arrays(Seq<FrameView>),
    Null,
    NullArray,
    Boolean(bool),
    Double(Seq<u8>),
    MapFrame(Seq<(Seq<u8>, FrameView)>),
    SetFrame(Seq<FrameView>),
}

pub open spec fn is_digit(b: u8) -> bool {
    48 <= b <= 57
}

/// The byte sequence contains a CRLF pair, which would end a line-oriented
/// frame early if it stood inside the frame's text.
pub open spec fn contains_crlf(s: Seq<u8>) -> bool {
    exists|i: int| 0 <= i && i + 1 < s.len() && s[i] == CR && #[trigger] s[i + 1] == LF
}

/// Number of leading decimal digits of `s`.
pub open spec fn digits_prefix_len(s: Seq<u8>) -> int
    decreases s.len(),
{
    if s.len() == 0 || !is_digit(s[0]) {
        0
    } else {
        1 + digits_prefix_len(s.drop_first())
    }
}

/// The exponent tail of a double numeral: an optional sign, then one or
/// more digits and nothing else.
pub open spec fn exp_tail_ok(s: Seq<u8>) -> bool {
    let t = if s.len() > 0 && (s[0] == 43 || s[0] == 45) {
        s.drop_first()
    } else {
        s
    };
    t.len() >= 1 && digits_prefix_len(t) == t.len()
}

/// What may follow the fractional digits of a double numeral: either
/// nothing, or an exponent marker and its tail.
pub open spec fn exp_part_ok(s: Seq<u8>) -> bool {
    if s.len() == 0 {
        true
    } else {
        (s[0] == 101 || s[0] == 69) && exp_tail_ok(s.drop_first())
    }
}

/// What may follow the integer digits of a double numeral: nothing, a
/// fractional part with at least one digit, or an exponent part.
pub open spec fn frac_exp_ok(s: Seq<u8>) -> bool {
    if s.len() == 0 {
        true
    } else if s[0] == 46 {
        let f = digits_prefix_len(s.drop_first());
        f >= 1 && exp_part_ok(s.drop_first().skip(f))
    } else {
        exp_part_ok(s)
    }
}

/// The body of a Double frame: an optional sign, one or more integer
/// digits, an optional fraction, and an optional decimal exponent.
pub open spec fn double_body_ok(s: Seq<u8>) -> bool {
    let t = if s.len() > 0 && (s[0] == 43 || s[0] == 45) {
        s.drop_first()
    } else {
        s
    };
    let d = digits_prefix_len(t);
    d >= 1 && frac_exp_ok(t.skip(d))
}

/// Strict byte-lexicographic order on byte sequences.
pub open spec fn lex_lt(a: Seq<u8>, b: Seq<u8>) -> bool
    decreases a.len(),
{
    if b.len() == 0 {
        false
    } else if a.len() == 0 {
        true
    } else if a[0] < b[0] {
        true
    } else if a[0] > b[0] {
        false
    } else {
        lex_lt(a.drop_first(), b.drop_first())
    }
}

/// Map entries stand in strictly ascending key order, so keys are unique.
pub open spec fn map_keys_sorted(pairs: Seq<(Seq<u8>, FrameView)>) -> bool {
    forall|i: int, j: int|
        0 <= i < j < pairs.len() ==> lex_lt(#[trigger] pairs[i].0, #[trigger] pairs[j].0)
}

/// Text that may stand in a line-oriented frame: valid UTF-8 that does not
/// contain the CRLF terminator.
pub open spec fn line_text_ok(s: Seq<u8>) -> bool {
    valid_utf8(s) && !contains_crlf(s)
}

/// Well-formedness of a frame view: the inputs on which encoding yields a
/// stream that decodes back to the same frame. Lengths are bounded by
/// `i64::MAX` because the wire format declares them as decimal integers
/// read back through a 64-bit signed parse.
pub open spec fn frame_wf(v: FrameView) -> bool
    decreases v,
{
    match v {
        FrameView::SimpleString(s) => line_text_ok(s),
        FrameView::Error(s) => line_text_ok(s),
        FrameView::Integer(i) => i64::MIN <= i <= i64::MAX,
        FrameView::BulkString(b) => b.len() <= i64::MAX,
        FrameView::NullBulkString => true,
        FrameView::Arrays(es) => es.len() <= i64::MAX && forall|i: int|
            0 <= i < es.len() ==> frame_wf(#[trigger] es[i]),
        FrameView::Null => true,
        FrameView::NullArray => true,
        FrameView::Boolean(_) => true,
        FrameView::Double(d) => double_body_ok(d),
        FrameView::MapFrame(ps) => ps.len() <= i64::MAX && map_keys_sorted(ps) && forall|i: int|
            0 <= i < ps.len() ==> line_text_ok(#[trigger] ps[i].0) && frame_wf(ps[i].1),
        FrameView::SetFrame(es) => es.len() <= i64::MAX && forall|i: int|
            0 <= i < es.len() ==> frame_wf(#[trigger] es[i]),
    }
}

// ------------------------------------------------------------------ frames

/// A short status line, tag `+`; holds the UTF-8 bytes of its text.
#[derive(Debug, PartialEq, Eq)]
pub struct SimpleString(pub Vec<u8>);

/// An error line, tag `-`; holds the UTF-8 bytes of its message.
#[derive(Debug, PartialEq, Eq)]
pub struct SimpleError(pub Vec<u8>);

/// The RESP3 generic null, tag `_`.
#[derive(Debug, PartialEq, Eq)]
pub struct RespNull;

/// The RESP2 "no array" sentinel, wire form `*-1`.
#[derive(Debug, PartialEq, Eq)]
pub struct RespNullArray;

/// The RESP2 "no bulk string" sentinel, wire form `$-1`.
#[derive(Debug, PartialEq, Eq)]
pub struct RespNullBulkString;

/// A length-prefixed run of raw bytes, tag `$`.
#[derive(Debug, PartialEq, Eq)]
pub struct BulkString(pub Vec<u8>);

/// An ordered sequence of nested frames, tag `*`.
#[derive(Debug, PartialEq, Eq)]
pub struct RespArray(pub Vec<RespFrame>);

/// An ordered sequence of nested frames, tag `~`; uniqueness of the
/// elements is not enforced at this layer.
#[derive(Debug, PartialEq, Eq)]
pub struct RespSet(pub Vec<RespFrame>);

/// A mapping from unique string keys to frames, tag `%`, held in strictly
/// ascending byte-lexicographic key order.
#[derive(Debug, PartialEq, Eq)]
pub struct RespMap(pub Vec<(Vec<u8>, RespFrame)>);

/// A signed floating-point value, tag `,`, held as the bytes of its
/// rendered decimal numeral so that the wire form is byte-exact.
#[derive(Debug, PartialEq, Eq)]
pub struct Double(pub Vec<u8>);

/// One protocol frame: the closed tagged union over every variant.
#[derive(Debug, PartialEq, Eq)]
pub enum RespFrame {
    SimpleString(SimpleString),
    Error(SimpleError),
    Integer(i64),
    BulkString(BulkString),
    NullBulkString(RespNullBulkString),
    Arrays(RespArray),
    Null(RespNull),
    NullArray(RespNullArray),
    Boolean(bool),
    Double(Double),
    MapFrame(RespMap),
    SetFrame(RespSet),
}

/// The decoder's error taxonomy. `NotComplete` is the transient "buffer
/// holds only part of a frame" signal; every other variant is permanent.
#[derive(Debug, PartialEq, Eq, Clone, Copy)]
pub enum RespError {
    InvalidFrame,
    InvalidFrameType,
    InvalidFrameLength,
    NotComplete,
    ParseIntError,
    Utf8Error,
    ParseFloatError,
}

// ------------------------------------------------------------------ views

/// The view of a frame.
pub open spec fn frame_view(f: RespFrame) -> FrameView
    decreases f, 0int,
{
    match f {
        RespFrame::SimpleString(s) => FrameView::SimpleString(s.0@),
        RespFrame::Error(e) => FrameView::Error(e.0@),
        RespFrame::Integer(i) => FrameView::Integer(i as int),
        RespFrame::BulkString(b) => FrameView::BulkString(b.0@),
        RespFrame::NullBulkString(_) => FrameView::NullBulkString,
        RespFrame::Arrays(a) => FrameView::Arrays(frames_view(a.0@)),
        RespFrame::Null(_) => FrameView::Null,
        RespFrame::NullArray(_) => FrameView::NullArray,
        RespFrame::Boolean(b) => FrameView::Boolean(b),
        RespFrame::Double(d) => FrameView::Double(d.0@),
        RespFrame::MapFrame(m) => FrameView::MapFrame(pairs_view(m.0@)),
        RespFrame::SetFrame(s) => FrameView::SetFrame(frames_view(s.0@)),
    }
}

/// The views of a sequence of frames, in order.
pub open spec fn frames_view(s: Seq<RespFrame>) -> Seq<FrameView>
    decreases s, 1int,
{
    if s.len() == 0 {
        Seq::empty()
    } else {
        seq![frame_view(s[0])] + frames_view(s.drop_first())
    }
}

/// The views of a sequence of map entries, in order.
pub open spec fn pairs_view(s: Seq<(Vec<u8>, RespFrame)>) -> Seq<(Seq<u8>, FrameView)>
    decreases s, 1int,
{
    if s.len() == 0 {
        Seq::empty()
    } else {
        seq![(s[0].0@, frame_view(s[0].1))] + pairs_view(s.drop_first())
    }
}

/// The view of a frame sequence is as long as the sequence and views each
/// element in place.
pub broadcast proof fn frames_view_index(s: Seq<RespFrame>)
    ensures
        (#[trigger] frames_view(s)).len() == s.len(),
        forall|i: int| 0 <= i < s.len() ==> frames_view(s)[i] == frame_view(#[trigger] s[i]),
    decreases s.len(),
{
    if s.len() > 0 {
        frames_view_index(s.drop_first());
        assert forall|i: int| 0 <= i < s.len() implies frames_view(s)[i] == frame_view(s[i]) by {
            if i > 0 {
                assert(frames_view(s)[i] == frames_view(s.drop_first())[i - 1]);
                assert(s.drop_first()[i - 1] == s[i]);
            }
        }
    }
}

/// The view of an entry sequence is as long as the sequence and views each
/// entry in place.
pub broadcast proof fn pairs_view_index(s: Seq<(Vec<u8>, RespFrame)>)
    ensures
        (#[trigger] pairs_view(s)).len() == s.len(),
        forall|i: int|
            0 <= i < s.len() ==> pairs_view(s)[i] == ((#[trigger] s[i]).0@, frame_view(s[i].1)),
    decreases s.len(),
{
    if s.len() > 0 {
        pairs_view_index(s.drop_first());
        assert forall|i: int|
            0 <= i < s.len() implies pairs_view(s)[i] == (s[i].0@, frame_view(s[i].1)) by {
            if i > 0 {
                assert(pairs_view(s)[i] == pairs_view(s.drop_first())[i - 1]);
                assert(s.drop_first()[i - 1] == s[i]);
            }
        }
    }
}

impl View for RespFrame {
    type V = FrameView;

    open spec fn view(&self) -> FrameView {
        frame_view(*self)
    }
}

impl View for SimpleString {
    type V = Seq<u8>;

    open spec fn view(&self) -> Seq<u8> {
        self.0@
    }
}

impl View for SimpleError {
    type V = Seq<u8>;

    open spec fn view(&self) -> Seq<u8> {
        self.0@
    }
}

impl View for BulkString {
    type V = Seq<u8>;

    open spec fn view(&self) -> Seq<u8> {
        self.0@
    }
}

impl View for Double {
    type V = Seq<u8>;

    open spec fn view(&self) -> Seq<u8> {
        self.0@
    }
}

impl View for RespArray {
    type V = Seq<FrameView>;

    open spec fn view(&self) -> Seq<FrameView> {
        frames_view(self.0@)
    }
}

impl View for RespSet {
    type V = Seq<FrameView>;

    open spec fn view(&self) -> Seq<FrameView> {
        frames_view(self.0@)
    }
}

impl View for RespMap {
    type V = Seq<(Seq<u8>, FrameView)>;

    open spec fn view(&self) -> Seq<(Seq<u8>, FrameView)> {
        pairs_view(self.0@)
    }
}

// ------------------------------------------------------------ constructors

impl SimpleString {
    /// Builds a simple string from its text; the stored bytes are the
    /// text's UTF-8 encoding.
    pub fn new(s: String) -> (r: SimpleString)
        ensures
            r@ == encode_utf8(s@),
            valid_utf8(r@),
    {
        proof {
            vstd::utf8::encode_utf8_valid_utf8(s@);
        }
        SimpleString(s.as_str().as_bytes_vec())
    }
}

impl SimpleError {
    /// Builds an error line from its message; the stored bytes are the
    /// message's UTF-8 encoding.
    pub fn new(s: String) -> (r: SimpleError)
        ensures
            r@ == encode_utf8(s@),
            valid_utf8(r@),
    {
        proof {
            vstd::utf8::encode_utf8_valid_utf8(s@);
        }
        SimpleError(s.as_str().as_bytes_vec())
    }
}

impl BulkString {
    /// Builds a bulk string owning the given raw bytes.
    pub fn new(s: Vec<u8>) -> (r: BulkString)
        ensures
            r@ == s@,
    {
        BulkString(s)
    }

    /// The byte length of the payload, the count the wire header declares.
    pub fn len(&self) -> (r: usize)
        ensures
            r == self@.len(),
    {
        self.0.len()
    }
}

impl Double {
    /// Builds a double from the bytes of its rendered decimal numeral.
    pub fn new(s: Vec<u8>) -> (r: Double)
        ensures
            r@ == s@,
    {
        Double(s)
    }
}

impl RespArray {
    /// Builds an array owning the given frames in order.
    pub fn new(s: Vec<RespFrame>) -> (r: RespArray)
        ensures
            r@ == frames_view(s@),
    {
        RespArray(s)
    }

    /// The number of elements, the count the wire header declares.
    pub fn len(&self) -> (r: usize)
        ensures
            r == self@.len(),
    {
        proof {
            frames_view_index(self.0@);
        }
        self.0.len()
    }
}

impl RespSet {
    /// Builds a set owning the given frames in order.
    pub fn new(s: Vec<RespFrame>) -> (r: RespSet)
        ensures
            r@ == frames_view(s@),
    {
        RespSet(s)
    }

    /// The number of elements, the count the wire header declares.
    pub fn len(&self) -> (r: usize)
        ensures
            r == self@.len(),
    {
        proof {
            frames_view_index(self.0@);
        }
        self.0.len()
    }
}

impl RespMap {
    /// Builds an empty map.
    pub fn new() -> (r: RespMap)
        ensures
            r@ == Seq::<(Seq<u8>, FrameView)>::empty(),
    {
        RespMap(Vec::new())
    }

    /// The number of entries, the count the wire header declares.
    pub fn len(&self) -> (r: usize)
        ensures
            r == self@.len(),
    {
        proof {
            pairs_view_index(self.0@);
        }
        self.0.len()
    }
}

impl Default for RespMap {
    fn default() -> (r: RespMap)
        ensures
            r@ == Seq::<(Seq<u8>, FrameView)>::empty(),
    {
        RespMap::new()
    }
}


/// Asymmetry of the lexicographic order: a smaller sequence is neither
/// equal to nor greater than the larger one.
pub proof fn lemma_lex_asym(a: Seq<u8>, b: Seq<u8>)
    requires
        lex_lt(a, b),
    ensures
        !lex_lt(b, a),
        a != b,
    decreases a.len(),
{
    if a.len() > 0 && b.len() > 0 && a[0] == b[0] {
        lemma_lex_asym(a.drop_first(), b.drop_first());
        assert(a != b) by {
            if a == b {
                assert(a.drop_first() == b.drop_first());
            }
        }
    }
}

/// Transitivity of the lexicographic order.
pub proof fn lemma_lex_trans(a: Seq<u8>, b: Seq<u8>, c: Seq<u8>)
    requires
        lex_lt(a, b),
        lex_lt(b, c),
    ensures
        lex_lt(a, c),
    decreases a.len(),
{
    if a.len() > 0 && b.len() > 0 && c.len() > 0 {
        if a[0] == b[0] && b[0] == c[0] {
            lemma_lex_trans(a.drop_first(), b.drop_first(), c.drop_first());
        }
    }
}

/// Equal prefixes do not change how two sequences compare.
pub proof fn lemma_lex_skip(a: Seq<u8>, b: Seq<u8>, i: int)
    requires
        0 <= i <= a.len(),
        i <= b.len(),
        forall|k: int| 0 <= k < i ==> a[k] == #[trigger] b[k],
    ensures
        lex_lt(a, b) == lex_lt(a.skip(i), b.skip(i)),
    decreases i,
{
    if i > 0 {
        assert(a[0] == b[0]);
        let a1 = a.drop_first();
        let b1 = b.drop_first();
        assert forall|k: int| 0 <= k < i - 1 implies a1[k] == #[trigger] b1[k] by {
            assert(a1[k] == a[k + 1] && b1[k] == b[k + 1]);
        }
        lemma_lex_skip(a1, b1, i - 1);
        assert(a1.skip(i - 1) =~= a.skip(i));
        assert(b1.skip(i - 1) =~= b.skip(i));
    } else {
        assert(a.skip(0) =~= a);
        assert(b.skip(0) =~= b);
    }
}

/// Where a new entry lands in a sorted entry sequence: before the first
/// key that is not smaller than it, replacing that key when equal.
pub open spec fn spec_map_insert(
    ps: Seq<(Seq<u8>, FrameView)>,
    k: Seq<u8>,
    v: FrameView,
) -> Seq<(Seq<u8>, FrameView)>
    decreases ps.len(),
{
    if ps.len() == 0 {
        seq![(k, v)]
    } else if lex_lt(k, ps[0].0) {
        seq![(k, v)] + ps
    } else if k == ps[0].0 {
        seq![(k, v)] + ps.drop_first()
    } else {
        seq![ps[0]] + spec_map_insert(ps.drop_first(), k, v)
    }
}

/// The two terminal shapes of `spec_map_insert`: replacement at the first
/// key equal to `k`, or insertion before the first key greater than it.
pub proof fn lemma_map_insert_at(ps: Seq<(Seq<u8>, FrameView)>, k: Seq<u8>, v: FrameView, i: int)
    requires
        0 <= i <= ps.len(),
        forall|j: int| 0 <= j < i ==> lex_lt((#[trigger] ps[j]).0, k),
    ensures
        (i < ps.len() && ps[i].0 == k) ==> spec_map_insert(ps, k, v) == ps.update(i, (k, v)),
        (i == ps.len() || (i < ps.len() && lex_lt(k, ps[i].0))) ==> spec_map_insert(ps, k, v)
            == ps.subrange(0, i) + seq![(k, v)] + ps.subrange(i, ps.len() as int),
    decreases ps.len(),
{
    if i == 0 {
        if ps.len() > 0 && ps[0].0 == k {
            assert(spec_map_insert(ps, k, v) =~= ps.update(0, (k, v))) by {
                if !lex_lt(k, ps[0].0) {
                } else {
                    lemma_lex_asym(k, ps[0].0);
                }
            }
        }
        if i == ps.len() || (i < ps.len() && lex_lt(k, ps[i].0)) {
            assert(spec_map_insert(ps, k, v) =~= ps.subrange(0, 0) + seq![(k, v)] + ps.subrange(
                0,
                ps.len() as int,
            ));
        }
    } else {
        lemma_lex_asym(ps[0].0, k);
        let rest = ps.drop_first();
        assert forall|j: int| 0 <= j < i - 1 implies lex_lt((#[trigger] rest[j]).0, k) by {
            assert(rest[j] == ps[j + 1]);
        }
        lemma_map_insert_at(rest, k, v, i - 1);
        assert(i - 1 < rest.len() ==> rest[i - 1] == ps[i]);
        if i < ps.len() && ps[i].0 == k {
            assert(spec_map_insert(ps, k, v) =~= ps.update(i, (k, v)));
        }
        if i == ps.len() || (i < ps.len() && lex_lt(k, ps[i].0)) {
            assert(spec_map_insert(ps, k, v) =~= ps.subrange(0, i) + seq![(k, v)] + ps.subrange(
                i,
                ps.len() as int,
            ));
        }
    }
}

/// Three-way byte-lexicographic comparison of two byte strings.
fn lex_cmp(a: &Vec<u8>, b: &Vec<u8>) -> (r: i8)
    ensures
        r == -1 || r == 0 || r == 1,
        (r == -1) ==> lex_lt(a@, b@),
        (r == 0) ==> a@ == b@,
        (r == 1) ==> lex_lt(b@, a@),
{
    let an = a.len();
    let bn = b.len();
    let mut i: usize = 0;
    while i < an && i < bn
        invariant
            i <= an,
            i <= bn,
            an == a@.len(),
            bn == b@.len(),
            forall|k: int| 0 <= k < i ==> a@[k] == #[trigger] b@[k],
        decreases an - i,
    {
        if a[i] < b[i] {
            proof {
                lemma_lex_skip(a@, b@, i as int);
                assert(a@.skip(i as int)[0] == a@[i as int]);
                assert(b@.skip(i as int)[0] == b@[i as int]);
            }
            return -1;
        }
        if a[i] > b[i] {
            proof {
                assert forall|k: int| 0 <= k < i implies b@[k] == #[trigger] a@[k] by {
                    assert(a@[k] == b@[k]);
                }
                lemma_lex_skip(b@, a@, i as int);
                assert(a@.skip(i as int)[0] == a@[i as int]);
                assert(b@.skip(i as int)[0] == b@[i as int]);
            }
            return 1;
        }
        i += 1;
    }
    proof {
        lemma_lex_skip(a@, b@, i as int);
        assert forall|k: int| 0 <= k < i implies b@[k] == #[trigger] a@[k] by {
            assert(a@[k] == b@[k]);
        }
        lemma_lex_skip(b@, a@, i as int);
    }
    if an == bn {
        proof {
            assert(a@ =~= b@);
        }
        0
    } else if an < bn {
        proof {
            assert(a@.skip(i as int).len() == 0 && b@.skip(i as int).len() > 0);
        }
        -1
    } else {
        proof {
            assert(b@.skip(i as int).len() == 0 && a@.skip(i as int).len() > 0);
        }
        1
    }
}

impl RespMap {
    /// Inserts `k -> v`, keeping entries in strictly ascending
    /// byte-lexicographic key order; the entry under an equal key is
    /// replaced. The key is stored as its UTF-8 bytes.
    pub fn insert(&mut self, k: String, v: RespFrame)
        ensures
            final(self)@ == spec_map_insert(old(self)@, encode_utf8(k@), frame_view(v)),
            map_keys_sorted(old(self)@) ==> map_keys_sorted(final(self)@),
    {
        let kb = k.as_str().as_bytes_vec();
        let n = self.0.len();
        proof {
            pairs_view_index(self.0@);
        }
        let mut i: usize = 0;
        let mut stop: i8 = -1;
        while i < n && stop == -1
            invariant
                i <= n,
                n == self.0@.len(),
                *self == *old(self),
                kb@ == encode_utf8(k@),
                stop == -1 || stop == 0 || stop == 1,
                forall|j: int| 0 <= j < i ==> lex_lt((#[trigger] self@[j]).0, kb@),
                stop == 0 ==> i < n && self@[i as int].0 == kb@,
                stop == 1 ==> i < n && lex_lt(kb@, self@[i as int].0),
            decreases n - i + (if stop == -1 { 1int } else { 0int }),
        {
            let c = lex_cmp(&self.0[i].0, &kb);
            proof {
                pairs_view_index(self.0@);
            }
            if c == -1 {
                i += 1;
            } else if c == 0 {
                stop = 0;
            } else {
                stop = 1;
            }
        }
        proof {
            pairs_view_index(self.0@);
        }
        let ghost ps = self@;
        let ghost oldvec = self.0@;
        let ghost gp = (kb, v);
        proof {
            lemma_map_insert_at(ps, kb@, frame_view(v), i as int);
        }
        if stop == 0 {
            self.0.remove(i);
            self.0.insert(i, (kb, v));
            proof {
                assert(self.0@ =~= oldvec.update(i as int, gp));
                pairs_view_index(self.0@);
                pairs_view_index(oldvec);
                assert(ps == pairs_view(oldvec));
                assert(self.0@[i as int] == gp);
                assert(self@[i as int] == (kb@, frame_view(v)));
                assert forall|j: int| 0 <= j < self@.len() && j != i implies #[trigger] self@[j]
                    == ps[j] by {
                    assert(self.0@[j] == oldvec[j]);
                    assert(self@[j] == (self.0@[j].0@, frame_view(self.0@[j].1)));
                    assert(ps[j] == (oldvec[j].0@, frame_view(oldvec[j].1)));
                }
                assert(self@ =~~= ps.update(i as int, (kb@, frame_view(v))));
                if map_keys_sorted(ps) {
                    assert(map_keys_sorted(self@));
                }
            }
        } else {
            self.0.insert(i, (kb, v));
            proof {
                assert(self.0@ =~= oldvec.insert(i as int, gp));
                pairs_view_index(self.0@);
                pairs_view_index(oldvec);
                assert(self@.len() == ps.len() + 1);
                assert(self.0@[i as int] == gp);
                assert(self@[i as int] == (kb@, frame_view(v)));
                assert(ps == pairs_view(oldvec));
                assert forall|j: int| 0 <= j < i implies #[trigger] self@[j] == ps[j] by {
                    assert(self.0@[j] == oldvec[j]);
                    assert(self@[j] == (self.0@[j].0@, frame_view(self.0@[j].1)));
                    assert(ps[j] == (oldvec[j].0@, frame_view(oldvec[j].1)));
                }
                assert forall|j: int| i < j < self@.len() implies #[trigger] self@[j] == ps[j
                    - 1] by {
                    assert(self.0@[j] == oldvec[j - 1]);
                    assert(self@[j] == (self.0@[j].0@, frame_view(self.0@[j].1)));
                    assert(ps[j - 1] == (oldvec[j - 1].0@, frame_view(oldvec[j - 1].1)));
                }
                assert(self@ =~~= ps.subrange(0, i as int) + seq![(kb@, frame_view(v))]
                    + ps.subrange(i as int, ps.len() as int));
                if map_keys_sorted(ps) {
                    let res = self@;
                    assert forall|x: int, y: int| 0 <= x < y < res.len() implies lex_lt(
                        #[trigger] res[x].0,
                        #[trigger] res[y].0,
                    ) by {
                        if x < i && y == i {
                        } else if x == i && y > i {
                            if (i as int) < ps.len() {
                                if ps[i as int].0 != res[y].0 {
                                    lemma_lex_trans(kb@, ps[i as int].0, res[y].0);
                                }
                            }
                        } else if x < i && y > i {
                            assert(res[x] == ps[x] && res[y] == ps[y - 1]);
                        } else if x > i && y > i {
                            assert(res[x] == ps[x - 1] && res[y] == ps[y - 1]);
                        }
                    }
                }
            }
        }
    }
}

} // verus!
