//! The wire frame grammar: simple strings, errors, integers, bulk strings,
//! null, and one-level arrays, with a byte-exact serializer and an incremental
//! parser over a `BufferedStream`. Parsing answers `Incomplete` whenever more
//! bytes could still complete a frame, and a terminal protocol error only for
//! a bulk-string length that is not a number or a null marker other than `-1`.
use crate::buffer::{find_crlf, is_suffix_of, no_crlf, BufferedStream};
use crate::decimal::{all_digits, dec_digits, dec_value, is_digit};
use vstd::prelude::*;

verus! {

/// A frame that is not an array: the only shapes an array may contain.
#[derive(Debug, Clone, PartialEq)]
pub enum FrameSimple {
    Simple(Vec<u8>),
    Error(Vec<u8>),
    Integer(u64),
    Bulk(Vec<u8>),
    Null,
}

/// One unit of the wire grammar.
#[derive(Debug, Clone, PartialEq)]
pub enum Frame {
    Simple(FrameSimple),
    Array(Vec<FrameSimple>),
}

#[derive(Debug, PartialEq)]
pub enum FrameParseError {
    /// Not enough bytes yet; more input may complete the frame.
    Incomplete,
    /// A terminal protocol violation.
    Other(String),
}

/// The mathematical shape of a non-array frame.
pub enum SimpleModel {
    Simple(Seq<u8>),
    Error(Seq<u8>),
    Integer(u64),
    Bulk(Seq<u8>),
    Null,
}

/// The mathematical shape of a frame.
pub enum FrameModel {
    Simple(SimpleModel),
    Array(Seq<SimpleModel>),
}

impl View for FrameSimple {
    type V = SimpleModel;

    open spec fn view(&self) -> SimpleModel {
        match self {
            FrameSimple::Simple(v) => SimpleModel::Simple(v@),
            FrameSimple::Error(v) => SimpleModel::Error(v@),
            FrameSimple::Integer(n) => SimpleModel::Integer(*n),
            FrameSimple::Bulk(v) => SimpleModel::Bulk(v@),
            FrameSimple::Null => SimpleModel::Null,
        }
    }
}

/// The models of a sequence of non-array frames.
pub open spec fn models_of(s: Seq<FrameSimple>) -> Seq<SimpleModel> {
    s.map_values(|f: FrameSimple| f@)
}

impl View for Frame {
    type V = FrameModel;

    open spec fn view(&self) -> FrameModel {
        match self {
            Frame::Simple(v) => FrameModel::Simple(v@),
            Frame::Array(v) => FrameModel::Array(models_of(v@)),
        }
    }
}

/// A legal non-array frame value: text payloads hold no CRLF (the encoding is
/// line-delimited), and a bulk payload is addressable.
pub open spec fn simple_wf(v: SimpleModel) -> bool {
    match v {
        SimpleModel::Simple(s) => no_crlf(s),
        SimpleModel::Error(s) => no_crlf(s),
        SimpleModel::Integer(_) => true,
        SimpleModel::Bulk(b) => b.len() <= usize::MAX,
        SimpleModel::Null => true,
    }
}

/// A legal frame value.
pub open spec fn frame_wf(f: FrameModel) -> bool {
    match f {
        FrameModel::Simple(v) => simple_wf(v),
        FrameModel::Array(vs) => vs.len() <= usize::MAX && (forall|i: int|
            0 <= i < vs.len() ==> simple_wf(#[trigger] vs[i])),
    }
}

pub open spec fn crlf() -> Seq<u8> {
    seq![13u8, 10u8]
}

/// The byte encoding of a non-array frame.
pub open spec fn encode_simple(v: SimpleModel) -> Seq<u8> {
    match v {
        SimpleModel::Simple(s) => seq![43u8] + s + crlf(),
        SimpleModel::Error(s) => seq![45u8] + s + crlf(),
        SimpleModel::Integer(n) => seq![58u8] + dec_digits(n as nat) + crlf(),
        SimpleModel::Bulk(b) => seq![36u8] + dec_digits(b.len()) + crlf() + b + crlf(),
        SimpleModel::Null => seq![36u8, 45u8, 49u8, 13u8, 10u8],
    }
}

/// The concatenated encodings of array elements.
pub open spec fn encode_elts(vs: Seq<SimpleModel>) -> Seq<u8>
    decreases vs.len(),
{
    if vs.len() == 0 {
        Seq::empty()
    } else {
        encode_simple(vs[0]) + encode_elts(vs.skip(1))
    }
}

/// The byte encoding of a frame.
pub open spec fn encode_frame(f: FrameModel) -> Seq<u8> {
    match f {
        FrameModel::Simple(v) => encode_simple(v),
        FrameModel::Array(vs) => seq![42u8] + dec_digits(vs.len()) + crlf() + encode_elts(vs),
    }
}

/// The outcome of parsing: a value and the bytes it used, a retryable shortage
/// of bytes, or a terminal protocol error.
#[verifier::ext_equal]
pub enum Parsed<T> {
    Done { value: T, used: int },
    Incomplete,
    Bad,
}

/// A line that parses as a decimal number fitting `u64`.
pub open spec fn numeric_line(line: Seq<u8>) -> bool {
    line.len() > 0 && all_digits(line) && dec_value(line) <= u64::MAX
}

/// Parsing a non-array frame body (after its type byte `t`) from `s`.
pub open spec fn parse_simple(t: u8, s: Seq<u8>) -> Parsed<SimpleModel> {
    if t == 43 {
        match find_crlf(s) {
            Some(i) => Parsed::Done { value: SimpleModel::Simple(s.take(i)), used: i + 2 },
            None => Parsed::Incomplete,
        }
    } else if t == 45 {
        match find_crlf(s) {
            Some(i) => Parsed::Done { value: SimpleModel::Error(s.take(i)), used: i + 2 },
            None => Parsed::Incomplete,
        }
    } else if t == 58 {
        match find_crlf(s) {
            Some(i) => if numeric_line(s.take(i)) {
                Parsed::Done {
                    value: SimpleModel::Integer(dec_value(s.take(i)) as u64),
                    used: i + 2,
                }
            } else {
                // The reader reports a malformed number as a failed read, which
                // the codec treats as a retryable shortage.
                Parsed::Incomplete
            },
            None => Parsed::Incomplete,
        }
    } else if t == 36 {
        if s.len() == 0 {
            Parsed::Incomplete
        } else if s[0] == 45 {
            match find_crlf(s) {
                Some(i) => if s.take(i) == seq![45u8, 49u8] {
                    Parsed::Done { value: SimpleModel::Null, used: i + 2 }
                } else {
                    Parsed::Bad
                },
                None => Parsed::Incomplete,
            }
        } else {
            match find_crlf(s) {
                Some(i) => {
                    let line = s.take(i);
                    if !(numeric_line(line) && dec_value(line) <= usize::MAX) {
                        Parsed::Bad
                    } else {
                        let n = dec_value(line) as int;
                        if s.len() < i + 2 + n + 2 {
                            Parsed::Incomplete
                        } else {
                            Parsed::Done {
                                value: SimpleModel::Bulk(s.subrange(i + 2, i + 2 + n)),
                                used: i + 2 + n + 2,
                            }
                        }
                    }
                },
                None => Parsed::Incomplete,
            }
        }
    } else {
        Parsed::Incomplete
    }
}

/// Parsing `k` consecutive non-array frames, each with its own type byte.
pub open spec fn parse_elts(s: Seq<u8>, k: nat) -> Parsed<Seq<SimpleModel>>
    decreases k,
{
    if k == 0 {
        Parsed::Done { value: Seq::empty(), used: 0 }
    } else if s.len() == 0 {
        Parsed::Incomplete
    } else {
        match parse_simple(s[0], s.skip(1)) {
            Parsed::Done { value, used } => match parse_elts(
                s.skip(1 + used),
                (k - 1) as nat,
            ) {
                Parsed::Done { value: vs, used: u2 } => Parsed::Done {
                    value: seq![value] + vs,
                    used: 1 + used + u2,
                },
                Parsed::Incomplete => Parsed::Incomplete,
                Parsed::Bad => Parsed::Bad,
            },
            Parsed::Incomplete => Parsed::Incomplete,
            Parsed::Bad => Parsed::Bad,
        }
    }
}

/// Parsing one frame from `s`: the type byte, then the body; an array reads a
/// count line and then that many non-array frames.
pub open spec fn parse_frame(s: Seq<u8>) -> Parsed<FrameModel> {
    if s.len() == 0 {
        Parsed::Incomplete
    } else if s[0] == 42 {
        match find_crlf(s.skip(1)) {
            Some(i) => {
                let line = s.skip(1).take(i);
                if !numeric_line(line) {
                    Parsed::Incomplete
                } else if dec_value(line) > usize::MAX {
                    Parsed::Bad
                } else {
                    match parse_elts(s.skip(1 + i + 2), dec_value(line)) {
                        Parsed::Done { value, used } => Parsed::Done {
                            value: FrameModel::Array(value),
                            used: 1 + i + 2 + used,
                        },
                        Parsed::Incomplete => Parsed::Incomplete,
                        Parsed::Bad => Parsed::Bad,
                    }
                }
            },
            None => Parsed::Incomplete,
        }
    } else {
        match parse_simple(s[0], s.skip(1)) {
            Parsed::Done { value, used } => Parsed::Done {
                value: FrameModel::Simple(value),
                used: 1 + used,
            },
            Parsed::Incomplete => Parsed::Incomplete,
            Parsed::Bad => Parsed::Bad,
        }
    }
}

/// Prepends an already-parsed element (and the bytes it used) to the outcome
/// of parsing the elements after it.
pub open spec fn glue(prefix: Seq<SimpleModel>, used: int, r: Parsed<Seq<SimpleModel>>) -> Parsed<
    Seq<SimpleModel>,
> {
    match r {
        Parsed::Done { value, used: u } => Parsed::Done { value: prefix + value, used: used + u },
        Parsed::Incomplete => Parsed::Incomplete,
        Parsed::Bad => Parsed::Bad,
    }
}

/// The outcome of an array frame from the outcome of its elements, where
/// `header` counts the type byte and the count line.
pub open spec fn lift_array(r: Parsed<Seq<SimpleModel>>, header: int) -> Parsed<FrameModel> {
    match r {
        Parsed::Done { value, used } => Parsed::Done {
            value: FrameModel::Array(value),
            used: header + used,
        },
        Parsed::Incomplete => Parsed::Incomplete,
        Parsed::Bad => Parsed::Bad,
    }
}

proof fn lemma_glue_assoc(p1: Seq<SimpleModel>, u1: int, x: SimpleModel, u2: int, r: Parsed<
    Seq<SimpleModel>,
>)
    ensures
        glue(p1, u1, glue(seq![x], u2, r)) == glue(p1.push(x), u1 + u2, r),
{
    match r {
        Parsed::Done { value, used } => {
            assert(p1 + (seq![x] + value) =~= p1.push(x) + value);
            assert(glue(p1, u1, glue(seq![x], u2, r)) =~= glue(p1.push(x), u1 + u2, r));
        },
        _ => {},
    }
}

/// What remains after consuming a prefix is a suffix.
proof fn lemma_suffix_skip(b: Seq<u8>, k: int)
    requires
        0 <= k <= b.len(),
    ensures
        is_suffix_of(b.skip(k), b),
{
}

/// After a line-consuming read fails or rejects, the buffer holds either
/// everything it held or everything behind the consumed line: a suffix.
proof fn consumed_line_suffix(pre: Seq<u8>, cur: Seq<u8>)
    requires
        match find_crlf(pre) {
            Some(i) => cur == pre || cur == pre.skip(i + 2),
            None => cur == pre,
        },
    ensures
        is_suffix_of(cur, pre),
{
    crate::buffer::lemma_find_crlf(pre);
    assert(pre.skip(0) =~= pre);
    lemma_suffix_skip(pre, 0);
    match find_crlf(pre) {
        Some(i) => {
            lemma_suffix_skip(pre, i + 2);
        },
        None => {},
    }
}

/// A completed parse never uses more bytes than were there.
proof fn lemma_parse_simple_used(t: u8, s: Seq<u8>)
    ensures
        parse_simple(t, s) is Done ==> 0 <= parse_simple(t, s)->Done_used <= s.len(),
{
    crate::buffer::lemma_find_crlf(s);
}

proof fn lemma_parse_elts_unfold(s: Seq<u8>, k: nat, v: SimpleModel, u: int)
    requires
        k > 0,
        s.len() > 0,
        parse_simple(s[0], s.skip(1)) == (Parsed::Done::<SimpleModel> { value: v, used: u }),
    ensures
        parse_elts(s, k) == glue(seq![v], 1 + u, parse_elts(s.skip(1 + u), (k - 1) as nat)),
{
    match parse_elts(s.skip(1 + u), (k - 1) as nat) {
        Parsed::Done { value: vs, used: u2 } => {
            assert(parse_elts(s, k) =~= glue(
                seq![v],
                1 + u,
                parse_elts(s.skip(1 + u), (k - 1) as nat),
            ));
        },
        _ => {},
    }
}

fn push_crlf(out: &mut Vec<u8>)
    ensures
        final(out)@ == old(out)@ + crlf(),
{
    out.push(13);
    out.push(10);
    assert(out@ =~= old(out)@ + crlf());
}

fn extend_bytes(out: &mut Vec<u8>, bytes: &Vec<u8>)
    ensures
        final(out)@ == old(out)@ + bytes@,
{
    let mut i: usize = 0;
    while i < bytes.len()
        invariant
            0 <= i <= bytes@.len(),
            out@ == old(out)@ + bytes@.take(i as int),
        decreases bytes@.len() - i,
    {
        out.push(bytes[i]);
        proof {
            assert(out@ =~= old(out)@ + bytes@.take(i + 1));
        }
        i = i + 1;
    }
    proof {
        assert(bytes@.take(bytes@.len() as int) =~= bytes@);
    }
}

impl FrameSimple {
    /// Parses the body of a non-array frame whose type byte `t` was already
    /// consumed.
    pub fn parse(t: u8, buffer: &mut BufferedStream) -> (r: Result<FrameSimple, FrameParseError>)
        ensures
            match parse_simple(t, old(buffer).remaining()) {
                Parsed::Done { value, used } => r is Ok && r->Ok_0@ == value && final(buffer).remaining() == old(buffer).remaining().skip(used),
                Parsed::Incomplete => r is Err && r->Err_0 is Incomplete && is_suffix_of(
                    final(buffer).remaining(),
                    old(buffer).remaining(),
                ),
                Parsed::Bad => r is Err && r->Err_0 is Other && is_suffix_of(
                    final(buffer).remaining(),
                    old(buffer).remaining(),
                ),
            },
    {
        proof {
            crate::buffer::lemma_find_crlf(buffer.remaining());
            lemma_suffix_skip(buffer.remaining(), 0);
            assert(buffer.remaining().skip(0) =~= buffer.remaining());
        }
        if t == 43 {
            match buffer.get_line() {
                Ok(line) => Ok(FrameSimple::Simple(line)),
                Err(e) => Err(e),
            }
        } else if t == 45 {
            match buffer.get_line() {
                Ok(line) => Ok(FrameSimple::Error(line)),
                Err(e) => Err(e),
            }
        } else if t == 58 {
            match buffer.get_decimal() {
                Ok(n) => Ok(FrameSimple::Integer(n)),
                // The reader rejected the number; wait for a fresh attempt.
                Err(_) => {
                    proof {
                        consumed_line_suffix(old(buffer).remaining(), buffer.remaining());
                    }
                    Err(FrameParseError::Incomplete)
                },
            }
        } else if t == 36 {
            let b = match buffer.peek_u8() {
                Ok(b) => b,
                Err(e) => {
                    return Err(e);
                },
            };
            if b == 45 {
                let line = match buffer.get_line() {
                    Ok(l) => l,
                    Err(e) => {
                        return Err(e);
                    },
                };
                if line.len() == 2 && line[0] == 45 && line[1] == 49 {
                    proof {
                        assert(line@ =~= seq![45u8, 49u8]);
                    }
                    Ok(FrameSimple::Null)
                } else {
                    proof {
                        if line@ == seq![45u8, 49u8] {
                            assert(line@.len() == 2);
                            assert(line@[0] == 45u8);
                            assert(line@[1] == 49u8);
                            assert(false);
                        }
                        consumed_line_suffix(old(buffer).remaining(), buffer.remaining());
                    }
                    Err(
                        FrameParseError::Other(
                            String::from_str("protocol error; invalid frame format"),
                        ),
                    )
                }
            } else {
                let len64 = match buffer.get_decimal() {
                    Ok(n) => n,
                    Err(e) => {
                        proof {
                            consumed_line_suffix(old(buffer).remaining(), buffer.remaining());
                        }
                        return Err(e);
                    },
                };
                if len64 > (usize::MAX as u64) {
                    proof {
                        consumed_line_suffix(old(buffer).remaining(), buffer.remaining());
                    }
                    return Err(
                        FrameParseError::Other(
                            String::from_str("protocol error; invalid frame format"),
                        ),
                    );
                }
                let n = len64 as usize;
                let data = match buffer.take(n) {
                    Ok(d) => d,
                    Err(e) => {
                        proof {
                            consumed_line_suffix(old(buffer).remaining(), buffer.remaining());
                        }
                        return Err(e);
                    },
                };
                match buffer.skip(2) {
                    Ok(()) => {},
                    Err(e) => {
                        proof {
                            let s = old(buffer).remaining();
                            let i = find_crlf(s)->Some_0;
                            assert(buffer.remaining() =~= s.skip(i + 2 + n));
                            lemma_suffix_skip(s, i + 2 + n);
                        }
                        return Err(e);
                    },
                }
                proof {
                    let s = old(buffer).remaining();
                    let i = find_crlf(s)->Some_0;
                    assert(data@ =~= s.subrange(i + 2, i + 2 + n));
                    assert(buffer.remaining() =~= s.skip(i + 2 + n + 2));
                }
                Ok(FrameSimple::Bulk(data))
            }
        } else {
            Err(FrameParseError::Incomplete)
        }
    }

    /// Appends the byte encoding of this frame to `out`.
    pub fn write(&self, out: &mut Vec<u8>)
        ensures
            final(out)@ == old(out)@ + encode_simple(self@),
    {
        match self {
            FrameSimple::Simple(v) => {
                out.push(43);
                extend_bytes(out, v);
                push_crlf(out);
                assert(out@ =~= old(out)@ + encode_simple(self@));
            },
            FrameSimple::Error(v) => {
                out.push(45);
                extend_bytes(out, v);
                push_crlf(out);
                assert(out@ =~= old(out)@ + encode_simple(self@));
            },
            FrameSimple::Integer(n) => {
                out.push(58);
                crate::decimal::push_dec_digits(*n, out);
                push_crlf(out);
                assert(out@ =~= old(out)@ + encode_simple(self@));
            },
            FrameSimple::Bulk(v) => {
                out.push(36);
                crate::decimal::push_dec_digits(v.len() as u64, out);
                push_crlf(out);
                extend_bytes(out, v);
                push_crlf(out);
                assert(out@ =~= old(out)@ + encode_simple(self@));
            },
            FrameSimple::Null => {
                out.push(36);
                out.push(45);
                out.push(49);
                out.push(13);
                out.push(10);
                assert(out@ =~= old(out)@ + encode_simple(self@));
            },
        }
    }
}

/// Appending one element extends the encoding of an element sequence.
proof fn lemma_encode_elts_push(vs: Seq<SimpleModel>, x: SimpleModel)
    ensures
        encode_elts(vs.push(x)) == encode_elts(vs) + encode_simple(x),
    decreases vs.len(),
{
    if vs.len() == 0 {
        assert(vs.push(x)[0] == x);
        assert(vs.push(x).skip(1) =~= Seq::<SimpleModel>::empty());
        assert(encode_elts(vs.push(x)) == encode_simple(x) + encode_elts(
            Seq::<SimpleModel>::empty(),
        ));
        assert(encode_elts(vs.push(x)) =~= encode_elts(vs) + encode_simple(x));
    } else {
        assert(vs.push(x)[0] == vs[0]);
        assert(vs.push(x).skip(1) =~= vs.skip(1).push(x));
        lemma_encode_elts_push(vs.skip(1), x);
        assert(encode_elts(vs.push(x)) == encode_simple(vs[0]) + encode_elts(vs.skip(1).push(x)));
        assert(encode_elts(vs.push(x)) =~= encode_elts(vs) + encode_simple(x));
    }
}

impl Frame {
    /// Parses one frame from the buffered bytes: the type byte, then the body.
    /// An array frame reads its element count and then that many non-array
    /// frames.
    pub fn parse(buffer: &mut BufferedStream) -> (r: Result<Frame, FrameParseError>)
        ensures
            match parse_frame(old(buffer).remaining()) {
                Parsed::Done { value, used } => r is Ok && r->Ok_0@ == value && final(buffer).remaining() == old(buffer).remaining().skip(used),
                Parsed::Incomplete => r is Err && r->Err_0 is Incomplete && is_suffix_of(
                    final(buffer).remaining(),
                    old(buffer).remaining(),
                ),
                Parsed::Bad => r is Err && r->Err_0 is Other && is_suffix_of(
                    final(buffer).remaining(),
                    old(buffer).remaining(),
                ),
            },
    {
        let ghost s0 = buffer.remaining();
        proof {
            lemma_suffix_skip(s0, 0);
            assert(s0.skip(0) =~= s0);
        }
        let t = match buffer.get_u8() {
            Ok(b) => b,
            Err(e) => {
                return Err(e);
            },
        };
        if t == 42 {
            let count64 = match buffer.get_decimal() {
                Ok(n) => n,
                // A short or malformed count line: wait for more bytes.
                Err(_) => {
                    proof {
                        crate::buffer::lemma_find_crlf(s0.skip(1));
                        match find_crlf(s0.skip(1)) {
                            Some(i) => {
                                if buffer.remaining() == s0.skip(1).skip(i + 2) {
                                    assert(buffer.remaining() =~= s0.skip(1 + i + 2));
                                    lemma_suffix_skip(s0, 1 + i + 2);
                                } else {
                                    assert(buffer.remaining() =~= s0.skip(1));
                                    lemma_suffix_skip(s0, 1);
                                }
                            },
                            None => {
                                assert(buffer.remaining() =~= s0.skip(1));
                                lemma_suffix_skip(s0, 1);
                            },
                        }
                    }
                    return Err(FrameParseError::Incomplete);
                },
            };
            proof {
                assert(s0.skip(1) == old(buffer).remaining().skip(1));
                crate::buffer::lemma_find_crlf(s0.skip(1));
            }
            if count64 > (usize::MAX as u64) {
                proof {
                    let i = find_crlf(s0.skip(1))->Some_0;
                    assert(buffer.remaining() =~= s0.skip(1 + i + 2));
                    lemma_suffix_skip(s0, 1 + i + 2);
                }
                return Err(
                    FrameParseError::Other(
                        String::from_str("protocol error; invalid frame format"),
                    ),
                );
            }
            let count = count64 as usize;
            let ghost i = find_crlf(s0.skip(1))->Some_0;
            let ghost header = 1 + i + 2;
            let ghost rem0 = buffer.remaining();
            proof {
                assert(rem0 =~= s0.skip(header));
                assert(parse_frame(s0) == lift_array(parse_elts(rem0, count as nat), header));
            }
            let mut out: Vec<FrameSimple> = Vec::new();
            let ghost mut consumed: int = 0;
            let mut idx: usize = 0;
            while idx < count
                invariant
                    s0 == old(buffer).remaining(),
                    0 <= idx <= count,
                    0 <= consumed,
                    buffer.remaining() == rem0.skip(consumed),
                    consumed <= rem0.len(),
                    rem0 == s0.skip(header),
                    1 <= header <= s0.len(),
                    parse_frame(s0) == lift_array(parse_elts(rem0, count as nat), header),
                    glue(
                        models_of(out@),
                        consumed,
                        parse_elts(buffer.remaining(), (count - idx) as nat),
                    ) == parse_elts(rem0, count as nat),
                decreases count - idx,
            {
                let ghost rem_i = buffer.remaining();
                let ghost k = (count - idx) as nat;
                let t2 = match buffer.get_u8() {
                    Ok(b) => b,
                    Err(e) => {
                        proof {
                            assert(parse_elts(rem_i, k) is Incomplete);
                            assert(buffer.remaining() =~= s0.skip(header + consumed));
                            lemma_suffix_skip(s0, header + consumed);
                        }
                        return Err(e);
                    },
                };
                let f = match FrameSimple::parse(t2, buffer) {
                    Ok(f) => f,
                    Err(e) => {
                        proof {
                            match parse_simple(rem_i[0], rem_i.skip(1)) {
                                Parsed::Done { value, used } => {
                                    assert(false);
                                },
                                Parsed::Incomplete => {
                                    assert(parse_elts(rem_i, k) is Incomplete);
                                },
                                Parsed::Bad => {
                                    assert(parse_elts(rem_i, k) is Bad);
                                },
                            }
                            let k2 = choose|k2: int|
                                0 <= k2 <= rem_i.skip(1).len() && buffer.remaining()
                                    == #[trigger] rem_i.skip(1).skip(k2);
                            assert(buffer.remaining() =~= s0.skip(header + consumed + 1 + k2));
                            lemma_suffix_skip(s0, header + consumed + 1 + k2);
                        }
                        return Err(e);
                    },
                };
                proof {
                    let v = parse_simple(rem_i[0], rem_i.skip(1))->Done_value;
                    let u = parse_simple(rem_i[0], rem_i.skip(1))->Done_used;
                    lemma_parse_simple_used(rem_i[0], rem_i.skip(1));
                    assert(f@ == v);
                    assert(buffer.remaining() =~= rem_i.skip(1 + u));
                    lemma_parse_elts_unfold(rem_i, k, v, u);
                    lemma_glue_assoc(models_of(out@), consumed, v, 1 + u, parse_elts(
                        rem_i.skip(1 + u),
                        (k - 1) as nat,
                    ));
                    assert(models_of(out@.push(f)) =~= models_of(out@).push(v));
                    consumed = consumed + 1 + u;
                    assert(consumed <= rem0.len());
                }
                out.push(f);
                idx = idx + 1;
            }
            proof {
                assert(parse_elts(buffer.remaining(), 0) == (Parsed::Done::<Seq<SimpleModel>> {
                    value: Seq::empty(),
                    used: 0,
                }));
                assert(models_of(out@) + Seq::empty() =~= models_of(out@));
                assert(glue(models_of(out@), consumed, parse_elts(buffer.remaining(), 0))
                    == (Parsed::Done::<Seq<SimpleModel>> {
                    value: models_of(out@),
                    used: consumed,
                }));
                assert(buffer.remaining() =~= s0.skip(header + consumed));
            }
            Ok(Frame::Array(out))
        } else {
            match FrameSimple::parse(t, buffer) {
                Ok(f) => {
                    proof {
                        let u = parse_simple(s0[0], s0.skip(1))->Done_used;
                        lemma_parse_simple_used(s0[0], s0.skip(1));
                        assert(buffer.remaining() =~= s0.skip(1 + u));
                    }
                    Ok(Frame::Simple(f))
                },
                Err(e) => {
                    proof {
                        if !(parse_simple(s0[0], s0.skip(1)) is Done) {
                            let k2 = choose|k2: int|
                                0 <= k2 <= s0.skip(1).len() && buffer.remaining()
                                    == #[trigger] s0.skip(1).skip(k2);
                            assert(buffer.remaining() =~= s0.skip(1 + k2));
                            lemma_suffix_skip(s0, 1 + k2);
                        }
                    }
                    Err(e)
                },
            }
        }
    }

    /// Appends the byte encoding of this frame to `out`.
    pub fn write(&self, out: &mut Vec<u8>)
        ensures
            final(out)@ == old(out)@ + encode_frame(self@),
    {
        match self {
            Frame::Simple(v) => {
                v.write(out);
            },
            Frame::Array(vs) => {
                out.push(42);
                crate::decimal::push_dec_digits(vs.len() as u64, out);
                push_crlf(out);
                let ghost header = out@;
                let mut i: usize = 0;
                while i < vs.len()
                    invariant
                        0 <= i <= vs@.len(),
                        out@ == header + encode_elts(models_of(vs@.take(i as int))),
                    decreases vs@.len() - i,
                {
                    vs[i].write(out);
                    proof {
                        assert(models_of(vs@.take(i + 1)) =~= models_of(vs@.take(i as int)).push(
                            vs@[i as int]@,
                        ));
                        lemma_encode_elts_push(models_of(vs@.take(i as int)), vs@[i as int]@);
                    }
                    i = i + 1;
                }
                proof {
                    assert(vs@.take(vs@.len() as int) =~= vs@);
                    assert(models_of(vs@) == self@->Array_0);
                    assert(out@ =~= old(out)@ + encode_frame(self@));
                }
            },
        }
    }
}

proof fn lemma_all_digits_no_crlf(s: Seq<u8>)
    requires
        all_digits(s),
    ensures
        no_crlf(s),
{
    assert forall|j: int| 0 <= j < s.len() - 1 implies !(#[trigger] s[j] == 13 && s[j + 1]
        == 10) by {
        assert(is_digit(s[j]));
    }
}

/// Parsing the encoding of a legal non-array frame, with any bytes behind it,
/// yields that frame back and uses exactly its encoding.
pub proof fn lemma_parse_encode_simple(v: SimpleModel, rest: Seq<u8>)
    requires
        simple_wf(v),
    ensures
        encode_simple(v).len() >= 3,
        parse_simple(encode_simple(v)[0], encode_simple(v).skip(1) + rest) == (
        Parsed::Done::<SimpleModel> { value: v, used: encode_simple(v).len() - 1 }),
{
    let e = encode_simple(v);
    let p = e.skip(1) + rest;
    match v {
        SimpleModel::Simple(s) => {
            assert(e[0] == 43);
            assert(p =~= s + seq![13u8, 10u8] + rest);
            crate::buffer::lemma_find_crlf_concat(s, rest);
            assert(p.take(s.len() as int) =~= s);
        },
        SimpleModel::Error(s) => {
            assert(e[0] == 45);
            assert(p =~= s + seq![13u8, 10u8] + rest);
            crate::buffer::lemma_find_crlf_concat(s, rest);
            assert(p.take(s.len() as int) =~= s);
        },
        SimpleModel::Integer(n) => {
            let d = dec_digits(n as nat);
            crate::decimal::lemma_dec_digits_value(n as nat);
            lemma_all_digits_no_crlf(d);
            assert(e[0] == 58);
            assert(p =~= d + seq![13u8, 10u8] + rest);
            crate::buffer::lemma_find_crlf_concat(d, rest);
            assert(p.take(d.len() as int) =~= d);
            assert(numeric_line(d));
            assert(dec_value(d) as u64 == n);
        },
        SimpleModel::Bulk(b) => {
            let d = dec_digits(b.len());
            crate::decimal::lemma_dec_digits_value(b.len());
            lemma_all_digits_no_crlf(d);
            assert(e[0] == 36);
            let after = b + seq![13u8, 10u8] + rest;
            assert(p =~= d + seq![13u8, 10u8] + after);
            crate::buffer::lemma_find_crlf_concat(d, after);
            let i = d.len() as int;
            assert(p.take(i) =~= d);
            assert(is_digit(d[0]));
            assert(p[0] != 45);
            assert(p.len() > 0);
            assert(numeric_line(d));
            let n = dec_value(d) as int;
            assert(n == b.len());
            assert(p.len() == d.len() + 2 + b.len() + 2 + rest.len());
            assert(p.subrange(i + 2, i + 2 + n) =~= b);
        },
        SimpleModel::Null => {
            assert(e =~= seq![36u8, 45u8, 49u8, 13u8, 10u8]);
            assert(e[0] == 36);
            assert(p =~= seq![45u8, 49u8] + seq![13u8, 10u8] + rest);
            assert(no_crlf(seq![45u8, 49u8]));
            crate::buffer::lemma_find_crlf_concat(seq![45u8, 49u8], rest);
            assert(p[0] == 45);
            assert(p.take(2) =~= seq![45u8, 49u8]);
        },
    }
}

/// Parsing the concatenated encodings of legal elements, with any bytes behind
/// them, yields the elements back.
pub proof fn lemma_parse_encode_elts(vs: Seq<SimpleModel>, rest: Seq<u8>)
    requires
        forall|i: int| 0 <= i < vs.len() ==> simple_wf(#[trigger] vs[i]),
    ensures
        parse_elts(encode_elts(vs) + rest, vs.len()) == (Parsed::Done::<Seq<SimpleModel>> {
            value: vs,
            used: encode_elts(vs).len() as int,
        }),
    decreases vs.len(),
{
    let s = encode_elts(vs) + rest;
    if vs.len() == 0 {
        assert(parse_elts(s, 0) =~= (Parsed::Done::<Seq<SimpleModel>> {
            value: vs,
            used: encode_elts(vs).len() as int,
        }));
    } else {
        let e0 = encode_simple(vs[0]);
        let tail = encode_elts(vs.skip(1));
        assert(encode_elts(vs) == e0 + tail);
        lemma_parse_encode_simple(vs[0], tail + rest);
        assert(e0.len() >= 3);
        assert(s.len() > 0);
        assert(s[0] == e0[0]);
        assert(s.skip(1) =~= e0.skip(1) + (tail + rest));
        let u = e0.len() - 1;
        assert(parse_simple(s[0], s.skip(1)) == (Parsed::Done::<SimpleModel> {
            value: vs[0],
            used: u,
        }));
        assert(s.skip(1 + u) =~= tail + rest);
        lemma_parse_encode_elts(vs.skip(1), rest);
        assert(parse_elts(s.skip(1 + u), (vs.len() - 1) as nat) == (
        Parsed::Done::<Seq<SimpleModel>> { value: vs.skip(1), used: tail.len() as int }));
        assert(seq![vs[0]] + vs.skip(1) =~= vs);
        assert(parse_elts(s, vs.len()) =~= (Parsed::Done::<Seq<SimpleModel>> {
            value: vs,
            used: encode_elts(vs).len() as int,
        }));
    }
}

/// Round trip: parsing the encoding of a legal frame, with any bytes behind
/// it, yields exactly that frame and uses exactly its encoding.
pub proof fn lemma_parse_encode_frame(f: FrameModel, rest: Seq<u8>)
    requires
        frame_wf(f),
    ensures
        parse_frame(encode_frame(f) + rest) == (Parsed::Done::<FrameModel> {
            value: f,
            used: encode_frame(f).len() as int,
        }),
{
    let e = encode_frame(f);
    let s = e + rest;
    match f {
        FrameModel::Simple(v) => {
            lemma_parse_encode_simple(v, rest);
            assert(s[0] == e[0]);
            match v {
                SimpleModel::Simple(p) => {
                    assert(e[0] == 43);
                },
                SimpleModel::Error(p) => {
                    assert(e[0] == 45);
                },
                SimpleModel::Integer(n) => {
                    assert(e[0] == 58);
                },
                SimpleModel::Bulk(b) => {
                    assert(e[0] == 36);
                },
                SimpleModel::Null => {
                    assert(e[0] == 36);
                },
            }
            assert(s[0] != 42);
            assert(s.skip(1) =~= e.skip(1) + rest);
        },
        FrameModel::Array(vs) => {
            let d = dec_digits(vs.len());
            crate::decimal::lemma_dec_digits_value(vs.len());
            lemma_all_digits_no_crlf(d);
            let enc = encode_elts(vs);
            assert(e == seq![42u8] + d + crlf() + enc);
            assert(s[0] == 42);
            assert(s.skip(1) =~= d + seq![13u8, 10u8] + (enc + rest));
            crate::buffer::lemma_find_crlf_concat(d, enc + rest);
            let i = d.len() as int;
            assert(s.skip(1).take(i) =~= d);
            assert(numeric_line(d));
            assert(dec_value(d) == vs.len());
            assert(s.skip(1 + i + 2) =~= enc + rest);
            lemma_parse_encode_elts(vs, rest);
            assert(parse_frame(s) =~= (Parsed::Done::<FrameModel> {
                value: f,
                used: e.len() as int,
            }));
        },
    }
}

/// Round trip without trailing bytes.
pub proof fn lemma_frame_round_trip(f: FrameModel)
    requires
        frame_wf(f),
    ensures
        parse_frame(encode_frame(f)) == (Parsed::Done::<FrameModel> {
            value: f,
            used: encode_frame(f).len() as int,
        }),
{
    lemma_parse_encode_frame(f, Seq::empty());
    assert(encode_frame(f) + Seq::<u8>::empty() =~= encode_frame(f));
}

proof fn lemma_parse_simple_prefix(v: SimpleModel, k: int)
    requires
        simple_wf(v),
        1 <= k < encode_simple(v).len(),
    ensures
        parse_simple(encode_simple(v)[0], encode_simple(v).skip(1).take(k - 1))
            == Parsed::<SimpleModel>::Incomplete,
{
    let e = encode_simple(v);
    let full = e.skip(1);
    let p = full.take(k - 1);
    lemma_parse_encode_simple(v, Seq::empty());
    assert(full + Seq::<u8>::empty() =~= full);
    match v {
        SimpleModel::Simple(s) => {
            assert(full =~= s + seq![13u8, 10u8]);
            crate::buffer::lemma_find_crlf_concat(s, Seq::empty());
            assert(find_crlf(full) == Some(s.len() as int));
            crate::buffer::lemma_find_crlf_take(full, k - 1);
        },
        SimpleModel::Error(s) => {
            assert(full =~= s + seq![13u8, 10u8]);
            crate::buffer::lemma_find_crlf_concat(s, Seq::empty());
            crate::buffer::lemma_find_crlf_take(full, k - 1);
        },
        SimpleModel::Integer(n) => {
            let d = dec_digits(n as nat);
            crate::decimal::lemma_dec_digits_value(n as nat);
            lemma_all_digits_no_crlf(d);
            assert(full =~= d + seq![13u8, 10u8]);
            crate::buffer::lemma_find_crlf_concat(d, Seq::empty());
            crate::buffer::lemma_find_crlf_take(full, k - 1);
        },
        SimpleModel::Null => {
            assert(full =~= seq![45u8, 49u8] + seq![13u8, 10u8]);
            assert(no_crlf(seq![45u8, 49u8]));
            crate::buffer::lemma_find_crlf_concat(seq![45u8, 49u8], Seq::empty());
            assert(find_crlf(full) == Some(2int));
            crate::buffer::lemma_find_crlf_take(full, k - 1);
            if k - 1 > 0 {
                assert(p[0] == 45);
            }
        },
        SimpleModel::Bulk(b) => {
            let d = dec_digits(b.len());
            crate::decimal::lemma_dec_digits_value(b.len());
            lemma_all_digits_no_crlf(d);
            let i = d.len() as int;
            assert(full =~= d + seq![13u8, 10u8] + (b + seq![13u8, 10u8]));
            crate::buffer::lemma_find_crlf_concat(d, b + seq![13u8, 10u8]);
            assert(find_crlf(full) == Some(i));
            crate::buffer::lemma_find_crlf_take(full, k - 1);
            if k - 1 > 0 {
                assert(p[0] == full[0]);
                assert(full[0] == d[0]);
                assert(is_digit(d[0]));
                assert(p[0] != 45);
                if k - 1 >= i + 2 {
                    assert(find_crlf(p) == Some(i));
                    assert(p.take(i) =~= full.take(i));
                    assert(full.take(i) =~= d);
                    assert(numeric_line(d));
                    assert(p.len() == k - 1 < full.len());
                    assert(full.len() == i + 2 + b.len() + 2);
                    assert(p.len() < i + 2 + dec_value(d) + 2);
                }
            }
        },
    }
}

proof fn lemma_parse_elts_prefix(vs: Seq<SimpleModel>, k: int)
    requires
        forall|i: int| 0 <= i < vs.len() ==> simple_wf(#[trigger] vs[i]),
        0 <= k < encode_elts(vs).len(),
    ensures
        parse_elts(encode_elts(vs).take(k), vs.len()) == Parsed::<Seq<SimpleModel>>::Incomplete,
    decreases vs.len(),
{
    let enc = encode_elts(vs);
    let p = enc.take(k);
    assert(vs.len() > 0);
    let e0 = encode_simple(vs[0]);
    let tail = encode_elts(vs.skip(1));
    assert(enc == e0 + tail);
    lemma_parse_encode_simple(vs[0], Seq::empty());
    if k == 0 {
        assert(p.len() == 0);
    } else if k < e0.len() {
        assert(p[0] == e0[0]);
        assert(p.skip(1) =~= e0.skip(1).take(k - 1));
        lemma_parse_simple_prefix(vs[0], k);
    } else {
        let rest = tail.take(k - e0.len());
        assert(p.skip(1) =~= e0.skip(1) + rest);
        lemma_parse_encode_simple(vs[0], rest);
        assert(p[0] == e0[0]);
        let u = e0.len() - 1;
        assert(parse_simple(p[0], p.skip(1)) == (Parsed::Done::<SimpleModel> {
            value: vs[0],
            used: u,
        }));
        assert(p.skip(1 + u) =~= rest);
        assert(k - e0.len() < tail.len());
        lemma_parse_elts_prefix(vs.skip(1), k - e0.len());
        assert(parse_elts(p.skip(1 + u), (vs.len() - 1) as nat)
            == Parsed::<Seq<SimpleModel>>::Incomplete);
    }
}

/// Incremental delivery: any strict prefix of a legal frame's encoding parses
/// as `Incomplete`, so a reader that has only part of the bytes waits for the
/// rest instead of failing; together with the round trip this means a frame
/// split at any byte boundary parses, once complete, exactly as if it had
/// arrived whole.
pub proof fn lemma_parse_prefix_incomplete(f: FrameModel, k: int)
    requires
        frame_wf(f),
        0 <= k < encode_frame(f).len(),
    ensures
        parse_frame(encode_frame(f).take(k)) == Parsed::<FrameModel>::Incomplete,
{
    let e = encode_frame(f);
    let p = e.take(k);
    if k == 0 {
        assert(p.len() == 0);
    } else {
        match f {
            FrameModel::Simple(v) => {
                assert(p[0] == e[0]);
                lemma_parse_encode_simple(v, Seq::empty());
                match v {
                    SimpleModel::Simple(s) => {
                        assert(e[0] == 43);
                    },
                    SimpleModel::Error(s) => {
                        assert(e[0] == 45);
                    },
                    SimpleModel::Integer(n) => {
                        assert(e[0] == 58);
                    },
                    SimpleModel::Bulk(b) => {
                        assert(e[0] == 36);
                    },
                    SimpleModel::Null => {
                        assert(e[0] == 36);
                    },
                }
                assert(p[0] != 42);
                assert(p.skip(1) =~= e.skip(1).take(k - 1));
                lemma_parse_simple_prefix(v, k);
            },
            FrameModel::Array(vs) => {
                let d = dec_digits(vs.len());
                crate::decimal::lemma_dec_digits_value(vs.len());
                lemma_all_digits_no_crlf(d);
                let enc = encode_elts(vs);
                let i = d.len() as int;
                assert(e == seq![42u8] + d + crlf() + enc);
                assert(p[0] == 42);
                let full = d + seq![13u8, 10u8] + enc;
                assert(e.skip(1) =~= full);
                assert(p.skip(1) =~= full.take(k - 1));
                crate::buffer::lemma_find_crlf_concat(d, enc);
                assert(find_crlf(full) == Some(i));
                crate::buffer::lemma_find_crlf_take(full, k - 1);
                if k - 1 >= i + 2 {
                    assert(find_crlf(p.skip(1)) == Some(i));
                    assert(p.skip(1).take(i) =~= full.take(i));
                    assert(full.take(i) =~= d);
                    assert(numeric_line(d));
                    assert(dec_value(d) == vs.len());
                    let kk = k - 1 - i - 2;
                    assert(p.skip(1 + i + 2) =~= enc.take(kk));
                    assert(kk < enc.len());
                    lemma_parse_elts_prefix(vs, kk);
                }
            },
        }
    }
}

} // verus!
