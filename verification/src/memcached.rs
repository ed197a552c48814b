//! The line-oriented cache protocol: `get <key>` and
//! `set <key> <flags> <exptime>` followed by a data line, answered with
//! `VALUE`/`END`/`STORED` lines. It shares the buffered reader and the
//! sharded single-owner store design of the binary protocol.
use crate::buffer::{find_crlf, BufferedStream};
use crate::decimal::{all_digits, dec_digits, dec_value, parse_decimal};
use crate::frame::Parsed;
use vstd::prelude::*;

verus! {

/// The position of the first `b` in `s`, if any.
pub open spec fn find_byte(s: Seq<u8>, b: u8) -> Option<int>
    decreases s.len(),
{
    if s.len() == 0 {
        None
    } else if s[0] == b {
        Some(0)
    } else {
        match find_byte(s.skip(1), b) {
            Some(i) => Some(i + 1),
            None => None,
        }
    }
}

/// What `find_byte` finds is the first occurrence; when it finds nothing
/// there is none.
pub proof fn lemma_find_byte(s: Seq<u8>, b: u8)
    ensures
        match find_byte(s, b) {
            Some(i) => 0 <= i < s.len() && s[i] == b && (forall|j: int|
                0 <= j < i ==> #[trigger] s[j] != b),
            None => forall|j: int| 0 <= j < s.len() ==> #[trigger] s[j] != b,
        },
    decreases s.len(),
{
    if s.len() == 0 {
    } else if s[0] == b {
    } else {
        lemma_find_byte(s.skip(1), b);
        match find_byte(s.skip(1), b) {
            Some(i) => {
                assert forall|j: int| 0 <= j < i + 1 implies #[trigger] s[j] != b by {
                    if j > 0 {
                        assert(s.skip(1)[j - 1] == s[j]);
                    }
                }
            },
            None => {
                assert forall|j: int| 0 <= j < s.len() implies #[trigger] s[j] != b by {
                    if j > 0 {
                        assert(s.skip(1)[j - 1] == s[j]);
                    }
                }
            },
        }
    }
}

/// The line split at every space; consecutive spaces yield empty tokens, and
/// there is always at least one token.
pub open spec fn split_spaces(s: Seq<u8>) -> Seq<Seq<u8>>
    decreases s.len(),
    via split_spaces_dec
{
    match find_byte(s, 32) {
        None => seq![s],
        Some(i) => seq![s.take(i)] + split_spaces(s.skip(i + 1)),
    }
}

#[via_fn]
proof fn split_spaces_dec(s: Seq<u8>) {
    lemma_find_byte(s, 32);
}

fn copy_range(v: &Vec<u8>, a: usize, b: usize) -> (r: Vec<u8>)
    requires
        a <= b <= v@.len(),
    ensures
        r@ == v@.subrange(a as int, b as int),
{
    let mut out: Vec<u8> = Vec::new();
    let mut i: usize = a;
    while i < b
        invariant
            a <= i <= b <= v@.len(),
            out@ == v@.subrange(a as int, i as int),
        decreases b - i,
    {
        out.push(v[i]);
        proof {
            assert(out@ =~= v@.subrange(a as int, i + 1));
        }
        i = i + 1;
    }
    out
}

/// The tokens of `line` from position `from` on.
fn split_from(line: &Vec<u8>, from: usize) -> (r: Vec<Vec<u8>>)
    requires
        from <= line@.len(),
    ensures
        r.deep_view() == split_spaces(line@.skip(from as int)),
    decreases line@.len() - from,
{
    let s = Ghost(line@.skip(from as int));
    proof {
        lemma_find_byte(s@, 32);
    }
    let mut i: usize = from;
    while i < line.len()
        invariant
            from <= i <= line@.len(),
            s@ == line@.skip(from as int),
            forall|j: int| 0 <= j < i - from ==> #[trigger] s@[j] != 32,
        decreases line@.len() - i,
    {
        proof {
            assert(s@[i - from] == line@[i as int]);
        }
        if line[i] == 32 {
            proof {
                lemma_find_byte(s@, 32);
                match find_byte(s@, 32) {
                    Some(k) => {
                        if k < i - from {
                            assert(s@[k] != 32);
                            assert(false);
                        } else if k > i - from {
                            lemma_find_byte(s@, 32);
                            assert(false);
                        }
                    },
                    None => {
                        lemma_find_byte(s@, 32);
                        assert(false);
                    },
                }
            }
            let head = copy_range(line, from, i);
            let mut rest = split_from(line, i + 1);
            let mut out: Vec<Vec<u8>> = Vec::new();
            out.push(head);
            out.append(&mut rest);
            proof {
                let k = (i - from) as int;
                assert(head@ =~= s@.take(k));
                assert(line@.skip(i + 1) =~= s@.skip(k + 1));
                assert(out.deep_view() =~~= seq![s@.take(k)] + split_spaces(s@.skip(k + 1)));
            }
            return out;
        }
        i = i + 1;
    }
    proof {
        lemma_find_byte(s@, 32);
        match find_byte(s@, 32) {
            Some(k) => {
                assert(s@[k] != 32);
                assert(false);
            },
            None => {},
        }
    }
    let whole = copy_range(line, from, line.len());
    let mut out: Vec<Vec<u8>> = Vec::new();
    out.push(whole);
    proof {
        assert(whole@ =~= s@);
        assert(out.deep_view() =~~= seq![s@]);
    }
    out
}

#[derive(Clone, Debug)]
pub enum Request {
    Get(Vec<u8>),
    Store(Vec<u8>, u16, u64, Vec<u8>, bool),
}

/// The mathematical shape of a request.
pub enum RequestModel {
    Get(Seq<u8>),
    Store(Seq<u8>, u16, u64, Seq<u8>, bool),
}

impl View for Request {
    type V = RequestModel;

    open spec fn view(&self) -> RequestModel {
        match self {
            Request::Get(k) => RequestModel::Get(k@),
            Request::Store(k, flags, exptime, data, noreply) => RequestModel::Store(
                k@,
                *flags,
                *exptime,
                data@,
                *noreply,
            ),
        }
    }
}

#[derive(Debug)]
pub enum RequestParseError {
    /// Not enough bytes yet; more input may complete the request.
    Incomplete,
    /// A terminal protocol violation.
    Other(String),
}

/// The token `get`.
pub open spec fn tok_get() -> Seq<u8> {
    seq![103u8, 101u8, 116u8]
}

/// The token `set`.
pub open spec fn tok_set() -> Seq<u8> {
    seq![115u8, 101u8, 116u8]
}

/// The token `noreply`.
pub open spec fn tok_noreply() -> Seq<u8> {
    seq![110u8, 111u8, 114u8, 101u8, 112u8, 108u8, 121u8]
}

/// A token spelling a number that fits the given bound.
pub open spec fn numeric_token(t: Seq<u8>, bound: nat) -> bool {
    t.len() > 0 && all_digits(t) && dec_value(t) <= bound
}

/// Parsing one request from the buffered bytes: a command line, and for `set`
/// one further data line. A missing line is the retryable shortage; a command
/// line with missing or malformed fields, or an unknown command, is terminal.
pub open spec fn parse_request(s: Seq<u8>) -> Parsed<RequestModel> {
    match find_crlf(s) {
        None => Parsed::Incomplete,
        Some(i) => {
            let toks = split_spaces(s.take(i));
            if toks[0] == tok_get() {
                if toks.len() < 2 {
                    Parsed::Bad
                } else {
                    Parsed::Done { value: RequestModel::Get(toks[1]), used: i + 2 }
                }
            } else if toks[0] == tok_set() {
                if toks.len() < 4 {
                    Parsed::Bad
                } else if !numeric_token(toks[2], u16::MAX as nat) {
                    Parsed::Bad
                } else if !numeric_token(toks[3], u64::MAX as nat) {
                    Parsed::Bad
                } else {
                    match find_crlf(s.skip(i + 2)) {
                        None => Parsed::Incomplete,
                        Some(j) => Parsed::Done {
                            value: RequestModel::Store(
                                toks[1],
                                dec_value(toks[2]) as u16,
                                dec_value(toks[3]) as u64,
                                s.skip(i + 2).take(j),
                                toks.len() >= 6 && toks[5] == tok_noreply(),
                            ),
                            used: i + 2 + j + 2,
                        },
                    }
                }
            } else {
                Parsed::Bad
            }
        },
    }
}

impl Request {
    /// Reads one request off the buffered stream.
    pub fn parse(buffer: &mut BufferedStream) -> (r: Result<Request, RequestParseError>)
        ensures
            match parse_request(old(buffer).remaining()) {
                Parsed::Done { value, used } => r is Ok && r->Ok_0@ == value && final(buffer).remaining() == old(buffer).remaining().skip(used),
                Parsed::Incomplete => r is Err && r->Err_0 is Incomplete,
                Parsed::Bad => r is Err && r->Err_0 is Other,
            },
    {
        let raw_line = match buffer.get_line() {
            Ok(l) => l,
            Err(_) => {
                return Err(RequestParseError::Incomplete);
            },
        };
        let toks = split_from(&raw_line, 0);
        proof {
            assert(raw_line@.skip(0) =~= raw_line@);
            assert(split_spaces(raw_line@).len() > 0);
            assert(toks.deep_view().len() == toks@.len());
            assert(forall|j: int|
                0 <= j < toks@.len() ==> toks.deep_view()[j] == (#[trigger] toks@[j])@);
        }
        // The two command tokens, as bytes: get and set.
        let g: Vec<u8> = vec![103u8, 101u8, 116u8];
        let st: Vec<u8> = vec![115u8, 101u8, 116u8];
        proof {
            assert(g@ =~= tok_get());
            assert(st@ =~= tok_set());
        }
        if toks[0] == g {
            if toks.len() < 2 {
                return Err(
                    RequestParseError::Other(
                        String::from_str("protocol error; invalid request format"),
                    ),
                );
            }
            let key = copy_range(&toks[1], 0, toks[1].len());
            proof {
                assert(toks@[0]@ =~= tok_get());
                assert(key@ =~= toks.deep_view()[1]);
            }
            Ok(Request::Get(key))
        } else if toks[0] == st {
            if toks.len() < 4 {
                return Err(
                    RequestParseError::Other(
                        String::from_str("protocol error; invalid request format"),
                    ),
                );
            }
            let flags64 = match parse_decimal(&toks[2]) {
                Some(v) => v,
                None => {
                    return Err(
                        RequestParseError::Other(
                            String::from_str("protocol error; invalid request format"),
                        ),
                    );
                },
            };
            if flags64 > (u16::MAX as u64) {
                return Err(
                    RequestParseError::Other(
                        String::from_str("protocol error; invalid request format"),
                    ),
                );
            }
            let flags = flags64 as u16;
            let exptime = match parse_decimal(&toks[3]) {
                Some(v) => v,
                None => {
                    return Err(
                        RequestParseError::Other(
                            String::from_str("protocol error; invalid request format"),
                        ),
                    );
                },
            };
            let data = match buffer.get_line() {
                Ok(d) => d,
                Err(_) => {
                    proof {
                        let s0 = old(buffer).remaining();
                        assert(find_crlf(s0) is Some);
                        let i = find_crlf(s0)->Some_0;
                        assert(raw_line@ == s0.take(i));
                        assert(toks.deep_view() == split_spaces(s0.take(i)));
                        assert(toks.deep_view()[0] == tok_set());
                        assert(toks.deep_view().len() >= 4);
                        assert(numeric_token(toks.deep_view()[2], u16::MAX as nat));
                        assert(numeric_token(toks.deep_view()[3], u64::MAX as nat));
                        assert(find_crlf(s0.skip(i + 2)) is None);
                        assert(parse_request(s0) is Incomplete);
                    }
                    return Err(RequestParseError::Incomplete);
                },
            };
            let key = copy_range(&toks[1], 0, toks[1].len());
            let nr: Vec<u8> = vec![110u8, 111u8, 114u8, 101u8, 112u8, 108u8, 121u8];
            proof {
                assert(nr@ =~= tok_noreply());
                assert(key@ =~= toks.deep_view()[1]);
            }
            let noreply = toks.len() >= 6 && toks[5] == nr;
            proof {
                if toks@.len() >= 6 {
                    assert(toks.deep_view()[5] == toks@[5]@);
                }
                let s0 = old(buffer).remaining();
                crate::buffer::lemma_find_crlf(s0);
                let i = find_crlf(s0)->Some_0;
                crate::buffer::lemma_find_crlf(s0.skip(i + 2));
                let j = find_crlf(s0.skip(i + 2))->Some_0;
                assert(buffer.remaining() =~= s0.skip(i + 2 + j + 2));
            }
            proof {
                let s0 = old(buffer).remaining();
                let i = find_crlf(s0)->Some_0;
                let j = find_crlf(s0.skip(i + 2))->Some_0;
                let toksv = split_spaces(s0.take(i));
                assert(toksv == toks.deep_view());
                assert(key@ == toksv[1]);
                assert(flags == dec_value(toksv[2]) as u16);
                assert(exptime == dec_value(toksv[3]) as u64);
                assert(data@ == s0.skip(i + 2).take(j));
                if toksv.len() >= 6 {
                    if noreply {
                        assert(toks@[5]@ =~= nr@);
                        assert(toksv[5] == tok_noreply());
                    } else if toksv[5] == tok_noreply() {
                        assert(toks@[5]@.len() == nr@.len());
                        assert(forall|q: int| 0 <= q < nr@.len() ==> toks@[5]@[q] == nr@[q]);
                        assert(false);
                    }
                }
                assert(noreply == (toksv.len() >= 6 && toksv[5] == tok_noreply()));
                assert(toksv[0] =~= tok_set());
                assert(toksv[0] != tok_get()) by {
                    if toksv[0] == tok_get() {
                        assert(toks@[0]@[0] == 103u8 && toks@[0]@[0] == 115u8);
                    }
                }
                assert(parse_request(s0) == (Parsed::Done::<RequestModel> {
                    value: RequestModel::Store(
                        toksv[1],
                        dec_value(toksv[2]) as u16,
                        dec_value(toksv[3]) as u64,
                        s0.skip(i + 2).take(j),
                        toksv.len() >= 6 && toksv[5] == tok_noreply(),
                    ),
                    used: i + 2 + j + 2,
                }));
            }
            Ok(Request::Store(key, flags, exptime, data, noreply))
        } else {
            Err(RequestParseError::Other(String::from_str("Unknown command")))
        }
    }
}

/// The connection-level error type of this protocol: a message, a request
/// parse failure, or an I/O failure reported by the driver.
#[derive(Debug)]
pub enum Error {
    Other(String),
    RequestParseError(RequestParseError),
    IO(String),
}

#[derive(Clone, Debug)]
pub enum Response {
    Stored,
    Quiet,
    End,
    Value(Vec<u8>, u16, Vec<u8>),
}

/// The mathematical shape of a response.
pub enum ResponseModel {
    Stored,
    Quiet,
    End,
    Value(Seq<u8>, u16, Seq<u8>),
}

impl View for Response {
    type V = ResponseModel;

    open spec fn view(&self) -> ResponseModel {
        match self {
            Response::Stored => ResponseModel::Stored,
            Response::Quiet => ResponseModel::Quiet,
            Response::End => ResponseModel::End,
            Response::Value(k, flags, data) => ResponseModel::Value(k@, *flags, data@),
        }
    }
}

/// The bytes `END` and the line end.
pub open spec fn end_line() -> Seq<u8> {
    seq![69u8, 78u8, 68u8, 13u8, 10u8]
}

/// The byte encoding of a response. `Quiet` writes nothing: it answers a
/// `noreply` store.
pub open spec fn encode_response(r: ResponseModel) -> Seq<u8> {
    match r {
        ResponseModel::Stored => seq![83u8, 84u8, 79u8, 82u8, 69u8, 68u8, 13u8, 10u8],
        ResponseModel::Quiet => Seq::empty(),
        ResponseModel::End => end_line(),
        ResponseModel::Value(k, flags, data) => seq![86u8, 65u8, 76u8, 85u8, 69u8, 32u8] + k + seq![
            32u8,
        ] + dec_digits(flags as nat) + seq![32u8] + dec_digits(data.len()) + seq![32u8, 13u8, 10u8]
            + data + end_line(),
    }
}

impl Response {
    /// Appends the byte encoding of this response to `out`.
    #[verifier::rlimit(50)]
    pub fn write(&self, out: &mut Vec<u8>)
        ensures
            final(out)@ == old(out)@ + encode_response(self@),
    {
        match self {
            Response::Stored => {
                out.push(83);
                out.push(84);
                out.push(79);
                out.push(82);
                out.push(69);
                out.push(68);
                out.push(13);
                out.push(10);
                assert(out@ =~= old(out)@ + encode_response(self@));
            },
            Response::Quiet => {
                assert(out@ =~= old(out)@ + encode_response(self@));
            },
            Response::End => {
                out.push(69);
                out.push(78);
                out.push(68);
                out.push(13);
                out.push(10);
                assert(out@ =~= old(out)@ + encode_response(self@));
            },
            Response::Value(k, flags, data) => {
                out.push(86);
                out.push(65);
                out.push(76);
                out.push(85);
                out.push(69);
                out.push(32);
                let mut i: usize = 0;
                let ghost mid = out@;
                while i < k.len()
                    invariant
                        0 <= i <= k@.len(),
                        out@ == mid + k@.take(i as int),
                    decreases k@.len() - i,
                {
                    out.push(k[i]);
                    proof {
                        assert(out@ =~= mid + k@.take(i + 1));
                    }
                    i = i + 1;
                }
                proof {
                    assert(k@.take(k@.len() as int) =~= k@);
                }
                out.push(32);
                crate::decimal::push_dec_digits(*flags as u64, out);
                out.push(32);
                crate::decimal::push_dec_digits(data.len() as u64, out);
                out.push(32);
                out.push(13);
                out.push(10);
                let mut j: usize = 0;
                let ghost mid2 = out@;
                while j < data.len()
                    invariant
                        0 <= j <= data@.len(),
                        out@ == mid2 + data@.take(j as int),
                    decreases data@.len() - j,
                {
                    out.push(data[j]);
                    proof {
                        assert(out@ =~= mid2 + data@.take(j + 1));
                    }
                    j = j + 1;
                }
                proof {
                    assert(data@.take(data@.len() as int) =~= data@);
                }
                out.push(69);
                out.push(78);
                out.push(68);
                out.push(13);
                out.push(10);
                assert(out@ =~= old(out)@ + encode_response(self@));
            },
        }
    }
}


/// The mapping an entry list denotes; a later entry for a key overrides an
/// earlier one.
pub open spec fn cache_map(entries: Seq<(Vec<u8>, (u16, Vec<u8>))>) -> Map<Seq<u8>, (u16, Seq<u8>)>
    decreases entries.len(),
{
    if entries.len() == 0 {
        Map::empty()
    } else {
        cache_map(entries.drop_last()).insert(
            entries.last().0@,
            (entries.last().1.0, entries.last().1.1@),
        )
    }
}

/// One shard's private store: key bytes to flags and data, owned by exactly
/// one consumer.
pub struct CacheStore {
    entries: Vec<(Vec<u8>, (u16, Vec<u8>))>,
}

impl View for CacheStore {
    type V = Map<Seq<u8>, (u16, Seq<u8>)>;

    closed spec fn view(&self) -> Map<Seq<u8>, (u16, Seq<u8>)> {
        cache_map(self.entries@)
    }
}

impl CacheStore {
    pub fn new() -> (r: CacheStore)
        ensures
            r@ == Map::<Seq<u8>, (u16, Seq<u8>)>::empty(),
    {
        CacheStore { entries: Vec::new() }
    }

    /// Answers one request: a store inserts unconditionally and replies
    /// `Stored`, or nothing at all under `noreply`; a lookup replies the
    /// stored flags and data, or `End` when the key is absent.
    pub fn apply(&mut self, request: Request) -> (r: Response)
        ensures
            match request@ {
                RequestModel::Store(k, flags, exptime, data, noreply) => final(self)@ == old(
                    self,
                )@.insert(k, (flags, data)) && r@ == (if noreply {
                    ResponseModel::Quiet
                } else {
                    ResponseModel::Stored
                }),
                RequestModel::Get(k) => *final(self) == *old(self) && r@ == (if old(
                    self,
                )@.contains_key(k) {
                    ResponseModel::Value(k, old(self)@[k].0, old(self)@[k].1)
                } else {
                    ResponseModel::End
                }),
            },
    {
        match request {
            Request::Store(key, flags, _exptime, data, noreply) => {
                self.entries.push((key, (flags, data)));
                proof {
                    assert(self.entries@.drop_last() =~= old(self).entries@);
                }
                if noreply {
                    Response::Quiet
                } else {
                    Response::Stored
                }
            },
            Request::Get(key) => {
                proof {
                    assert(self.entries@.take(self.entries@.len() as int) =~= self.entries@);
                }
                let mut i: usize = self.entries.len();
                while i > 0
                    invariant
                        *self == *old(self),
                        request@ == RequestModel::Get(key@),
                        0 <= i <= self.entries@.len(),
                        self@.contains_key(key@) == cache_map(
                            self.entries@.take(i as int),
                        ).contains_key(key@),
                        self@.contains_key(key@) ==> self@[key@] == cache_map(
                            self.entries@.take(i as int),
                        )[key@],
                    decreases i,
                {
                    let pair = &self.entries[i - 1];
                    proof {
                        assert(self.entries@.take(i as int).drop_last() =~= self.entries@.take(
                            i - 1,
                        ));
                        assert(self.entries@.take(i as int).last() == self.entries@[i - 1]);
                    }
                    if pair.0 == key {
                        proof {
                            assert(pair.0@ == key@);
                            assert(cache_map(self.entries@.take(i as int)) == cache_map(
                                self.entries@.take(i - 1),
                            ).insert(pair.0@, (pair.1.0, pair.1.1@)));
                            assert(cache_map(self.entries@.take(i as int)).contains_key(key@));
                            assert(cache_map(self.entries@.take(i as int))[key@] == (
                                pair.1.0,
                                pair.1.1@,
                            ));
                        }
                        let flags = pair.1.0;
                        let data = copy_range(&pair.1.1, 0, pair.1.1.len());
                        proof {
                            assert(data@ =~= pair.1.1@);
                            assert(old(self)@.contains_key(key@));
                            assert(old(self)@[key@] == (pair.1.0, pair.1.1@));
                            assert(old(self)@[key@].0 == flags);
                            assert(old(self)@[key@].1 == data@);
                            assert(request@ == RequestModel::Get(key@));
                            assert(*self == *old(self));
                        }
                        return Response::Value(key, flags, data);
                    }
                    proof {
                        assert(cache_map(self.entries@.take(i as int)) == cache_map(
                            self.entries@.take(i - 1),
                        ).insert(pair.0@, (pair.1.0, pair.1.1@)));
                    }
                    i = i - 1;
                }
                proof {
                    assert(self.entries@.take(0) =~= Seq::<(Vec<u8>, (u16, Vec<u8>))>::empty());
                }
                Response::End
            },
        }
    }
}

/// The state of every cache shard, and one request's effect on it.
pub struct CacheStep {
    pub shards: Seq<Map<Seq<u8>, (u16, Seq<u8>)>>,
    pub reply: ResponseModel,
}

/// What one request does to the sharded caches: it touches exactly the shard
/// its key hashes to, with the same routing function as the binary protocol.
pub open spec fn cache_step(shards: Seq<Map<Seq<u8>, (u16, Seq<u8>)>>, req: RequestModel) -> CacheStep {
    match req {
        RequestModel::Store(k, flags, exptime, data, noreply) => {
            let i = crate::backend::spec_shard_index(k);
            CacheStep {
                shards: shards.update(i, shards[i].insert(k, (flags, data))),
                reply: if noreply {
                    ResponseModel::Quiet
                } else {
                    ResponseModel::Stored
                },
            }
        },
        RequestModel::Get(k) => {
            let i = crate::backend::spec_shard_index(k);
            CacheStep {
                shards,
                reply: if shards[i].contains_key(k) {
                    ResponseModel::Value(k, shards[i][k].0, shards[i][k].1)
                } else {
                    ResponseModel::End
                },
            }
        },
    }
}

/// The fixed set of cache shards and their routing.
pub struct CacheBackend {
    stores: Vec<CacheStore>,
}

impl CacheBackend {
    /// The mapping each shard currently holds.
    pub closed spec fn shards(&self) -> Seq<Map<Seq<u8>, (u16, Seq<u8>)>> {
        self.stores@.map_values(|s: CacheStore| s@)
    }

    /// The full set of shards exists.
    pub open spec fn wf(&self) -> bool {
        self.shards().len() == crate::backend::NUM_SHARDS
    }

    pub fn new() -> (r: CacheBackend)
        ensures
            r.wf(),
            forall|i: int|
                0 <= i < crate::backend::NUM_SHARDS ==> r.shards()[i] == Map::<
                    Seq<u8>,
                    (u16, Seq<u8>),
                >::empty(),
    {
        let mut stores: Vec<CacheStore> = Vec::new();
        let mut i: usize = 0;
        while i < 128
            invariant
                0 <= i <= 128,
                stores@.len() == i,
                forall|j: int|
                    0 <= j < i ==> (#[trigger] stores@[j])@ == Map::<
                        Seq<u8>,
                        (u16, Seq<u8>),
                    >::empty(),
            decreases 128 - i,
        {
            stores.push(CacheStore::new());
            i = i + 1;
        }
        CacheBackend { stores }
    }

    /// Routes one request to the shard its key hashes to and hands back the
    /// shard's reply.
    pub fn process(&mut self, request: Request) -> (r: Response)
        requires
            old(self).wf(),
        ensures
            final(self).wf(),
            final(self).shards() == cache_step(old(self).shards(), request@).shards,
            r@ == cache_step(old(self).shards(), request@).reply,
    {
        let ghost reqm = request@;
        let idx = match &request {
            Request::Get(k) => crate::backend::Backend::select_kvs(k),
            Request::Store(k, _, _, _, _) => crate::backend::Backend::select_kvs(k),
        };
        let ghost pre = self.shards();
        let reply = self.stores[idx].apply(request);
        proof {
            assert(self.shards() =~= pre.update(idx as int, self.stores@[idx as int]@));
            match reqm {
                RequestModel::Get(k) => {
                    assert(self.stores@[idx as int]@ == pre[idx as int]);
                    assert(self.shards() =~= pre);
                },
                RequestModel::Store(k, f, e, d, n) => {
                    assert(self.stores@[idx as int]@ == pre[idx as int].insert(k, (f, d)));
                },
            }
        }
        reply
    }
}

} // verus!
