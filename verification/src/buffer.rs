//! An incremental byte reader: a growable buffer fed from outside (the driver
//! appends whatever the stream produced) with consuming extraction primitives
//! used by the frame codec. Asking for more bytes than are buffered is the
//! retryable `Incomplete` condition, never an out-of-range access.
use crate::decimal::{all_digits, dec_value, parse_decimal};
use crate::frame::FrameParseError;
use vstd::prelude::*;

verus! {

/// The position of the first CRLF pair in `s`, if any.
pub open spec fn find_crlf(s: Seq<u8>) -> Option<int>
    decreases s.len(),
{
    if s.len() < 2 {
        None
    } else if s[0] == 13 && s[1] == 10 {
        Some(0)
    } else {
        match find_crlf(s.skip(1)) {
            Some(i) => Some(i + 1),
            None => None,
        }
    }
}

/// No CRLF pair starts anywhere in `s`.
pub open spec fn no_crlf(s: Seq<u8>) -> bool {
    forall|j: int| 0 <= j < s.len() - 1 ==> !(#[trigger] s[j] == 13 && s[j + 1] == 10)
}

/// What `find_crlf` finds is the first CRLF pair; when it finds nothing there
/// is none.
pub proof fn lemma_find_crlf(s: Seq<u8>)
    ensures
        match find_crlf(s) {
            Some(i) => 0 <= i && i + 2 <= s.len() && s[i] == 13 && s[i + 1] == 10 && no_crlf(
                s.take(i),
            ) && (forall|j: int| 0 <= j < i ==> !(#[trigger] s[j] == 13 && s[j + 1] == 10)),
            None => no_crlf(s),
        },
    decreases s.len(),
{
    if s.len() < 2 {
    } else if s[0] == 13 && s[1] == 10 {
    } else {
        lemma_find_crlf(s.skip(1));
        match find_crlf(s.skip(1)) {
            Some(i) => {
                assert forall|j: int| 0 <= j < i + 1 implies !(#[trigger] s[j] == 13 && s[j + 1]
                    == 10) by {
                    if j > 0 {
                        assert(s.skip(1)[j - 1] == s[j]);
                        assert(s.skip(1)[j] == s[j + 1]);
                    }
                }
            },
            None => {
                assert forall|j: int| 0 <= j < s.len() - 1 implies !(#[trigger] s[j] == 13 && s[j
                    + 1] == 10) by {
                    if j > 0 {
                        assert(s.skip(1)[j - 1] == s[j]);
                        assert(s.skip(1)[j] == s[j + 1]);
                    }
                }
            },
        }
    }
}

/// In `line + CRLF + rest`, where `line` itself holds no CRLF, the first CRLF
/// is exactly the delimiter after `line`.
pub proof fn lemma_find_crlf_concat(line: Seq<u8>, rest: Seq<u8>)
    requires
        no_crlf(line),
    ensures
        find_crlf(line + seq![13u8, 10u8] + rest) == Some(line.len() as int),
    decreases line.len(),
{
    let s = line + seq![13u8, 10u8] + rest;
    if line.len() == 0 {
        assert(s[0] == 13 && s[1] == 10);
    } else {
        if s[0] == 13 && s[1] == 10 {
            if line.len() == 1 {
                assert(s[1] == 10 && s[1] == 13);
            } else {
                assert(line[0] == 13 && line[1] == 10);
            }
            assert(false);
        }
        assert(no_crlf(line.skip(1))) by {
            assert forall|j: int| 0 <= j < line.skip(1).len() - 1 implies !(#[trigger] line.skip(
                1,
            )[j] == 13 && line.skip(1)[j + 1] == 10) by {
                assert(line.skip(1)[j] == line[j + 1]);
                assert(line.skip(1)[j + 1] == line[j + 2]);
            }
        }
        lemma_find_crlf_concat(line.skip(1), rest);
        assert(s.skip(1) =~= line.skip(1) + seq![13u8, 10u8] + rest);
    }
}

/// How the first CRLF of `s` shows up in a prefix of `s`: present when the
/// prefix covers it, absent otherwise.
pub proof fn lemma_find_crlf_take(s: Seq<u8>, k: int)
    requires
        0 <= k <= s.len(),
    ensures
        match find_crlf(s) {
            Some(i) => if k >= i + 2 {
                find_crlf(s.take(k)) == Some(i)
            } else {
                find_crlf(s.take(k)) is None
            },
            None => find_crlf(s.take(k)) is None,
        },
{
    lemma_find_crlf(s);
    lemma_find_crlf(s.take(k));
    match find_crlf(s) {
        Some(i) => {
            if k >= i + 2 {
                match find_crlf(s.take(k)) {
                    Some(j) => {
                        if j < i {
                            assert(s[j] == 13 && s[j + 1] == 10);
                            assert(false);
                        } else if j > i {
                            assert(s.take(k)[i] == 13 && s.take(k)[i + 1] == 10);
                            assert(false);
                        }
                    },
                    None => {
                        assert(s.take(k)[i] == 13 && s.take(k)[i + 1] == 10);
                        assert(false);
                    },
                }
            } else {
                match find_crlf(s.take(k)) {
                    Some(j) => {
                        assert(s[j] == 13 && s[j + 1] == 10);
                        assert(false);
                    },
                    None => {},
                }
            }
        },
        None => {
            match find_crlf(s.take(k)) {
                Some(j) => {
                    assert(s[j] == 13 && s[j + 1] == 10);
                    assert(false);
                },
                None => {},
            }
        },
    }
}

/// `a` is what is left of `b` after some prefix was consumed.
pub open spec fn is_suffix_of(a: Seq<u8>, b: Seq<u8>) -> bool {
    exists|k: int| 0 <= k <= b.len() && a == #[trigger] b.skip(k)
}

/// A byte accumulator over some outside stream. The driver appends bytes as
/// they arrive; the codec consumes them from the front.
pub struct BufferedStream {
    buffer: Vec<u8>,
    pos: usize,
}

impl BufferedStream {
    /// The bytes buffered and not yet consumed.
    pub closed spec fn remaining(&self) -> Seq<u8> {
        if self.pos <= self.buffer@.len() {
            self.buffer@.skip(self.pos as int)
        } else {
            Seq::empty()
        }
    }

    pub fn new() -> (r: Self)
        ensures
            r.remaining() == Seq::<u8>::empty(),
    {
        let r = BufferedStream { buffer: Vec::new(), pos: 0 };
        proof {
            assert(r.remaining() =~= Seq::<u8>::empty());
        }
        r
    }

    /// Appends bytes read from the outside stream.
    pub fn feed(&mut self, bytes: &[u8])
        ensures
            final(self).remaining() == old(self).remaining() + bytes@,
    {
        if self.pos > self.buffer.len() {
            // Unreachable in practice: the cursor never passes the end.
            self.pos = self.buffer.len();
        }
        self.buffer.extend_from_slice(bytes);
        proof {
            assert(self.remaining() =~= old(self).remaining() + bytes@);
        }
    }

    /// Discards everything buffered.
    pub fn reset(&mut self)
        ensures
            final(self).remaining() == Seq::<u8>::empty(),
    {
        self.pos = 0;
        self.buffer.clear();
        proof {
            assert(self.remaining() =~= Seq::<u8>::empty());
        }
    }

    /// The number of bytes available.
    fn available(&self) -> (r: usize)
        ensures
            r == self.remaining().len(),
            self.buffer@.len() <= usize::MAX,
    {
        proof {
            assert(self.buffer@.len() == self.buffer.len());
        }
        if self.pos <= self.buffer.len() {
            self.buffer.len() - self.pos
        } else {
            0
        }
    }

    /// Whether any bytes are buffered and not yet consumed.
    pub fn has_remaining(&self) -> (r: bool)
        ensures
            r == (self.remaining().len() > 0),
    {
        self.available() > 0
    }

    /// A copy of everything buffered and not yet consumed.
    pub fn remaining_bytes(&self) -> (r: Vec<u8>)
        ensures
            r@ == self.remaining(),
    {
        let avail = self.available();
        let mut out: Vec<u8> = Vec::new();
        let mut i: usize = 0;
        while i < avail
            invariant
                0 <= i <= avail,
                avail == self.remaining().len(),
                self.buffer@.len() <= usize::MAX,
                out@ == self.remaining().take(i as int),
            decreases avail - i,
        {
            proof {
                assert(self.remaining().len() > 0);
                assert(self.pos <= self.buffer@.len());
                assert(self.remaining().len() == self.buffer@.len() - self.pos);
                assert(self.remaining()[i as int] == self.buffer@[self.pos + i]);
            }
            out.push(self.buffer[self.pos + i]);
            proof {
                assert(out@ =~= self.remaining().take(i + 1));
            }
            i = i + 1;
        }
        proof {
            assert(self.remaining().take(self.remaining().len() as int) =~= self.remaining());
        }
        out
    }

    /// The next byte, without consuming it.
    pub fn peek_u8(&self) -> (r: Result<u8, FrameParseError>)
        ensures
            match r {
                Ok(b) => self.remaining().len() > 0 && b == self.remaining()[0],
                Err(e) => e is Incomplete && self.remaining().len() == 0,
            },
    {
        if self.pos < self.buffer.len() {
            Ok(self.buffer[self.pos])
        } else {
            Err(FrameParseError::Incomplete)
        }
    }

    /// The next byte, consuming it.
    pub fn get_u8(&mut self) -> (r: Result<u8, FrameParseError>)
        ensures
            match r {
                Ok(b) => old(self).remaining().len() > 0 && b == old(self).remaining()[0] && final(self).remaining() == old(self).remaining().skip(1),
                Err(e) => e is Incomplete && old(self).remaining().len() == 0 && *final(self) == *old(self),
            },
    {
        if self.pos < self.buffer.len() {
            let b = self.buffer[self.pos];
            self.pos = self.pos + 1;
            proof {
                assert(self.remaining() =~= old(self).remaining().skip(1));
            }
            Ok(b)
        } else {
            Err(FrameParseError::Incomplete)
        }
    }

    /// Discards `n` buffered bytes; incomplete when fewer are available.
    pub fn skip(&mut self, n: usize) -> (r: Result<(), FrameParseError>)
        ensures
            match r {
                Ok(()) => old(self).remaining().len() >= n && final(self).remaining() == old(
                    self,
                ).remaining().skip(n as int),
                Err(e) => e is Incomplete && old(self).remaining().len() < n && *final(self) == *old(self),
            },
    {
        if self.available() >= n {
            proof {
                if self.pos <= self.buffer@.len() {
                    assert(self.remaining().len() == self.buffer@.len() - self.pos);
                    assert(self.pos + n <= self.buffer@.len());
                } else {
                    assert(self.remaining().len() == 0);
                    assert(n == 0);
                }
            }
            self.pos = self.pos + n;
            proof {
                assert(self.remaining() =~= old(self).remaining().skip(n as int));
            }
            Ok(())
        } else {
            Err(FrameParseError::Incomplete)
        }
    }

    /// Takes exactly `n` bytes; incomplete when fewer are available.
    pub fn take(&mut self, n: usize) -> (r: Result<Vec<u8>, FrameParseError>)
        ensures
            match r {
                Ok(v) => old(self).remaining().len() >= n && v@ == old(self).remaining().take(
                    n as int,
                ) && final(self).remaining() == old(self).remaining().skip(n as int),
                Err(e) => e is Incomplete && old(self).remaining().len() < n && *final(self) == *old(self),
            },
    {
        if self.available() < n {
            return Err(FrameParseError::Incomplete);
        }
        let ghost pre = *self;
        let mut out: Vec<u8> = Vec::new();
        let mut i: usize = 0;
        while i < n
            invariant
                0 <= i <= n,
                n <= pre.remaining().len(),
                pre.buffer@.len() <= usize::MAX,
                *self == pre,
                out@ == pre.remaining().take(i as int),
            decreases n - i,
        {
            proof {
                assert(pre.remaining().len() > 0);
                assert(pre.pos <= pre.buffer@.len());
                assert(pre.remaining().len() == pre.buffer@.len() - pre.pos);
                assert(self.pos + i < self.buffer@.len());
            }
            out.push(self.buffer[self.pos + i]);
            proof {
                assert(pre.remaining()[i as int] == pre.buffer@[pre.pos + i]);
                assert(out@ =~= pre.remaining().take(i + 1));
            }
            i = i + 1;
        }
        let result = self.skip(n);
        proof {
            assert(result is Ok);
        }
        Ok(out)
    }

    /// The bytes up to (not including) the next CRLF, consuming the CRLF. A
    /// bare carriage return not followed by a line feed is ordinary data.
    pub fn get_line(&mut self) -> (r: Result<Vec<u8>, FrameParseError>)
        ensures
            match find_crlf(old(self).remaining()) {
                Some(i) => r is Ok && r->Ok_0@ == old(self).remaining().take(i) && final(self).remaining() == old(self).remaining().skip(i + 2),
                None => r == Result::<Vec<u8>, FrameParseError>::Err(FrameParseError::Incomplete)
                    && *final(self) == *old(self),
            },
    {
        proof {
            lemma_find_crlf(self.remaining());
        }
        let ghost pre = *self;
        let avail = self.available();
        if avail < 2 {
            proof {
                assert(find_crlf(pre.remaining()) is None);
            }
            return Err(FrameParseError::Incomplete);
        }
        let mut i: usize = 0;
        let mut found: bool = false;
        // Scan for the first CRLF pair without consuming anything.
        while !found && i + 1 < avail
            invariant
                *self == pre,
                avail == pre.remaining().len(),
                pre.buffer@.len() <= usize::MAX,
                0 <= i,
                found ==> i + 2 <= avail && pre.remaining()[i as int] == 13 && pre.remaining()[i
                    + 1] == 10,
                !found ==> i + 1 <= avail,
                forall|j: int|
                    0 <= j < i ==> !(#[trigger] pre.remaining()[j] == 13 && pre.remaining()[j + 1]
                        == 10),
            decreases avail - i, (if found {
                0int
            } else {
                1int
            }),
        {
            proof {
                assert(pre.remaining().len() > 0);
                assert(pre.pos <= pre.buffer@.len());
                assert(pre.remaining().len() == pre.buffer@.len() - pre.pos);
                assert(self.pos + i + 1 < self.buffer@.len());
            }
            let b0 = self.buffer[self.pos + i];
            let b1 = self.buffer[self.pos + i + 1];
            proof {
                assert(pre.remaining()[i as int] == pre.buffer@[pre.pos + i]);
                assert(pre.remaining()[i + 1] == pre.buffer@[pre.pos + i + 1]);
            }
            if b0 == 13 && b1 == 10 {
                found = true;
            } else {
                i = i + 1;
            }
        }
        if !found {
            proof {
                // No pair fits before the end of the buffer.
                if find_crlf(pre.remaining()) is Some {
                    let k = find_crlf(pre.remaining())->Some_0;
                    assert(!(pre.remaining()[k] == 13 && pre.remaining()[k + 1] == 10));
                    assert(false);
                }
            }
            return Err(FrameParseError::Incomplete);
        }
        proof {
            // The scan found the first pair, so it is what find_crlf names.
            match find_crlf(pre.remaining()) {
                Some(k) => {
                    if k < i {
                        assert(!(pre.remaining()[k] == 13 && pre.remaining()[k + 1] == 10));
                        assert(false);
                    } else if k > i {
                        assert(!(pre.remaining()[i as int] == 13 && pre.remaining()[i + 1] == 10));
                        assert(false);
                    }
                },
                None => {
                    assert(!(pre.remaining()[i as int] == 13 && pre.remaining()[i + 1] == 10));
                    assert(false);
                },
            }
        }
        let line = match self.take(i) {
            Ok(v) => v,
            Err(_) => {
                proof {
                    assert(false);
                }
                Vec::new()
            },
        };
        let skipped = self.skip(2);
        proof {
            assert(skipped is Ok);
            assert(old(self).remaining().skip(i as int).skip(2) =~= old(self).remaining().skip(
                i + 2,
            ));
        }
        Ok(line)
    }

    /// Reads a CRLF-terminated line and parses it as an unsigned decimal.
    /// A complete line that is not a number is a protocol error.
    pub fn get_decimal(&mut self) -> (r: Result<u64, FrameParseError>)
        ensures
            match find_crlf(old(self).remaining()) {
                Some(i) => {
                    let line = old(self).remaining().take(i);
                    (match r {
                        Ok(v) => line.len() > 0 && all_digits(line) && dec_value(line) == v,
                        Err(e) => e is Other && (line.len() == 0 || !all_digits(line) || dec_value(
                            line,
                        ) > u64::MAX),
                    }) && final(self).remaining() == old(self).remaining().skip(i + 2)
                },
                None => r == Result::<u64, FrameParseError>::Err(FrameParseError::Incomplete)
                    && *final(self) == *old(self),
            },
    {
        let line = match self.get_line() {
            Ok(v) => v,
            Err(e) => {
                return Err(e);
            },
        };
        match parse_decimal(&line) {
            Some(v) => Ok(v),
            None => Err(
                FrameParseError::Other(String::from_str("protocol error; invalid frame format")),
            ),
        }
    }
}

} // verus!
