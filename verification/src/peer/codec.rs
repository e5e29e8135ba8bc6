//! Framing of the wire: every message travels as an eight-byte big-endian
//! length followed by that many bytes of body.

use vstd::prelude::*;
use vstd::arithmetic::div_mod::lemma_div_denominator;
use vstd::arithmetic::div_mod::lemma_fundamental_div_mod_converse;
use vstd::slice::slice_subrange;
use vstd::slice::slice_to_vec;
use crate::error::RfsError;

verus! {

/// Number of bytes of the length prefix.
pub const LENGTH_PREFIX: usize = 8;

/// The eight bytes of `n`, most significant first.
pub open spec fn be_bytes(n: u64) -> Seq<u8> {
    seq![
        (n / 0x100_0000_0000_0000) as u8,
        (n / 0x1_0000_0000_0000 % 256) as u8,
        (n / 0x100_0000_0000 % 256) as u8,
        (n / 0x1_0000_0000 % 256) as u8,
        (n / 0x100_0000 % 256) as u8,
        (n / 0x1_0000 % 256) as u8,
        (n / 0x100 % 256) as u8,
        (n % 256) as u8,
    ]
}

/// The number that the first eight bytes of `b` spell, most significant
/// first.
pub open spec fn be_value(b: Seq<u8>) -> nat {
    (b[0] * 0x100_0000_0000_0000 + b[1] * 0x1_0000_0000_0000 + b[2] * 0x100_0000_0000 + b[3]
        * 0x1_0000_0000 + b[4] * 0x100_0000 + b[5] * 0x1_0000 + b[6] * 0x100 + b[7]) as nat
}

/// A body as it travels: its length, then the body.
pub open spec fn framed(body: Seq<u8>) -> Seq<u8> {
    be_bytes(body.len() as u64) + body
}

/// Several bodies as they travel, one frame behind the other.
pub open spec fn framed_all(bodies: Seq<Seq<u8>>) -> Seq<u8>
    decreases bodies.len(),
{
    if bodies.len() == 0 {
        Seq::<u8>::empty()
    } else {
        framed(bodies[0]) + framed_all(bodies.drop_first())
    }
}

/// What the bytes received so far hold.
pub enum Parsed {
    /// Not yet a whole frame.
    Incomplete,
    /// A length prefix that announces more than the reader accepts.
    TooLarge,
    /// A whole frame, and the bytes behind it.
    Frame { body: Seq<u8>, rest: Seq<u8> },
}

/// Reads one frame off the front of `buffer`, accepting bodies of at most
/// `max_body` bytes.
pub open spec fn parse(buffer: Seq<u8>, max_body: nat) -> Parsed {
    if buffer.len() < LENGTH_PREFIX {
        Parsed::Incomplete
    } else {
        let n = be_value(buffer);
        if n > max_body {
            Parsed::TooLarge
        } else if buffer.len() < LENGTH_PREFIX + n {
            Parsed::Incomplete
        } else {
            Parsed::Frame {
                body: buffer.subrange(LENGTH_PREFIX as int, LENGTH_PREFIX + n),
                rest: buffer.skip(LENGTH_PREFIX + n),
            }
        }
    }
}

/// The bodies of the whole frames at the front of `buffer`, in the order in
/// which they stand there.
pub open spec fn parse_all(buffer: Seq<u8>, max_body: nat) -> Seq<Seq<u8>>
    decreases buffer.len(),
{
    match parse(buffer, max_body) {
        Parsed::Frame { body, rest } => if rest.len() < buffer.len() {
            seq![body] + parse_all(rest, max_body)
        } else {
            seq![body]
        },
        _ => Seq::<Seq<u8>>::empty(),
    }
}

proof fn lemma_shift_byte(x: int, c: int)
    requires
        0 <= x,
        0 < c,
    ensures
        x / (c * 0x100) == (x / c) / 0x100,
{
    lemma_div_denominator(x, c, 0x100);
}

/// Reading back the eight bytes of a number gives the number.
pub proof fn lemma_be_round_trip(n: u64)
    ensures
        be_bytes(n).len() == 8,
        be_value(be_bytes(n)) == n,
{
    let x = n as int;
    let n1 = x / 0x100;
    let n2 = x / 0x1_0000;
    let n3 = x / 0x100_0000;
    let n4 = x / 0x1_0000_0000;
    let n5 = x / 0x100_0000_0000;
    let n6 = x / 0x1_0000_0000_0000;
    let n7 = x / 0x100_0000_0000_0000;
    lemma_shift_byte(x, 0x100);
    lemma_shift_byte(x, 0x1_0000);
    lemma_shift_byte(x, 0x100_0000);
    lemma_shift_byte(x, 0x1_0000_0000);
    lemma_shift_byte(x, 0x100_0000_0000);
    lemma_shift_byte(x, 0x1_0000_0000_0000);
    assert(n2 == n1 / 0x100);
    assert(n3 == n2 / 0x100);
    assert(n4 == n3 / 0x100);
    assert(n5 == n4 / 0x100);
    assert(n6 == n5 / 0x100);
    assert(n7 == n6 / 0x100);
    assert(n7 < 0x100);
    let b = be_bytes(n);
    assert(b[0] == n7);
    assert(b[1] == n6 % 256);
    assert(b[2] == n5 % 256);
    assert(b[3] == n4 % 256);
    assert(b[4] == n3 % 256);
    assert(b[5] == n2 % 256);
    assert(b[6] == n1 % 256);
    assert(b[7] == x % 256);
}

proof fn lemma_low_byte(x: int, high: int, low: int)
    requires
        0 <= low < 0x100,
        x == high * 0x100 + low,
    ensures
        x / 0x100 == high,
        x % 0x100 == low,
{
    lemma_fundamental_div_mod_converse(x, 0x100, high, low);
}

/// Writing down the number that eight bytes spell gives the eight bytes.
pub proof fn lemma_be_bytes_of_value(b: Seq<u8>)
    requires
        b.len() >= 8,
    ensures
        be_value(b) <= u64::MAX,
        be_bytes(be_value(b) as u64) == b.take(8),
{
    let v = be_value(b) as int;
    let h7 = b[0] as int;
    let h6 = h7 * 0x100 + b[1];
    let h5 = h6 * 0x100 + b[2];
    let h4 = h5 * 0x100 + b[3];
    let h3 = h4 * 0x100 + b[4];
    let h2 = h3 * 0x100 + b[5];
    let h1 = h2 * 0x100 + b[6];
    assert(v == h1 * 0x100 + b[7]);
    lemma_low_byte(v, h1, b[7] as int);
    lemma_low_byte(h1, h2, b[6] as int);
    lemma_low_byte(h2, h3, b[5] as int);
    lemma_low_byte(h3, h4, b[4] as int);
    lemma_low_byte(h4, h5, b[3] as int);
    lemma_low_byte(h5, h6, b[2] as int);
    lemma_low_byte(h6, h7, b[1] as int);
    lemma_shift_byte(v, 0x100);
    lemma_shift_byte(v, 0x1_0000);
    lemma_shift_byte(v, 0x100_0000);
    lemma_shift_byte(v, 0x1_0000_0000);
    lemma_shift_byte(v, 0x100_0000_0000);
    lemma_shift_byte(v, 0x1_0000_0000_0000);
    assert(v / 0x100 == h1);
    assert(v / 0x1_0000 == h2);
    assert(v / 0x100_0000 == h3);
    assert(v / 0x1_0000_0000 == h4);
    assert(v / 0x100_0000_0000 == h5);
    assert(v / 0x1_0000_0000_0000 == h6);
    assert(v / 0x100_0000_0000_0000 == h7);
    let bytes = be_bytes(v as u64);
    assert(bytes[0] == b[0]);
    assert(bytes[1] == b[1]);
    assert(bytes[2] == b[2]);
    assert(bytes[3] == b[3]);
    assert(bytes[4] == b[4]);
    assert(bytes[5] == b[5]);
    assert(bytes[6] == b[6]);
    assert(bytes[7] == b[7]);
    assert(bytes =~= b.take(8));
}

/// A buffer that parses to a frame starts with the frame of that body: no
/// two byte strings carry the same frame.
pub proof fn lemma_parsed_is_framed(buffer: Seq<u8>, max_body: nat)
    requires
        parse(buffer, max_body) is Frame,
    ensures
        buffer == framed(parse(buffer, max_body)->body) + parse(buffer, max_body)->rest,
{
    lemma_be_bytes_of_value(buffer);
    let body = parse(buffer, max_body)->body;
    let rest = parse(buffer, max_body)->rest;
    assert(body.len() == be_value(buffer));
    assert(buffer =~= be_bytes(body.len() as u64) + body + rest);
}

/// A frame that is followed by any bytes parses to its body and those bytes.
pub proof fn lemma_parse_framed(body: Seq<u8>, rest: Seq<u8>, max_body: nat)
    requires
        body.len() <= max_body,
        body.len() <= u64::MAX,
    ensures
        parse(framed(body) + rest, max_body) == (Parsed::Frame { body, rest }),
{
    let n = body.len() as u64;
    let buffer = framed(body) + rest;
    lemma_be_round_trip(n);
    assert(be_value(buffer) == be_value(be_bytes(n))) by {
        assert(forall|i: int| 0 <= i < 8 ==> buffer[i] == be_bytes(n)[i]);
    }
    assert(buffer.subrange(LENGTH_PREFIX as int, LENGTH_PREFIX + n) =~= body);
    assert(buffer.skip(LENGTH_PREFIX + n) =~= rest);
}

/// Frames are read in the order in which they were written: the frames of
/// any bodies that the reader accepts, one behind the other, parse to those
/// bodies.
pub proof fn lemma_frames_keep_order(bodies: Seq<Seq<u8>>, max_body: nat)
    requires
        forall|i: int|
            0 <= i < bodies.len() ==> (#[trigger] bodies[i]).len() <= max_body && bodies[i].len()
                <= u64::MAX,
    ensures
        parse_all(framed_all(bodies), max_body) == bodies,
    decreases bodies.len(),
{
    if bodies.len() == 0 {
        assert(parse_all(framed_all(bodies), max_body) =~= bodies);
    } else {
        let tail = bodies.drop_first();
        assert forall|i: int| 0 <= i < tail.len() implies (#[trigger] tail[i]).len() <= max_body
            && tail[i].len() <= u64::MAX by {
            assert(tail[i] == bodies[i + 1]);
        }
        lemma_frames_keep_order(tail, max_body);
        lemma_parse_framed(bodies[0], framed_all(tail), max_body);
        lemma_be_round_trip(bodies[0].len() as u64);
        assert(seq![bodies[0]] + tail =~= bodies);
    }
}

/// The eight bytes of `n`, most significant first.
pub fn length_prefix(n: u64) -> (res: Vec<u8>)
    ensures
        res@ == be_bytes(n),
{
    let mut res: Vec<u8> = Vec::new();
    res.push((n / 0x100_0000_0000_0000) as u8);
    res.push((n / 0x1_0000_0000_0000 % 256) as u8);
    res.push((n / 0x100_0000_0000 % 256) as u8);
    res.push((n / 0x1_0000_0000 % 256) as u8);
    res.push((n / 0x100_0000 % 256) as u8);
    res.push((n / 0x1_0000 % 256) as u8);
    res.push((n / 0x100 % 256) as u8);
    res.push((n % 256) as u8);
    proof {
        assert(res@ =~= be_bytes(n));
    }
    res
}

/// The number that the first eight bytes of `bytes` spell; `None` where
/// there are fewer than eight.
pub fn read_length(bytes: &[u8]) -> (res: Option<u64>)
    ensures
        bytes@.len() < LENGTH_PREFIX ==> res is None,
        bytes@.len() >= LENGTH_PREFIX ==> res == Some(be_value(bytes@) as u64) && be_value(bytes@)
            <= u64::MAX,
{
    if bytes.len() < LENGTH_PREFIX {
        return None;
    }
    let b0 = bytes[0] as u64;
    let b1 = bytes[1] as u64;
    let b2 = bytes[2] as u64;
    let b3 = bytes[3] as u64;
    let b4 = bytes[4] as u64;
    let b5 = bytes[5] as u64;
    let b6 = bytes[6] as u64;
    let b7 = bytes[7] as u64;
    Some(
        b0 * 0x100_0000_0000_0000 + b1 * 0x1_0000_0000_0000 + b2 * 0x100_0000_0000 + b3
            * 0x1_0000_0000 + b4 * 0x100_0000 + b5 * 0x1_0000 + b6 * 0x100 + b7,
    )
}

/// The frame that carries `body`.
pub fn encode_frame(body: &[u8]) -> (res: Vec<u8>)
    ensures
        res@ == framed(body@),
{
    let mut res = length_prefix(body.len() as u64);
    let mut i: usize = 0;
    while i < body.len()
        invariant
            0 <= i <= body@.len(),
            res@ == be_bytes(body@.len() as u64) + body@.take(i as int),
        decreases body@.len() - i,
    {
        res.push(body[i]);
        proof {
            assert(body@.take(i as int).push(body@[i as int]) =~= body@.take(i + 1));
            assert(res@ =~= be_bytes(body@.len() as u64) + body@.take(i + 1));
        }
        i = i + 1;
    }
    proof {
        assert(body@.take(i as int) =~= body@);
    }
    res
}

/// The read side of a session: it gathers the bytes that arrive and hands
/// out the frames that they hold, one at a time and in order.
pub struct FrameReader {
    buffer: Vec<u8>,
    max_body: usize,
}

impl FrameReader {
    /// The bytes that have arrived and belong to no frame handed out yet.
    pub closed spec fn pending(&self) -> Seq<u8> {
        self.buffer@
    }

    /// The largest body that the reader accepts.
    pub closed spec fn limit(&self) -> nat {
        self.max_body as nat
    }

    /// A reader that has received nothing and accepts bodies of at most
    /// `max_body` bytes.
    pub fn new(max_body: usize) -> (res: Self)
        ensures
            res.pending() == Seq::<u8>::empty(),
            res.limit() == max_body,
    {
        FrameReader { buffer: Vec::new(), max_body }
    }

    /// Takes in bytes that have arrived.
    pub fn feed(&mut self, bytes: &[u8])
        ensures
            final(self).pending() == old(self).pending() + bytes@,
            final(self).limit() == old(self).limit(),
    {
        let mut i: usize = 0;
        while i < bytes.len()
            invariant
                0 <= i <= bytes@.len(),
                self.max_body == old(self).max_body,
                self.buffer@ == old(self).buffer@ + bytes@.take(i as int),
            decreases bytes@.len() - i,
        {
            self.buffer.push(bytes[i]);
            proof {
                assert(bytes@.take(i as int).push(bytes@[i as int]) =~= bytes@.take(i + 1));
                assert(self.buffer@ =~= old(self).buffer@ + bytes@.take(i + 1));
            }
            i = i + 1;
        }
        proof {
            assert(bytes@.take(i as int) =~= bytes@);
        }
    }

    /// Hands out the next frame, if a whole one has arrived.
    ///
    /// `Ok(None)` means that more bytes are needed. A length prefix beyond the
    /// limit fails with `FrameTooLarge` and leaves the reader as it was.
    pub fn next_frame(&mut self) -> (res: Result<Option<Vec<u8>>, RfsError>)
        ensures
            final(self).limit() == old(self).limit(),
            match parse(old(self).pending(), old(self).limit()) {
                Parsed::Incomplete => res == Ok::<Option<Vec<u8>>, RfsError>(None)
                    && final(self).pending() == old(self).pending(),
                Parsed::TooLarge => res == Err::<Option<Vec<u8>>, RfsError>(
                    RfsError::FrameTooLarge,
                ) && final(self).pending() == old(self).pending(),
                Parsed::Frame { body, rest } => res matches Ok(Some(b)) && b@ == body
                    && final(self).pending() == rest,
            },
    {
        let n = match read_length(self.buffer.as_slice()) {
            Some(n) => n,
            None => {
                return Ok(None);
            },
        };
        if n > self.max_body as u64 {
            return Err(RfsError::FrameTooLarge);
        }
        let size = n as usize;
        if self.buffer.len() - LENGTH_PREFIX < size {
            return Ok(None);
        }
        let end = LENGTH_PREFIX + size;
        let body = slice_to_vec(slice_subrange(self.buffer.as_slice(), LENGTH_PREFIX, end));
        let rest = slice_to_vec(slice_subrange(self.buffer.as_slice(), end, self.buffer.len()));
        proof {
            let bytes = self.buffer@;
            assert(bytes.subrange(end as int, bytes.len() as int) =~= bytes.skip(end as int));
        }
        self.buffer = rest;
        Ok(Some(body))
    }

    /// Hands out the next frame once the stream has ended.
    ///
    /// A whole frame that has arrived is still handed out, and a length
    /// prefix beyond the limit still fails with `FrameTooLarge`. Where no
    /// whole frame is left, whether bytes of an unfinished frame are pending
    /// or none at all, the peer has closed the session before the frame that
    /// was waited for: the call fails with `PeerClosed`, and the reader stays
    /// as it was.
    pub fn next_frame_at_end(&mut self) -> (res: Result<Vec<u8>, RfsError>)
        ensures
            final(self).limit() == old(self).limit(),
            match parse(old(self).pending(), old(self).limit()) {
                Parsed::Incomplete => res == Err::<Vec<u8>, RfsError>(RfsError::PeerClosed)
                    && final(self).pending() == old(self).pending(),
                Parsed::TooLarge => res == Err::<Vec<u8>, RfsError>(RfsError::FrameTooLarge)
                    && final(self).pending() == old(self).pending(),
                Parsed::Frame { body, rest } => res matches Ok(b) && b@ == body
                    && final(self).pending() == rest,
            },
    {
        match self.next_frame() {
            Ok(Some(body)) => Ok(body),
            Ok(None) => Err(RfsError::PeerClosed),
            Err(e) => Err(e),
        }
    }

    /// What the end of the stream means for the session: the peer has closed
    /// it in the middle of a frame exactly when bytes are left over.
    pub fn at_end_of_stream(&self) -> (res: Result<(), RfsError>)
        ensures
            res is Ok <==> self.pending().len() == 0,
            res is Err ==> res == Err::<(), RfsError>(RfsError::PeerClosed),
    {
        if self.buffer.len() == 0 {
            Ok(())
        } else {
            Err(RfsError::PeerClosed)
        }
    }
}

} // verus!
