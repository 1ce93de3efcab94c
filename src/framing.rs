//! The transport framing of the language-server wire: each message is the header
//! `Content-Length: N\r\n\r\n` followed by exactly `N` payload bytes.
use vstd::prelude::*;

verus! {

/// The bytes of `Content-Length: `.
pub open spec fn header_prefix() -> Seq<u8> {
    seq![67u8, 111, 110, 116, 101, 110, 116, 45, 76, 101, 110, 103, 116, 104, 58, 32]
}

/// The bytes of `\r\n\r\n`, which end the header.
pub open spec fn header_end() -> Seq<u8> {
    seq![13u8, 10, 13, 10]
}

/// Whether `b` is an ASCII decimal digit.
pub open spec fn is_digit(b: u8) -> bool {
    48 <= b <= 57
}

/// The number that the ASCII decimal digits `d` spell.
pub open spec fn digits_value(d: Seq<u8>) -> nat
    decreases d.len(),
{
    if d.len() == 0 {
        0
    } else {
        digits_value(d.drop_last()) * 10 + (d.last() - 48) as nat
    }
}

/// The shortest ASCII decimal spelling of `n`.
pub open spec fn decimal(n: nat) -> Seq<u8>
    decreases n,
{
    if n < 10 {
        seq![(48 + n) as u8]
    } else {
        decimal(n / 10).push((48 + n % 10) as u8)
    }
}

/// The frame that carries `payload`.
pub open spec fn frame(payload: Seq<u8>) -> Seq<u8> {
    header_prefix() + decimal(payload.len()) + header_end() + payload
}

/// How many ASCII digits follow one another in `buf` from index `i` on.
pub open spec fn digit_run(buf: Seq<u8>, i: int) -> nat
    decreases buf.len() - i,
{
    if i < 0 || i >= buf.len() || !is_digit(buf[i]) {
        0
    } else {
        1 + digit_run(buf, i + 1)
    }
}

/// How a byte stream that starts with a frame's first byte stands.
#[derive(Clone, Copy, Debug, PartialEq, Eq, Structural)]
pub enum FrameStatus {
    /// A whole frame is there.
    Complete,
    /// What is there may still become a frame: more bytes are needed.
    Incomplete,
    /// No continuation can make a frame of it.
    Malformed,
}

/// The declared payload length of the header at the start of `buf`.
pub open spec fn declared_len(buf: Seq<u8>) -> nat {
    digits_value(buf.subrange(16, 16 + digit_run(buf, 16) as int))
}

/// Where the payload of the frame at the start of `buf` begins.
pub open spec fn payload_start(buf: Seq<u8>) -> int {
    16 + digit_run(buf, 16) as int + 4
}

/// How the stream `buf` stands: the header must be `Content-Length: `, one or
/// more digits spelling a length that fits in `usize`, and `\r\n\r\n`; the frame is
/// complete once that many payload bytes follow.
pub open spec fn frame_status(buf: Seq<u8>) -> FrameStatus {
    if buf.len() <= 16 {
        if buf == header_prefix().take(buf.len() as int) {
            FrameStatus::Incomplete
        } else {
            FrameStatus::Malformed
        }
    } else if buf.take(16) != header_prefix() {
        FrameStatus::Malformed
    } else if declared_len(buf) > usize::MAX {
        FrameStatus::Malformed
    } else if 16 + digit_run(buf, 16) == buf.len() {
        FrameStatus::Incomplete
    } else if digit_run(buf, 16) == 0 {
        FrameStatus::Malformed
    } else {
        let t: int = 16 + digit_run(buf, 16) as int;
        let avail: int = if buf.len() - t < 4 {
            buf.len() - t
        } else {
            4
        };
        if buf.subrange(t, t + avail) != header_end().take(avail) {
            FrameStatus::Malformed
        } else if avail < 4 || buf.len() < payload_start(buf) + declared_len(buf) {
            FrameStatus::Incomplete
        } else {
            FrameStatus::Complete
        }
    }
}

/// The payload of the complete frame at the start of `buf`.
pub open spec fn frame_payload(buf: Seq<u8>) -> Seq<u8> {
    buf.subrange(payload_start(buf), payload_start(buf) + declared_len(buf))
}

/// How many bytes the complete frame at the start of `buf` takes.
pub open spec fn frame_len(buf: Seq<u8>) -> nat {
    (payload_start(buf) + declared_len(buf)) as nat
}

/// A header that no continuation of the stream can make valid.
#[derive(Clone, Copy, Debug, PartialEq, Eq, Structural)]
pub struct FramingError;

fn prefix_bytes() -> (r: Vec<u8>)
    ensures
        r@ == header_prefix(),
{
    let r = vec![67u8, 111, 110, 116, 101, 110, 116, 45, 76, 101, 110, 103, 116, 104, 58, 32];
    assert(r@ =~= header_prefix());
    r
}

fn end_bytes() -> (r: Vec<u8>)
    ensures
        r@ == header_end(),
{
    let r = vec![13u8, 10, 13, 10];
    assert(r@ =~= header_end());
    r
}

fn push_decimal(out: &mut Vec<u8>, n: usize)
    ensures
        final(out)@ == old(out)@ + decimal(n as nat),
    decreases n,
{
    if n >= 10 {
        push_decimal(out, n / 10);
    }
    out.push(48 + (n % 10) as u8);
    proof {
        if n >= 10 {
            assert(final(out)@ =~= old(out)@ + decimal(n as nat));
        } else {
            assert(final(out)@ =~= old(out)@ + decimal(n as nat));
        }
    }
}

fn append(out: &mut Vec<u8>, bytes: &[u8])
    ensures
        final(out)@ == old(out)@ + bytes@,
{
    let mut i: usize = 0;
    while i < bytes.len()
        invariant
            0 <= i <= bytes@.len(),
            out@ == old(out)@ + bytes@.take(i as int),
        decreases bytes@.len() - i,
    {
        out.push(bytes[i]);
        i = i + 1;
        assert(out@ =~= old(out)@ + bytes@.take(i as int));
    }
    assert(bytes@.take(i as int) =~= bytes@);
}

/// The frame that carries `payload`: its header, then the payload itself.
pub fn encode_frame(payload: &[u8]) -> (r: Vec<u8>)
    ensures
        r@ == frame(payload@),
{
    let mut out = prefix_bytes();
    push_decimal(&mut out, payload.len());
    let end = end_bytes();
    append(&mut out, end.as_slice());
    append(&mut out, payload);
    out
}


proof fn lemma_digit_run(buf: Seq<u8>, i: int, j: int)
    requires
        0 <= i <= j <= buf.len(),
        forall|k: int| i <= k < j ==> is_digit(#[trigger] buf[k]),
        j == buf.len() || !is_digit(buf[j]),
    ensures
        digit_run(buf, i) == j - i,
    decreases j - i,
{
    if i < j {
        lemma_digit_run(buf, i + 1, j);
    }
}

proof fn lemma_digits_prefix_le(d: Seq<u8>, m: int)
    requires
        0 <= m <= d.len(),
    ensures
        digits_value(d.take(m)) <= digits_value(d),
    decreases d.len(),
{
    if m < d.len() {
        assert(d.take(m) =~= d.drop_last().take(m));
        lemma_digits_prefix_le(d.drop_last(), m);
    } else {
        assert(d.take(m) =~= d);
    }
}

fn is_digit_byte(b: u8) -> (r: bool)
    ensures
        r == is_digit(b),
{
    48 <= b && b <= 57
}

/// Reads the frame at the start of `buf`: its payload and how many bytes it takes
/// once it is complete, `None` while more bytes are needed, and an error once no
/// continuation can make a frame of it.
pub fn decode_frame(buf: &[u8]) -> (r: Result<Option<(Vec<u8>, usize)>, FramingError>)
    ensures
        match frame_status(buf@) {
            FrameStatus::Malformed => r is Err,
            FrameStatus::Incomplete => r matches Ok(None),
            FrameStatus::Complete => r matches Ok(Some(x)) && x.0@ == frame_payload(buf@) && x.1
                == frame_len(buf@),
        },
{
    let n = buf.len();
    let p = prefix_bytes();
    let mut i: usize = 0;
    while i < 16 && i < n
        invariant
            i <= 16,
            i <= n,
            n == buf@.len(),
            p@ == header_prefix(),
            forall|k: int| 0 <= k < i ==> buf@[k] == header_prefix()[k],
        decreases 16 - i,
    {
        if buf[i] != p[i] {
            proof {
                if n <= 16 {
                    assert(buf@[i as int] != header_prefix().take(n as int)[i as int]);
                } else {
                    assert(buf@.take(16)[i as int] != header_prefix()[i as int]);
                }
            }
            return Err(FramingError);
        }
        i = i + 1;
    }
    if n <= 16 {
        assert(buf@ =~= header_prefix().take(n as int));
        return Ok(None);
    }
    assert(buf@.take(16) =~= header_prefix());
    let mut j: usize = 16;
    while j < n && is_digit_byte(buf[j])
        invariant
            16 <= j <= n,
            n == buf@.len(),
            forall|k: int| 16 <= k < j ==> is_digit(#[trigger] buf@[k]),
        decreases n - j,
    {
        j = j + 1;
    }
    proof {
        lemma_digit_run(buf@, 16, j as int);
    }
    let mut v: usize = 0;
    let mut q: usize = 16;
    while q < j
        invariant
            16 <= q <= j <= n,
            n == buf@.len(),
            j - 16 == digit_run(buf@, 16),
            forall|k: int| 16 <= k < j ==> is_digit(#[trigger] buf@[k]),
            v == digits_value(buf@.subrange(16, q as int)),
        decreases j - q,
    {
        let d = (buf[q] - 48) as usize;
        let ghost next = buf@.subrange(16, q + 1);
        proof {
            assert(next.drop_last() =~= buf@.subrange(16, q as int));
            assert(next =~= buf@.subrange(16, j as int).take(q + 1 - 16));
            lemma_digits_prefix_le(buf@.subrange(16, j as int), q + 1 - 16);
        }
        match v.checked_mul(10) {
            None => {
                return Err(FramingError);
            },
            Some(m) => match m.checked_add(d) {
                None => {
                    return Err(FramingError);
                },
                Some(s) => {
                    v = s;
                },
            },
        }
        q = q + 1;
    }
    if j == n {
        return Ok(None);
    }
    if j == 16 {
        return Err(FramingError);
    }
    let end = end_bytes();
    let avail: usize = if n - j < 4 {
        n - j
    } else {
        4
    };
    let mut a: usize = 0;
    while a < avail
        invariant
            a <= avail <= 4,
            j + avail <= n,
            n == buf@.len(),
            end@ == header_end(),
            forall|k: int| 0 <= k < a ==> buf@[j + k] == header_end()[k],
            16 < j < n,
            j - 16 == digit_run(buf@, 16),
            buf@.take(16) == header_prefix(),
            v == declared_len(buf@),
            avail == if n - j < 4 {
                n - j
            } else {
                4
            },
        decreases avail - a,
    {
        if buf[j + a] != end[a] {
            assert(buf@.subrange(j as int, j + avail)[a as int] != header_end().take(
                avail as int,
            )[a as int]);
            return Err(FramingError);
        }
        a = a + 1;
    }
    assert(buf@.subrange(j as int, j + avail) =~= header_end().take(avail as int));
    if avail < 4 {
        return Ok(None);
    }
    let body = j + 4;
    if n - body < v {
        return Ok(None);
    }
    let mut out: Vec<u8> = Vec::new();
    let mut c: usize = 0;
    while c < v
        invariant
            c <= v,
            body + v <= n,
            n == buf@.len(),
            out@ == buf@.subrange(body as int, body + c),
        decreases v - c,
    {
        out.push(buf[body + c]);
        c = c + 1;
        assert(out@ =~= buf@.subrange(body as int, body + c));
    }
    Ok(Some((out, body + v)))
}


proof fn lemma_decimal(n: nat)
    ensures
        decimal(n).len() >= 1,
        forall|k: int| 0 <= k < decimal(n).len() ==> is_digit(#[trigger] decimal(n)[k]),
        digits_value(decimal(n)) == n,
    decreases n,
{
    if n >= 10 {
        lemma_decimal(n / 10);
        assert(decimal(n).drop_last() =~= decimal(n / 10));
        assert(decimal(n).last() == (48 + n % 10) as u8);
        assert(n == (n / 10) * 10 + n % 10) by (nonlinear_arith);
        assert(digits_value(decimal(n)) == digits_value(decimal(n / 10)) * 10 + (n % 10));
    } else {
        assert(decimal(n).drop_last() =~= Seq::<u8>::empty());
        assert(digits_value(Seq::<u8>::empty()) == 0);
        assert(digits_value(decimal(n)) == digits_value(Seq::<u8>::empty()) * 10 + n);
    }
}

/// What the header reads in a stream that agrees with `frame(payload)` on their
/// common part and reaches past the length digits.
proof fn lemma_frame_layout(payload: Seq<u8>, buf: Seq<u8>)
    requires
        payload.len() <= usize::MAX,
        buf.len() > 16 + decimal(payload.len()).len(),
        forall|k: int| 0 <= k < buf.len() && k < frame(payload).len() ==> buf[k] == frame(payload)[k],
    ensures
        buf.take(16) == header_prefix(),
        digit_run(buf, 16) == decimal(payload.len()).len(),
        declared_len(buf) == payload.len(),
{
    let d = decimal(payload.len());
    let f = frame(payload);
    lemma_decimal(payload.len());
    assert forall|k: int| 0 <= k < 16 implies buf[k] == header_prefix()[k] by {
        assert(f[k] == header_prefix()[k]);
    }
    assert(buf.take(16) =~= header_prefix());
    assert forall|k: int| 16 <= k < 16 + d.len() implies is_digit(#[trigger] buf[k]) by {
        assert(f[k] == d[k - 16]);
    }
    assert(f[16 + d.len() as int] == 13u8);
    lemma_digit_run(buf, 16, 16 + d.len() as int);
    assert(buf.subrange(16, 16 + d.len() as int) =~= d) by {
        assert forall|k: int| 0 <= k < d.len() implies buf.subrange(16, 16 + d.len() as int)[k] == d[k] by {
            assert(f[16 + k] == d[k]);
        }
    }
}

/// Round trip: a frame, followed by anything, reads back as complete, with the
/// very payload it was made of, and takes exactly its own bytes.
pub proof fn lemma_frame_round_trip(payload: Seq<u8>, rest: Seq<u8>)
    requires
        payload.len() <= usize::MAX,
    ensures
        frame_status(frame(payload) + rest) == FrameStatus::Complete,
        frame_payload(frame(payload) + rest) == payload,
        frame_len(frame(payload) + rest) == frame(payload).len(),
{
    let f = frame(payload);
    let buf = f + rest;
    let d = decimal(payload.len());
    lemma_decimal(payload.len());
    lemma_frame_layout(payload, buf);
    let t: int = 16 + d.len() as int;
    assert(buf.subrange(t, t + 4) =~= header_end().take(4)) by {
        assert forall|k: int| 0 <= k < 4 implies buf.subrange(t, t + 4)[k] == header_end()[k] by {
            assert(f[t + k] == header_end()[k]);
        }
    }
    assert(frame_payload(buf) =~= payload) by {
        assert forall|k: int| 0 <= k < payload.len() implies frame_payload(buf)[k] == payload[k] by {
            assert(f[t + 4 + k] == payload[k]);
        }
    }
}

/// A frame of which only a part has arrived, however short, waits for more bytes:
/// it is never taken as malformed.
pub proof fn lemma_partial_frame_waits(payload: Seq<u8>, m: int)
    requires
        payload.len() <= usize::MAX,
        0 <= m < frame(payload).len(),
    ensures
        frame_status(frame(payload).take(m)) == FrameStatus::Incomplete,
{
    let f = frame(payload);
    let buf = f.take(m);
    let d = decimal(payload.len());
    lemma_decimal(payload.len());
    let t: int = 16 + d.len() as int;
    if m <= 16 {
        assert(buf =~= header_prefix().take(m)) by {
            assert forall|k: int| 0 <= k < m implies buf[k] == header_prefix()[k] by {
                assert(f[k] == header_prefix()[k]);
            }
        }
    } else if m <= t {
        assert forall|k: int| 0 <= k < 16 implies buf[k] == header_prefix()[k] by {
            assert(f[k] == header_prefix()[k]);
        }
        assert(buf.take(16) =~= header_prefix());
        assert forall|k: int| 16 <= k < m implies is_digit(#[trigger] buf[k]) by {
            assert(f[k] == d[k - 16]);
        }
        lemma_digit_run(buf, 16, m);
        assert(buf.subrange(16, m) =~= d.take(m - 16)) by {
            assert forall|k: int| 0 <= k < m - 16 implies buf.subrange(16, m)[k] == d[k] by {
                assert(f[16 + k] == d[k]);
            }
        }
        lemma_digits_prefix_le(d, m - 16);
    } else {
        lemma_frame_layout(payload, buf);
        let avail: int = if m - t < 4 {
            m - t
        } else {
            4
        };
        assert(buf.subrange(t, t + avail) =~= header_end().take(avail)) by {
            assert forall|k: int| 0 <= k < avail implies buf.subrange(t, t + avail)[k]
                == header_end()[k] by {
                assert(f[t + k] == header_end()[k]);
            }
        }
    }
}


/// Reads frames out of a byte stream that arrives in pieces.
pub struct FrameDecoder {
    buffer: Vec<u8>,
}

impl View for FrameDecoder {
    type V = Seq<u8>;

    /// The bytes received and not yet read as a frame.
    closed spec fn view(&self) -> Seq<u8> {
        self.buffer@
    }
}

impl FrameDecoder {
    /// A decoder that has received nothing.
    pub fn new() -> (r: FrameDecoder)
        ensures
            r@ == Seq::<u8>::empty(),
    {
        FrameDecoder { buffer: Vec::new() }
    }

    /// Appends `bytes` to what was received.
    pub fn feed(&mut self, bytes: &[u8])
        ensures
            final(self)@ == old(self)@ + bytes@,
    {
        append(&mut self.buffer, bytes);
    }

    /// Takes the next frame's payload out of what was received: `None` while the
    /// frame is not complete yet (nothing is consumed), an error once the stream
    /// cannot hold a frame any more (nothing is consumed either; the stream is
    /// lost).
    pub fn next_frame(&mut self) -> (r: Result<Option<Vec<u8>>, FramingError>)
        ensures
            match frame_status(old(self)@) {
                FrameStatus::Malformed => r is Err && final(self)@ == old(self)@,
                FrameStatus::Incomplete => r matches Ok(None) && final(self)@ == old(self)@,
                FrameStatus::Complete => r matches Ok(Some(p)) && p@ == frame_payload(old(self)@)
                    && final(self)@ == old(self)@.skip(frame_len(old(self)@) as int),
            },
    {
        match decode_frame(self.buffer.as_slice()) {
            Err(e) => Err(e),
            Ok(None) => Ok(None),
            Ok(Some((payload, used))) => {
                let mut rest: Vec<u8> = Vec::new();
                let mut i: usize = used;
                while i < self.buffer.len()
                    invariant
                        used <= i <= self.buffer@.len(),
                        rest@ == self.buffer@.subrange(used as int, i as int),
                    decreases self.buffer@.len() - i,
                {
                    rest.push(self.buffer[i]);
                    i = i + 1;
                    assert(rest@ =~= self.buffer@.subrange(used as int, i as int));
                }
                assert(rest@ =~= self.buffer@.skip(used as int));
                self.buffer = rest;
                Ok(Some(payload))
            },
        }
    }
}

} // verus!
