//! Frame recovery from a live serial byte stream.
//!
//! An envelope on the wire is a zero byte, the three header bytes
//! `FF 01 00`, a payload without zero bytes, and a closing zero byte.
//! The decoder works directly on the accumulating buffer and keeps no
//! state of its own between calls.

use tokio_util::bytes::Buf;
use tokio_util::bytes::BytesMut;
use vstd::prelude::*;

verus! {

/// The growable byte buffer of the `bytes` crate; opaque to the verifier.
#[verifier::external_type_specification]
#[verifier::external_body]
pub struct ExBytesMut(BytesMut);

/// The I/O error type of the standard library; carried, never inspected.
#[verifier::external_type_specification]
#[verifier::external_body]
pub struct ExIoError(std::io::Error);

/// The bytes that a buffer currently holds, front first.
pub uninterp spec fn buffered(b: BytesMut) -> Seq<u8>;

/// `BytesMut::len`: the number of bytes held.
#[verifier::external_body]
fn buf_len(src: &BytesMut) -> (n: usize)
    ensures
        n == buffered(*src).len(),
{
    src.len()
}

/// Indexing a `BytesMut` through its slice: the byte at position `i`.
/// Out of range the index panics, so `i` must be in range.
#[verifier::external_body]
fn buf_byte(src: &BytesMut, i: usize) -> (b: u8)
    requires
        i < buffered(*src).len(),
    ensures
        b == buffered(*src)[i as int],
{
    src[i]
}

/// `BytesMut::clear`: the buffer holds nothing afterwards.
#[verifier::external_body]
fn buf_clear(src: &mut BytesMut)
    ensures
        buffered(*final(src)) == Seq::<u8>::empty(),
{
    src.clear()
}

/// `Buf::advance` on `BytesMut`: drops the first `cnt` bytes. It panics
/// when `cnt` exceeds the length, so that is required.
#[verifier::external_body]
fn buf_advance(src: &mut BytesMut, cnt: usize)
    requires
        cnt <= buffered(*old(src)).len(),
    ensures
        buffered(*final(src)) == buffered(*old(src)).skip(cnt as int),
{
    src.advance(cnt)
}

/// `BytesMut::split_to`, copied out with `to_vec`: removes the first `at`
/// bytes from the buffer and returns them. It panics when `at` exceeds the
/// length, so that is required.
#[verifier::external_body]
fn buf_split_to(src: &mut BytesMut, at: usize) -> (head: Vec<u8>)
    requires
        at <= buffered(*old(src)).len(),
    ensures
        head@ == buffered(*old(src)).take(at as int),
        buffered(*final(src)) == buffered(*old(src)).skip(at as int),
{
    src.split_to(at).to_vec()
}

/// The position of the first zero byte of `s` at or after `from`, or the
/// length of `s` when there is none.
pub open spec fn first_zero(s: Seq<u8>, from: int) -> int
    decreases s.len() - from,
{
    if from >= s.len() {
        s.len() as int
    } else if s[from] == 0 {
        from
    } else {
        first_zero(s, from + 1)
    }
}

/// Whether `s` starts with a delimiter followed by the header `FF 01 00`.
pub open spec fn has_header(s: Seq<u8>) -> bool {
    s.len() >= 4 && s[0] == 0 && s[1] == 0xFF && s[2] == 0x01 && s[3] == 0x00
}

/// One decoding step on the buffer contents `buf`: what stays buffered,
/// and the frame handed out, if any.
///
/// Everything before the first zero byte is discarded. With fewer than
/// four bytes left the step waits. A wrong header discards up to the next
/// zero byte. A right header with no closing zero yet waits and keeps
/// everything. Otherwise the frame up to, but without, the closing zero
/// leaves the buffer.
pub open spec fn decode_step(buf: Seq<u8>) -> (Seq<u8>, Option<Seq<u8>>) {
    let z = first_zero(buf, 0);
    let s = buf.skip(z);
    if z >= buf.len() {
        (Seq::<u8>::empty(), None)
    } else if s.len() < 4 {
        (s, None)
    } else if !has_header(s) {
        (s.skip(first_zero(s, 1)), None)
    } else {
        let t = first_zero(s, 4);
        if t >= s.len() {
            (s, None)
        } else {
            (s.skip(t), Some(s.take(t)))
        }
    }
}

/// `first_zero` lies between `from` and the length, points at a zero byte
/// when inside the sequence, and passes no zero byte on its way.
pub proof fn lemma_first_zero(s: Seq<u8>, from: int)
    requires
        0 <= from <= s.len(),
    ensures
        from <= first_zero(s, from) <= s.len(),
        first_zero(s, from) < s.len() ==> s[first_zero(s, from)] == 0,
        forall|i: int| from <= i < first_zero(s, from) ==> s[i] != 0,
    decreases s.len() - from,
{
    if from < s.len() && s[from] != 0 {
        lemma_first_zero(s, from + 1);
    }
}

/// Any position `z` at or after `from` that holds the first zero byte from
/// `from` on is `first_zero`.
pub proof fn lemma_first_zero_is(s: Seq<u8>, from: int, z: int)
    requires
        0 <= from <= z <= s.len(),
        forall|i: int| from <= i < z ==> s[i] != 0,
        z < s.len() ==> s[z] == 0,
    ensures
        first_zero(s, from) == z,
    decreases z - from,
{
    if from < z {
        lemma_first_zero_is(s, from + 1, z);
    }
}

/// The frame decoder. It holds no state: all of it is in the buffer.
pub struct MagicLocStreamDecoder;

/// Finds the first zero byte at or after `from`.
fn find_zero(src: &BytesMut, from: usize) -> (z: usize)
    requires
        from <= buffered(*src).len(),
    ensures
        z == first_zero(buffered(*src), from as int),
        from <= z <= buffered(*src).len(),
{
    let n = buf_len(src);
    let mut i: usize = from;
    proof {
        lemma_first_zero(buffered(*src), from as int);
    }
    while i < n
        invariant
            from <= i <= n,
            n == buffered(*src).len(),
            first_zero(buffered(*src), from as int) == first_zero(buffered(*src), i as int),
        decreases n - i,
    {
        if buf_byte(src, i) == 0 {
            return i;
        }
        i += 1;
    }
    i
}

impl MagicLocStreamDecoder {
    /// Runs one decoding step on `src`, as `decode_step` describes it.
    /// No input makes it fail.
    pub fn decode(&mut self, src: &mut BytesMut) -> (r: Result<Option<Vec<u8>>, std::io::Error>)
        ensures
            buffered(*final(src)) == decode_step(buffered(*old(src))).0,
            match r {
                Ok(Some(frame)) => decode_step(buffered(*old(src))).1 == Some(frame@),
                Ok(None) => decode_step(buffered(*old(src))).1.is_none(),
                Err(_) => false,
            },
    {
        let ghost buf = buffered(*src);
        let z = find_zero(src, 0);
        if z >= buf_len(src) {
            buf_clear(src);
            return Ok(None);
        }
        buf_advance(src, z);
        let ghost s = buffered(*src);
        proof {
            lemma_first_zero(buf, 0);
            assert(s[0] == buf[z as int]);
        }
        if buf_len(src) < 4 {
            return Ok(None);
        }
        if buf_byte(src, 1) != 0xFF || buf_byte(src, 2) != 0x01 || buf_byte(src, 3) != 0x00 {
            let n = find_zero(src, 1);
            buf_advance(src, n);
            return Ok(None);
        }
        let t = find_zero(src, 4);
        if t >= buf_len(src) {
            return Ok(None);
        }
        let frame = buf_split_to(src, t);
        Ok(Some(frame))
    }
}

/// Whether the delimiter and the header stand at position `i` of `s`.
pub open spec fn header_at(s: Seq<u8>, i: int) -> bool {
    &&& 0 <= i
    &&& i + 4 <= s.len()
    &&& s[i] == 0
    &&& s[i + 1] == 0xFF
    &&& s[i + 2] == 0x01
    &&& s[i + 3] == 0x00
}

/// The frame of an envelope with payload `payload`: delimiter, header and
/// payload, without the closing delimiter.
pub open spec fn frame_of(payload: Seq<u8>) -> Seq<u8> {
    seq![0u8, 0xFFu8, 0x01u8, 0x00u8] + payload
}

/// Whether `stream` holds at position `e` a whole envelope with a payload
/// of `plen` bytes, and no delimiter with header before it.
pub open spec fn first_envelope_at(stream: Seq<u8>, e: int, plen: int) -> bool {
    &&& 0 <= e
    &&& 0 <= plen
    &&& e + 4 + plen < stream.len()
    &&& header_at(stream, e)
    &&& forall|i: int| e + 4 <= i < e + 4 + plen ==> stream[i] != 0
    &&& stream[e + 4 + plen] == 0
    &&& forall|i: int| 0 <= i < e ==> !header_at(stream, i)
}

/// The buffer and the frames, in order, after `steps` decoding steps on
/// `buf` with no byte arriving in between.
pub open spec fn run(buf: Seq<u8>, steps: nat) -> (Seq<u8>, Seq<Seq<u8>>)
    decreases steps,
{
    if steps == 0 {
        (buf, Seq::empty())
    } else {
        let (rest, frame) = decode_step(buf);
        let (last, frames) = run(rest, (steps - 1) as nat);
        (
            last,
            match frame {
                Some(f) => seq![f] + frames,
                None => frames,
            },
        )
    }
}

/// An envelope whose closing delimiter has not arrived gives no frame and
/// stays buffered, however much of it has arrived.
pub proof fn lemma_truncated_envelope_waits(payload: Seq<u8>, arrived: int)
    requires
        forall|i: int| 0 <= i < payload.len() ==> payload[i] != 0,
        0 <= arrived <= frame_of(payload).len(),
    ensures
        decode_step(frame_of(payload).take(arrived)) == (
            frame_of(payload).take(arrived),
            None::<Seq<u8>>,
        ),
{
    let buf = frame_of(payload).take(arrived);
    if arrived > 0 {
        assert(buf[0] == 0);
        assert(buf.skip(0) =~= buf);
        if arrived >= 4 {
            assert(has_header(buf));
            lemma_first_zero_is(buf, 4, buf.len() as int);
        }
    } else {
        assert(buf =~= Seq::<u8>::empty());
    }
}

/// Once the closing delimiter has arrived, the step hands out the frame
/// and keeps the closing delimiter and what follows it.
pub proof fn lemma_closed_envelope_is_emitted(payload: Seq<u8>, tail: Seq<u8>)
    requires
        forall|i: int| 0 <= i < payload.len() ==> payload[i] != 0,
    ensures
        decode_step(frame_of(payload) + seq![0u8] + tail) == (
            seq![0u8] + tail,
            Some(frame_of(payload)),
        ),
{
    let frame = frame_of(payload);
    let buf = frame + seq![0u8] + tail;
    assert(buf[0] == 0);
    assert(buf.skip(0) =~= buf);
    assert(has_header(buf));
    assert(buf[frame.len() as int] == 0);
    lemma_first_zero_is(buf, 4, frame.len() as int);
    assert(buf.take(frame.len() as int) =~= frame);
    assert(buf.skip(frame.len() as int) =~= seq![0u8] + tail);
}

/// One step on the part of `stream` between `a` and `b`, where nothing
/// before the first envelope of `stream` except bytes before `a` has been
/// discarded and the bytes up to `b` have arrived.
///
/// The only frame that the step can hand out is that of the first
/// envelope, and then its closing delimiter has arrived and the buffer
/// goes on behind the frame. Without a frame the
/// buffer still starts at or before the envelope, so none of its bytes
/// are lost; and once the closing delimiter has arrived, a step without a
/// frame discards at least one byte.
pub proof fn lemma_step_on_stream(stream: Seq<u8>, e: int, plen: int, a: int, b: int)
    requires
        first_envelope_at(stream, e, plen),
        0 <= a <= e,
        a <= b <= stream.len(),
    ensures
        ({
            let buf = stream.subrange(a, b);
            let (rest, frame) = decode_step(buf);
            let start = a + buf.len() - rest.len();
            match frame {
                Some(f) => {
                    &&& f == stream.subrange(e, e + 4 + plen)
                    &&& rest == stream.subrange(e + 4 + plen, b)
                    &&& e + 4 + plen < b
                },
                None => {
                    &&& a <= start <= e
                    &&& start <= b
                    &&& rest == stream.subrange(start, b)
                    &&& b > e + 4 + plen ==> start > a
                },
            }
        }),
{
    let buf = stream.subrange(a, b);
    lemma_first_zero(buf, 0);
    let z = first_zero(buf, 0);
    if z >= buf.len() {
        if b > e {
            assert(buf[e - a] == stream[e]);
        }
        assert(Seq::<u8>::empty() =~= stream.subrange(b, b));
    } else {
        let s = buf.skip(z);
        assert(s =~= stream.subrange(a + z, b));
        if a + z > e {
            assert(buf[e - a] == stream[e]);
        }
        if s.len() < 4 {
        } else if !has_header(s) {
            lemma_first_zero(s, 1);
            let n = first_zero(s, 1);
            assert(s[0] == buf[z]);
            if a + z == e {
                assert(s[1] == stream[e + 1] && s[2] == stream[e + 2] && s[3] == stream[e + 3]);
            }
            if e < b {
                assert(s[e - a - z] == stream[e]);
            }
            assert(s.skip(n) =~= stream.subrange(a + z + n, b));
        } else {
            assert(s[0] == stream[a + z] && s[1] == stream[a + z + 1] && s[2] == stream[a + z + 2]
                && s[3] == stream[a + z + 3]);
            assert(header_at(stream, a + z));
            lemma_first_zero(s, 4);
            let t = first_zero(s, 4);
            if t >= s.len() {
                if b > e + 4 + plen {
                    assert(s[4 + plen] == stream[e + 4 + plen]);
                }
            } else {
                assert(s[t] == stream[e + t]);
                if t > 4 + plen {
                    assert(s[4 + plen] == stream[e + 4 + plen]);
                }
                assert(s.take(t) =~= stream.subrange(e, e + 4 + plen));
                assert(s.skip(t) =~= stream.subrange(e + 4 + plen, b));
            }
        }
    }
}

/// A step on a buffer without delimiter and header anywhere gives no
/// frame and keeps an end of the buffer.
pub proof fn lemma_step_without_header(buf: Seq<u8>)
    requires
        forall|i: int| !header_at(buf, i),
    ensures
        decode_step(buf).1.is_none(),
        decode_step(buf).0.len() <= buf.len(),
        decode_step(buf).0 == buf.skip(buf.len() - decode_step(buf).0.len()),
{
    lemma_first_zero(buf, 0);
    let z = first_zero(buf, 0);
    let rest = decode_step(buf).0;
    if z < buf.len() {
        let s = buf.skip(z);
        if s.len() >= 4 {
            lemma_first_zero(s, 1);
            if has_header(s) {
                assert(header_at(buf, z));
            }
        }
    }
    assert(rest =~= buf.skip(buf.len() - rest.len()));
}

/// Steps on the part of `stream` between `a` and `b`, where `stream` has
/// no delimiter with header from `clear` on and `a` is not before
/// `clear`: no frame comes out.
pub proof fn lemma_run_behind_envelope(stream: Seq<u8>, clear: int, a: int, b: int, steps: nat)
    requires
        forall|i: int| clear <= i ==> !header_at(stream, i),
        0 <= clear <= a <= b <= stream.len(),
    ensures
        ({
            let (last, frames) = run(stream.subrange(a, b), steps);
            &&& frames == Seq::<Seq<u8>>::empty()
            &&& last.len() <= b - a
            &&& last == stream.subrange(b - last.len(), b)
        }),
    decreases steps,
{
    let buf = stream.subrange(a, b);
    if steps > 0 {
        assert forall|i: int| !header_at(buf, i) by {
            if header_at(buf, i) {
                assert(header_at(stream, i + a));
            }
        }
        lemma_step_without_header(buf);
        let rest = decode_step(buf).0;
        let start = b - rest.len();
        assert(rest =~= stream.subrange(start, b));
        lemma_run_behind_envelope(stream, clear, start, b, (steps - 1) as nat);
    } else {
        assert(buf =~= stream.subrange(b - buf.len(), b));
    }
}

/// Steps on the part of `stream` between `a` and `b`, where `a` is at or
/// before the first envelope of `stream` and no delimiter with header
/// stands behind that envelope.
///
/// Either no frame has come out, the buffer still starts at or before the
/// envelope and, if the closing delimiter has arrived, every step has
/// discarded a byte; or exactly the frame of the envelope has come out
/// and the buffer starts behind it.
pub proof fn lemma_run_before_envelope(
    stream: Seq<u8>,
    e: int,
    plen: int,
    a: int,
    b: int,
    steps: nat,
)
    requires
        first_envelope_at(stream, e, plen),
        forall|i: int| e + 4 + plen <= i ==> !header_at(stream, i),
        0 <= a <= e,
        a <= b <= stream.len(),
    ensures
        ({
            let (last, frames) = run(stream.subrange(a, b), steps);
            let start = b - last.len();
            &&& last == stream.subrange(start, b)
            &&& start <= b
            &&& if frames == Seq::<Seq<u8>>::empty() {
                a <= start <= e && (b > e + 4 + plen ==> start >= a + steps)
            } else {
                frames == seq![stream.subrange(e, e + 4 + plen)] && start >= e + 4 + plen
            }
        }),
    decreases steps,
{
    let buf = stream.subrange(a, b);
    let only = seq![stream.subrange(e, e + 4 + plen)];
    if steps > 0 {
        lemma_step_on_stream(stream, e, plen, a, b);
        let (rest, frame) = decode_step(buf);
        match frame {
            Some(f) => {
                lemma_run_behind_envelope(stream, e + 4 + plen, e + 4 + plen, b, (steps - 1) as nat);
                let frames = run(buf, steps).1;
                assert(frames =~= only);
                assert(frames.len() == 1);
            },
            None => {
                let start = a + buf.len() - rest.len();
                lemma_run_before_envelope(stream, e, plen, start, b, (steps - 1) as nat);
                assert(only.len() == 1);
            },
        }
    } else {
        assert(buf =~= stream.subrange(b - buf.len(), b));
    }
}

/// With the whole of `stream` buffered, where `stream` holds one envelope
/// and neither before nor behind it a delimiter with header, the steps hand out the frame
/// of that envelope and no other: after as many steps as bytes stand
/// before the envelope, and one more, exactly that frame has come out.
pub proof fn lemma_single_envelope(stream: Seq<u8>, e: int, plen: int, steps: nat)
    requires
        first_envelope_at(stream, e, plen),
        forall|i: int| e + 4 + plen <= i ==> !header_at(stream, i),
        steps > e,
    ensures
        run(stream, steps).1 == seq![stream.subrange(e, e + 4 + plen)],
{
    lemma_run_before_envelope(stream, e, plen, 0, stream.len() as int, steps);
    assert(stream.subrange(0, stream.len() as int) =~= stream);
}

/// The bytes of `arrivals`, in order.
pub open spec fn arrived(arrivals: Seq<(Seq<u8>, nat)>) -> Seq<u8>
    decreases arrivals.len(),
{
    if arrivals.len() == 0 {
        Seq::empty()
    } else {
        arrivals[0].0 + arrived(arrivals.skip(1))
    }
}

/// The buffer and the frames, in order, after `arrivals` have come in on
/// top of `buf`: each arrival appends its bytes to the buffer and is
/// followed by its number of decoding steps.
pub open spec fn feed(buf: Seq<u8>, arrivals: Seq<(Seq<u8>, nat)>) -> (Seq<u8>, Seq<Seq<u8>>)
    decreases arrivals.len(),
{
    if arrivals.len() == 0 {
        (buf, Seq::empty())
    } else {
        let (mid, first) = run(buf + arrivals[0].0, arrivals[0].1);
        let (last, more) = feed(mid, arrivals.skip(1));
        (last, first + more)
    }
}

/// The first of the arrivals that make up the rest of `stream` from `b`
/// on is the part of `stream` that starts at `b`.
proof fn lemma_next_arrival(stream: Seq<u8>, b: int, arrivals: Seq<(Seq<u8>, nat)>)
    requires
        0 <= b <= stream.len(),
        arrived(arrivals) == stream.subrange(b, stream.len() as int),
    ensures
        arrivals.len() == 0 ==> b == stream.len(),
        arrivals.len() > 0 ==> {
            let next = b + arrivals[0].0.len();
            &&& next <= stream.len()
            &&& arrivals[0].0 == stream.subrange(b, next)
            &&& arrived(arrivals.skip(1)) == stream.subrange(next, stream.len() as int)
        },
{
    let tail = stream.subrange(b, stream.len() as int);
    if arrivals.len() > 0 {
        let chunk = arrivals[0].0;
        let more = arrived(arrivals.skip(1));
        assert((chunk + more).len() == tail.len());
        let next = b + chunk.len();
        assert forall|i: int| 0 <= i < chunk.len() implies chunk[i] == stream[b + i] by {
            assert((chunk + more)[i] == tail[i]);
        }
        assert(chunk =~= stream.subrange(b, next));
        assert forall|i: int| 0 <= i < more.len() implies more[i] == stream[next + i] by {
            assert((chunk + more)[chunk.len() + i] == tail[chunk.len() + i]);
        }
        assert(more =~= stream.subrange(next, stream.len() as int));
    } else {
        assert(tail.len() == 0);
    }
}

/// Arrivals and steps behind the last delimiter with header give no frame.
proof fn lemma_feed_behind_envelope(
    stream: Seq<u8>,
    clear: int,
    a: int,
    b: int,
    arrivals: Seq<(Seq<u8>, nat)>,
    steps: nat,
)
    requires
        forall|i: int| clear <= i ==> !header_at(stream, i),
        0 <= clear <= a <= b <= stream.len(),
        arrived(arrivals) == stream.subrange(b, stream.len() as int),
    ensures
        ({
            let (buf, frames) = feed(stream.subrange(a, b), arrivals);
            frames + run(buf, steps).1 == Seq::<Seq<u8>>::empty()
        }),
    decreases arrivals.len(),
{
    lemma_next_arrival(stream, b, arrivals);
    if arrivals.len() == 0 {
        lemma_run_behind_envelope(stream, clear, a, b, steps);
        assert(Seq::<Seq<u8>>::empty() + Seq::<Seq<u8>>::empty() =~= Seq::<Seq<u8>>::empty());
    } else {
        let next = b + arrivals[0].0.len();
        assert(stream.subrange(a, b) + arrivals[0].0 =~= stream.subrange(a, next));
        lemma_run_behind_envelope(stream, clear, a, next, arrivals[0].1);
        let (mid, first) = run(stream.subrange(a, next), arrivals[0].1);
        lemma_feed_behind_envelope(stream, clear, next - mid.len(), next, arrivals.skip(1), steps);
        let (last, more) = feed(mid, arrivals.skip(1));
        assert((first + more) + run(last, steps).1 =~= more + run(last, steps).1);
    }
}

/// Arrivals and steps on a buffer that starts at or before the envelope
/// give exactly its frame, once enough steps have followed the last byte.
proof fn lemma_feed_before_envelope(
    stream: Seq<u8>,
    e: int,
    plen: int,
    a: int,
    b: int,
    arrivals: Seq<(Seq<u8>, nat)>,
    steps: nat,
)
    requires
        first_envelope_at(stream, e, plen),
        forall|i: int| e + 4 + plen <= i ==> !header_at(stream, i),
        0 <= a <= e,
        a <= b <= stream.len(),
        arrived(arrivals) == stream.subrange(b, stream.len() as int),
        steps > e,
    ensures
        ({
            let (buf, frames) = feed(stream.subrange(a, b), arrivals);
            frames + run(buf, steps).1 == seq![stream.subrange(e, e + 4 + plen)]
        }),
    decreases arrivals.len(),
{
    let only = seq![stream.subrange(e, e + 4 + plen)];
    let none = Seq::<Seq<u8>>::empty();
    lemma_next_arrival(stream, b, arrivals);
    if arrivals.len() == 0 {
        lemma_run_before_envelope(stream, e, plen, a, b, steps);
        assert(none + run(stream.subrange(a, b), steps).1 =~= run(stream.subrange(a, b), steps).1);
    } else {
        let next = b + arrivals[0].0.len();
        assert(stream.subrange(a, b) + arrivals[0].0 =~= stream.subrange(a, next));
        lemma_run_before_envelope(stream, e, plen, a, next, arrivals[0].1);
        let (mid, first) = run(stream.subrange(a, next), arrivals[0].1);
        let (last, more) = feed(mid, arrivals.skip(1));
        let tail = run(last, steps).1;
        if first == none {
            lemma_feed_before_envelope(
                stream,
                e,
                plen,
                next - mid.len(),
                next,
                arrivals.skip(1),
                steps,
            );
            assert((first + more) + tail =~= more + tail);
        } else {
            lemma_feed_behind_envelope(
                stream,
                e + 4 + plen,
                next - mid.len(),
                next,
                arrivals.skip(1),
                steps,
            );
            assert((first + more) + tail =~= first + (more + tail));
            assert(first + none =~= first);
        }
    }
}

/// However the bytes of `stream` arrive and however many steps follow
/// each arrival: where `stream` holds one envelope and neither before nor
/// behind it a delimiter with header, the frames that have come out once the last
/// byte has arrived and as many steps as bytes stand before the envelope,
/// and one more, have been run, are exactly the frame of that envelope.
pub proof fn lemma_single_envelope_any_arrival(
    stream: Seq<u8>,
    e: int,
    plen: int,
    arrivals: Seq<(Seq<u8>, nat)>,
    steps: nat,
)
    requires
        first_envelope_at(stream, e, plen),
        forall|i: int| e + 4 + plen <= i ==> !header_at(stream, i),
        arrived(arrivals) == stream,
        steps > e,
    ensures
        ({
            let (buf, frames) = feed(Seq::empty(), arrivals);
            frames + run(buf, steps).1 == seq![stream.subrange(e, e + 4 + plen)]
        }),
{
    assert(stream.subrange(0, stream.len() as int) =~= stream);
    assert(stream.subrange(0, 0) =~= Seq::<u8>::empty());
    lemma_feed_before_envelope(stream, e, plen, 0, 0, arrivals, steps);
}

} // verus!
