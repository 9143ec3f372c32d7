//! The wire format of the daemon's two client commands.
//!
//! A liveness probe is the fixed token `zPING\0`. A streaming scan opens with
//! the fixed token `zINSTREAM\0`, then sends the payload as chunks of at most
//! the configured size, each preceded by its length as four big-endian bytes,
//! and closes with a zero-length chunk (four zero bytes).

use vstd::arithmetic::div_mod::lemma_basic_div;
use vstd::arithmetic::div_mod::lemma_mod_division_less_than_divisor;
use vstd::arithmetic::div_mod::lemma_div_plus_one;
use vstd::arithmetic::div_mod::lemma_mod_add_multiples_vanish;
use vstd::arithmetic::div_mod::lemma_mod_self_0;
use vstd::arithmetic::div_mod::lemma_small_mod;
use vstd::prelude::*;

verus! {

/// Streaming granularity in bytes when the caller does not choose one.
pub const DEFAULT_CHUNK_SIZE: u32 = 4096;

/// The configuration error: a chunk size of zero can never make progress
/// through a payload, so it is rejected rather than inherited.
#[derive(Clone, Copy, Debug, PartialEq, Eq, Structural)]
pub struct InvalidChunkSize;

/// The liveness-probe command: `zPING` followed by a NUL byte.
pub open spec fn ping_request_bytes() -> Seq<u8> {
    seq![0x7au8, 0x50u8, 0x49u8, 0x4eu8, 0x47u8, 0x00u8]
}

/// The streaming-scan command header: `zINSTREAM` followed by a NUL byte.
pub open spec fn instream_header_bytes() -> Seq<u8> {
    seq![0x7au8, 0x49u8, 0x4eu8, 0x53u8, 0x54u8, 0x52u8, 0x45u8, 0x41u8, 0x4du8, 0x00u8]
}

/// The end-of-payload marker: a zero-length chunk, four zero bytes.
pub open spec fn terminator_bytes() -> Seq<u8> {
    seq![0u8, 0u8, 0u8, 0u8]
}

/// The four bytes of a 32-bit value, most significant first.
pub open spec fn be_bytes_of(n: u32) -> Seq<u8> {
    seq![
        (n / 0x1000000) as u8,
        ((n / 0x10000) % 0x100) as u8,
        ((n / 0x100) % 0x100) as u8,
        (n % 0x100) as u8,
    ]
}

/// The unsigned value a 4-byte big-endian length prefix denotes.
pub open spec fn be_decode(s: Seq<u8>) -> int
    recommends
        s.len() == 4,
{
    s[0] * 0x1000000 + s[1] * 0x10000 + s[2] * 0x100 + s[3]
}

/// One chunk as it crosses the wire: its length, big-endian, then its bytes.
pub open spec fn frame_of(chunk: Seq<u8>) -> Seq<u8>
    recommends
        chunk.len() <= u32::MAX,
{
    be_bytes_of(chunk.len() as u32) + chunk
}

/// The payload cut into consecutive, non-overlapping slices of at most `c`
/// bytes each; only the last slice may be shorter, and an empty payload
/// yields no slices at all.
pub open spec fn chunks_of(payload: Seq<u8>, c: int) -> Seq<Seq<u8>>
    decreases payload.len(),
        when 0 < c
{
    if payload.len() == 0 {
        Seq::empty()
    } else if payload.len() <= c {
        seq![payload]
    } else {
        seq![payload.take(c)] + chunks_of(payload.skip(c), c)
    }
}

/// The wire frames of a list of chunks, in order.
pub open spec fn frames_of(chunks: Seq<Seq<u8>>) -> Seq<u8>
    decreases chunks.len(),
{
    if chunks.len() == 0 {
        Seq::empty()
    } else {
        frame_of(chunks[0]) + frames_of(chunks.skip(1))
    }
}

/// The chunks of a list, concatenated back into one byte sequence.
pub open spec fn concat_of(chunks: Seq<Seq<u8>>) -> Seq<u8>
    decreases chunks.len(),
{
    if chunks.len() == 0 {
        Seq::empty()
    } else {
        chunks[0] + concat_of(chunks.skip(1))
    }
}

/// The chunk size a call runs with: the given one, or the default.
pub open spec fn chunk_size_of(chunk_size: Option<u32>) -> int {
    match chunk_size {
        Option::Some(c) => c as int,
        Option::None => DEFAULT_CHUNK_SIZE as int,
    }
}

/// Everything the client transmits for a buffer scan: the command header,
/// the framed chunks, and the terminator.
pub open spec fn instream_request_bytes(payload: Seq<u8>, c: int) -> Seq<u8> {
    instream_header_bytes() + frames_of(chunks_of(payload, c)) + terminator_bytes()
}

/// The six bytes that ask the daemon whether it is alive.
pub fn ping_request() -> (r: Vec<u8>)
    ensures
        r@ == ping_request_bytes(),
{
    let mut r: Vec<u8> = Vec::new();
    r.push(0x7a);
    r.push(0x50);
    r.push(0x49);
    r.push(0x4e);
    r.push(0x47);
    r.push(0x00);
    proof {
        assert(r@ =~= ping_request_bytes());
    }
    r
}

/// The ten bytes that open a streaming scan.
pub fn instream_header() -> (r: Vec<u8>)
    ensures
        r@ == instream_header_bytes(),
{
    let mut r: Vec<u8> = Vec::new();
    r.push(0x7a);
    r.push(0x49);
    r.push(0x4e);
    r.push(0x53);
    r.push(0x54);
    r.push(0x52);
    r.push(0x45);
    r.push(0x41);
    r.push(0x4d);
    r.push(0x00);
    proof {
        assert(r@ =~= instream_header_bytes());
    }
    r
}

/// The four zero bytes that close a streaming scan.
pub fn terminator() -> (r: Vec<u8>)
    ensures
        r@ == terminator_bytes(),
{
    let mut r: Vec<u8> = Vec::new();
    r.push(0);
    r.push(0);
    r.push(0);
    r.push(0);
    proof {
        assert(r@ =~= terminator_bytes());
    }
    r
}

/// Encodes a chunk length as the wire's four big-endian bytes.
pub fn encode_be_u32(n: u32) -> (r: Vec<u8>)
    ensures
        r@ == be_bytes_of(n),
{
    let mut r: Vec<u8> = Vec::new();
    r.push((n / 0x1000000) as u8);
    r.push(((n / 0x10000) % 0x100) as u8);
    r.push(((n / 0x100) % 0x100) as u8);
    r.push((n % 0x100) as u8);
    proof {
        assert(r@ =~= be_bytes_of(n));
    }
    r
}

/// Appends every byte of `src` to `dst`, in order.
fn append_bytes(dst: &mut Vec<u8>, src: &[u8])
    ensures
        final(dst)@ == old(dst)@ + src@,
{
    proof {
        assert(dst@ =~= dst@ + src@.subrange(0, 0));
    }
    let mut k: usize = 0;
    while k < src.len()
        invariant
            k <= src@.len(),
            dst@ == old(dst)@ + src@.subrange(0, k as int),
        decreases src@.len() - k,
    {
        let b = src[k];
        dst.push(b);
        proof {
            assert(dst@ =~= old(dst)@ + src@.subrange(0, k + 1));
        }
        k = k + 1;
    }
    proof {
        assert(src@.subrange(0, src@.len() as int) =~= src@);
    }
}

/// The wire frame for one chunk: its length, big-endian, then its bytes.
pub fn frame_chunk(chunk: &[u8]) -> (r: Vec<u8>)
    requires
        chunk@.len() <= u32::MAX,
    ensures
        r@ == frame_of(chunk@),
{
    let len32: u32 = chunk.len() as u32;
    let mut r = encode_be_u32(len32);
    append_bytes(&mut r, chunk);
    r
}

/// How many bytes the first chunk of a non-empty payload holds: the chunk
/// size, or whatever is left when less remains.
pub open spec fn first_chunk_len(payload: Seq<u8>, c: int) -> int {
    if payload.len() <= c {
        payload.len() as int
    } else {
        c
    }
}

/// A non-empty payload's chunk list starts with its first chunk, followed by
/// the chunk list of the rest.
proof fn lemma_chunks_of_step(payload: Seq<u8>, c: int)
    requires
        0 < c,
        0 < payload.len(),
    ensures
        chunks_of(payload, c) == seq![payload.take(first_chunk_len(payload, c))]
            + chunks_of(payload.skip(first_chunk_len(payload, c)), c),
{
    let k = first_chunk_len(payload, c);
    if payload.len() <= c {
        assert(payload.take(k) =~= payload);
        assert(payload.skip(k) =~= Seq::<u8>::empty());
        assert(chunks_of(payload.skip(k), c) =~= Seq::<Seq<u8>>::empty());
        assert(chunks_of(payload, c) =~~= seq![payload.take(k)] + chunks_of(payload.skip(k), c));
    }
}

/// Framing distributes over putting one chunk in front of a chunk list.
proof fn lemma_frames_of_cons(chunk: Seq<u8>, rest: Seq<Seq<u8>>)
    ensures
        frames_of(seq![chunk] + rest) == frame_of(chunk) + frames_of(rest),
{
    let s = seq![chunk] + rest;
    assert(s.len() == 1 + rest.len());
    assert(s[0] == chunk);
    assert(s.skip(1) =~= rest);
}

/// Builds the complete byte stream a buffer scan transmits: the `zINSTREAM\0`
/// header, each slice of at most the chunk size framed behind its big-endian
/// length, and the four-byte terminator. A chunk size of zero is the one
/// rejected configuration; leaving the size unset means the default.
pub fn instream_request(buffer: &[u8], chunk_size: Option<u32>) -> (r: Result<
    Vec<u8>,
    InvalidChunkSize,
>)
    ensures
        r is Err <==> chunk_size == Some(0u32),
        r matches Ok(m) ==> m@ == instream_request_bytes(buffer@, chunk_size_of(chunk_size)),
{
    let c: u32 = match chunk_size {
        Some(c) => c,
        None => DEFAULT_CHUNK_SIZE,
    };
    if c == 0 {
        return Err(InvalidChunkSize);
    }
    let mut msg = instream_header();
    proof {
        assert(buffer@.skip(0) =~= buffer@);
    }
    let mut i: usize = 0;
    while i < buffer.len()
        invariant
            0 < c,
            i <= buffer@.len(),
            msg@ + frames_of(chunks_of(buffer@.skip(i as int), c as int)) == instream_header_bytes()
                + frames_of(chunks_of(buffer@, c as int)),
        decreases buffer@.len() - i,
    {
        let remaining = buffer.len() - i;
        let take: usize = if remaining < c as usize {
            remaining
        } else {
            c as usize
        };
        let chunk: &[u8] = &buffer[i..i + take];
        let ghost rest = buffer@.skip(i as int);
        proof {
            lemma_chunks_of_step(rest, c as int);
            assert(first_chunk_len(rest, c as int) == take as int);
            assert(rest.take(take as int) =~= chunk@);
            assert(rest.skip(take as int) =~= buffer@.skip(i as int + take as int));
            lemma_frames_of_cons(chunk@, chunks_of(buffer@.skip(i as int + take as int), c as int));
        }
        let fr = frame_chunk(chunk);
        let ghost msg_before = msg@;
        append_bytes(&mut msg, fr.as_slice());
        proof {
            assert(msg@ + frames_of(chunks_of(buffer@.skip(i as int + take as int), c as int))
                =~= msg_before + frames_of(chunks_of(rest, c as int)));
        }
        i = i + take;
    }
    proof {
        assert(buffer@.skip(buffer@.len() as int) =~= Seq::<u8>::empty());
        assert(msg@ =~= instream_header_bytes() + frames_of(chunks_of(buffer@, c as int)));
    }
    let term = terminator();
    append_bytes(&mut msg, term.as_slice());
    proof {
        assert(msg@ =~= instream_request_bytes(buffer@, chunk_size_of(chunk_size)));
    }
    Ok(msg)
}

/// A payload of `n` bytes is cut into exactly `(n + c - 1) / c` chunks — the
/// ceiling of `n / c`, so none for an empty payload. Every chunk before the
/// last holds exactly `c` bytes, and the last holds `n % c` bytes, or `c`
/// when `c` divides `n` evenly.
pub proof fn lemma_chunk_count(payload: Seq<u8>, c: int)
    requires
        0 < c,
    ensures
        chunks_of(payload, c).len() == (payload.len() + c - 1) / c,
        forall|i: int|
            0 <= i < chunks_of(payload, c).len() - 1 ==> #[trigger] chunks_of(payload, c)[i].len()
                == c,
        payload.len() > 0 ==> chunks_of(payload, c).last().len() == (if payload.len() as int % c
            == 0 {
            c
        } else {
            payload.len() as int % c
        }),
    decreases payload.len(),
{
    let n = payload.len() as int;
    let chunks = chunks_of(payload, c);
    if n == 0 {
        lemma_basic_div(c - 1, c);
    } else if n <= c {
        assert((n + c - 1) / c == 1) by {
            lemma_div_plus_one(n - 1, c);
            lemma_basic_div(n - 1, c);
        }
        if n < c {
            lemma_small_mod(n as nat, c as nat);
        } else {
            lemma_mod_self_0(c);
        }
    } else {
        lemma_chunk_count(payload.skip(c), c);
        let rest = chunks_of(payload.skip(c), c);
        assert(payload.skip(c).len() == n - c);
        assert((n + c - 1) / c == 1 + (n - 1) / c) by {
            lemma_div_plus_one(n - 1, c);
        }
        assert(chunks.len() == 1 + rest.len());
        assert((n - c) % c == n % c) by {
            lemma_mod_add_multiples_vanish(n - c, c);
        }
        assert forall|i: int| 0 <= i < chunks.len() - 1 implies #[trigger] chunks[i].len()
            == c by {
            if i == 0 {
                assert(chunks[0] == payload.take(c));
            } else {
                assert(chunks[i] == rest[i - 1]);
            }
        }
        assert(rest.len() > 0);
        assert(chunks.last() == rest.last());
    }
}

/// Concatenating a payload's chunks, in order, gives the payload back,
/// byte for byte.
pub proof fn lemma_chunks_concat(payload: Seq<u8>, c: int)
    requires
        0 < c,
    ensures
        concat_of(chunks_of(payload, c)) == payload,
    decreases payload.len(),
{
    if payload.len() == 0 {
        assert(concat_of(chunks_of(payload, c)) =~= payload);
    } else if payload.len() <= c {
        let chunks = chunks_of(payload, c);
        assert(chunks.skip(1) =~= Seq::<Seq<u8>>::empty());
        assert(concat_of(Seq::<Seq<u8>>::empty()) == Seq::<u8>::empty());
        assert(concat_of(chunks) =~= payload);
    } else {
        lemma_chunks_concat(payload.skip(c), c);
        let chunks = chunks_of(payload, c);
        assert(chunks[0] == payload.take(c));
        assert(chunks.skip(1) =~= chunks_of(payload.skip(c), c));
        assert(concat_of(chunks) =~= payload.take(c) + payload.skip(c));
        assert(payload.take(c) + payload.skip(c) =~= payload);
    }
}

/// A 32-bit length survives the round trip through its big-endian bytes.
pub proof fn lemma_be_bytes_decode(n: u32)
    ensures
        be_bytes_of(n).len() == 4,
        be_decode(be_bytes_of(n)) == n,
{
    assert(n / 0x1000000 < 0x100) by (bit_vector);
    assert((n / 0x10000) % 0x100 < 0x100) by (bit_vector);
    assert((n / 0x100) % 0x100 < 0x100) by (bit_vector);
    assert(n % 0x100 < 0x100) by (bit_vector);
    assert((n / 0x1000000) * 0x1000000 + ((n / 0x10000) % 0x100) * 0x10000 + ((n / 0x100) % 0x100)
        * 0x100 + (n % 0x100) == n) by (bit_vector);
}

/// Every chunk's wire frame opens with four bytes that decode, as a
/// big-endian unsigned 32-bit integer, to exactly the chunk's byte length,
/// and carries the chunk itself right behind them.
pub proof fn lemma_frame_prefix(chunk: Seq<u8>)
    requires
        chunk.len() <= u32::MAX,
    ensures
        frame_of(chunk).len() == 4 + chunk.len(),
        be_decode(frame_of(chunk).take(4)) == chunk.len(),
        frame_of(chunk).skip(4) == chunk,
{
    lemma_be_bytes_decode(chunk.len() as u32);
    assert(frame_of(chunk).take(4) =~= be_bytes_of(chunk.len() as u32));
    assert(frame_of(chunk).skip(4) =~= chunk);
}

/// For any chunk size that itself fits in 32 bits, every chunk a payload is
/// cut into fits the 32-bit length prefix, and every frame's prefix decodes
/// to exactly its chunk's byte length.
pub proof fn lemma_every_prefix_decodes(payload: Seq<u8>, c: int)
    requires
        0 < c <= u32::MAX,
    ensures
        forall|i: int|
            0 <= i < chunks_of(payload, c).len() ==> (#[trigger] chunks_of(payload, c)[i]).len()
                <= c,
        forall|i: int|
            0 <= i < chunks_of(payload, c).len() ==> be_decode(
                frame_of(#[trigger] chunks_of(payload, c)[i]).take(4),
            ) == chunks_of(payload, c)[i].len(),
{
    lemma_chunk_count(payload, c);
    let chunks = chunks_of(payload, c);
    assert forall|i: int| 0 <= i < chunks.len() implies (#[trigger] chunks[i]).len() <= c by {
        if i == chunks.len() - 1 {
            assert(payload.len() > 0);
            lemma_mod_division_less_than_divisor(payload.len() as int, c);
            assert(chunks.last() == chunks[i]);
        }
    }
    assert forall|i: int|
        0 <= i < chunks.len() implies be_decode(frame_of(#[trigger] chunks[i]).take(4))
        == chunks[i].len() by {
        lemma_frame_prefix(chunks[i]);
    }
}

} // verus!
