//! The dictionary coder that packs a song's payload.
//!
//! A packed stream is a run of groups. A group is one flag byte followed by
//! up to eight chunks; the flag byte is read from its most significant bit
//! down, one bit per chunk. A clear bit announces a literal: one byte that
//! goes to the output as it is. A set bit announces a backreference: two
//! bytes that name a run of 3 to 18 bytes already in the output, at most
//! 4096 bytes back, which is appended again byte by byte.

use vstd::prelude::*;
use crate::error::CodecError;

verus! {

/// How far back a backreference can reach.
pub const WINDOW: usize = 4096;

/// Shortest run worth a backreference.
pub const MIN_MATCH: usize = 3;

/// Longest run one backreference can name.
pub const MAX_MATCH: usize = 18;

/// Number of chunks that share one flag byte.
pub const GROUP: usize = 8;

/// Whether chunk `k` of a group (`0` is the first) is a backreference.
pub open spec fn flag_is_backref(flags: u8, k: u8) -> bool {
    flags & (0x80u8 >> k) != 0
}

/// The distance field of a backreference: twelve bits, the high four taken
/// from the low half of the first byte.
pub open spec fn backref_offset(b1: u8, b2: u8) -> usize {
    (((b1 & 0x0F) as usize) << 8) | (b2 as usize)
}

/// The run length of a backreference: the high half of the first byte,
/// plus three.
pub open spec fn backref_length(b1: u8) -> usize {
    ((b1 >> 4) as usize + 3) as usize
}

/// `out` after a backreference has been carried out on it: `length` times
/// over, the byte that lies `offset + 1` places before the end is appended.
/// A run may reach into the bytes that it has itself just appended.
pub open spec fn copy_back(out: Seq<u8>, offset: int, length: nat) -> Seq<u8>
    decreases length,
{
    if length == 0 {
        out
    } else {
        copy_back(out.push(out[out.len() - 1 - offset]), offset, (length - 1) as nat)
    }
}

/// The number of bytes that a run of `length` adds when `room` bytes are
/// still wanted: all of them, or as many as are wanted.
pub open spec fn run_within(length: nat, room: nat) -> nat {
    if length <= room {
        length
    } else {
        room
    }
}

/// What decoding yields from a state in the middle of a stream: `src` is
/// the input still unread, `flags` the flag byte of the current group, `k`
/// the number of its chunks already decoded (8 when a new group is due) and
/// `out` the output so far. Decoding ends as soon as `out` holds `want`
/// bytes: a run that would go on past that point is cut off there, and
/// bits of the flag byte left over are ignored. It fails when the input
/// runs out first, or when a backreference points before the start of the
/// output.
pub open spec fn decode_from(src: Seq<u8>, flags: u8, k: u8, out: Seq<u8>, want: nat) -> Option<
    Seq<u8>,
>
    decreases src.len(),
{
    if out.len() >= want {
        Some(out)
    } else if src.len() == 0 {
        None
    } else if k >= 8 {
        decode_from(src.drop_first(), src[0], 0, out, want)
    } else if !flag_is_backref(flags, k) {
        decode_from(src.drop_first(), flags, (k + 1) as u8, out.push(src[0]), want)
    } else if src.len() < 2 {
        None
    } else {
        let offset = backref_offset(src[0], src[1]);
        let length = backref_length(src[0]);
        if offset >= out.len() {
            None
        } else {
            decode_from(
                src.skip(2),
                flags,
                (k + 1) as u8,
                copy_back(
                    out,
                    offset as int,
                    run_within(length as nat, (want - out.len()) as nat),
                ),
                want,
            )
        }
    }
}

/// The bytes that a packed stream stands for when `want` bytes are asked
/// of it, exactly that many, or `None` when it cannot be decoded that
/// far.
pub open spec fn decompressed(src: Seq<u8>, want: nat) -> Option<Seq<u8>> {
    decode_from(src, 0, 8, Seq::empty(), want)
}

/// Carrying out a backreference adds exactly `length` bytes and keeps what
/// was there.
pub proof fn lemma_copy_back_len(out: Seq<u8>, offset: int, length: nat)
    ensures
        copy_back(out, offset, length).len() == out.len() + length,
        copy_back(out, offset, length).subrange(0, out.len() as int) == out,
    decreases length,
{
    if length > 0 {
        let next = out.push(out[out.len() - 1 - offset]);
        lemma_copy_back_len(next, offset, (length - 1) as nat);
        assert(copy_back(out, offset, length).subrange(0, out.len() as int) =~= next.subrange(
            0,
            out.len() as int,
        ));
        assert(next.subrange(0, out.len() as int) =~= out);
    } else {
        assert(out.subrange(0, out.len() as int) =~= out);
    }
}

/// Decoding gives the bytes asked for and not one more.
pub proof fn lemma_decoded_len(src: Seq<u8>, flags: u8, k: u8, out: Seq<u8>, want: nat)
    requires
        out.len() <= want,
        decode_from(src, flags, k, out, want) is Some,
    ensures
        decode_from(src, flags, k, out, want)->Some_0.len() == want,
    decreases src.len(),
{
    if out.len() >= want || src.len() == 0 {
    } else if k >= 8 {
        lemma_decoded_len(src.drop_first(), src[0], 0, out, want);
    } else if !flag_is_backref(flags, k) {
        lemma_decoded_len(src.drop_first(), flags, (k + 1) as u8, out.push(src[0]), want);
    } else if src.len() >= 2 {
        let offset = backref_offset(src[0], src[1]);
        let run = run_within(backref_length(src[0]) as nat, (want - out.len()) as nat);
        if offset < out.len() {
            lemma_copy_back_len(out, offset as int, run);
            lemma_decoded_len(
                src.skip(2),
                flags,
                (k + 1) as u8,
                copy_back(out, offset as int, run),
                want,
            );
        }
    }
}

/// Appends to `out` the run that a backreference names.
fn append_run(out: &mut Vec<u8>, offset: usize, length: usize)
    requires
        offset < old(out)@.len(),
    ensures
        final(out)@ == copy_back(old(out)@, offset as int, length as nat),
{
    let mut done: usize = 0;
    while done < length
        invariant
            done <= length,
            offset < out@.len(),
            copy_back(out@, offset as int, (length - done) as nat) == copy_back(
                old(out)@,
                offset as int,
                length as nat,
            ),
        decreases length - done,
    {
        let index = out.len() - 1 - offset;
        let byte = out[index];
        out.push(byte);
        done += 1;
    }
}

/// Unpacks `data` until `len` bytes are out, and returns exactly these.
///
/// The input may be longer than the stream: what follows the point at which
/// `len` bytes are reached is not read, and a run that would go on past
/// that point is cut off there.
pub fn decompress(len: usize, data: &[u8]) -> (result: Result<Vec<u8>, CodecError>)
    ensures
        match result {
            Ok(out) => {
                &&& decompressed(data@, len as nat) == Some(out@)
                &&& out@.len() == len
            },
            Err(e) => e == CodecError::MalformedInput && decompressed(data@, len as nat).is_none(),
        },
{
    let mut out: Vec<u8> = Vec::new();
    let mut pos: usize = 0;
    let mut flags: u8 = 0;
    let mut k: u8 = 8;
    assert(data@.skip(0) =~= data@);
    while out.len() < len
        invariant
            pos <= data.len(),
            k <= 8,
            out.len() <= len,
            decode_from(data@.skip(pos as int), flags, k, out@, len as nat) == decompressed(
                data@,
                len as nat,
            ),
        decreases data.len() - pos,
    {
        let ghost src = data@.skip(pos as int);
        if pos >= data.len() {
            return Err(CodecError::MalformedInput);
        }
        assert(src[0] == data@[pos as int]);
        assert(src.drop_first() =~= data@.skip(pos + 1));
        if k == 8 {
            flags = data[pos];
            k = 0;
            pos += 1;
        } else if flags & (0x80u8 >> k) == 0 {
            out.push(data[pos]);
            k += 1;
            pos += 1;
        } else {
            if data.len() - pos < 2 {
                return Err(CodecError::MalformedInput);
            }
            let b1 = data[pos];
            let b2 = data[pos + 1];
            assert(src[1] == data@[pos + 1]);
            assert(src.skip(2) =~= data@.skip(pos + 2));
            let offset = (((b1 & 0x0F) as usize) << 8) | (b2 as usize);
            assert((b1 >> 4) < 16) by (bit_vector);
            let length = (b1 >> 4) as usize + 3;
            if offset >= out.len() {
                return Err(CodecError::MalformedInput);
            }
            let room = len - out.len();
            let run = if length <= room {
                length
            } else {
                room
            };
            proof {
                lemma_copy_back_len(out@, offset as int, run as nat);
            }
            append_run(&mut out, offset, run);
            k += 1;
            pos += 2;
        }
    }
    proof {
        lemma_decoded_len(data@, 0, 8, Seq::empty(), len as nat);
    }
    Ok(out)
}

/// One step of a packed stream.
#[derive(Debug, Clone, Copy, PartialEq, Eq)]
pub enum Chunk {
    /// One byte, stored as it is.
    Literal(u8),
    /// A run of `length` bytes that repeats the output from `offset + 1`
    /// places back.
    Backref { offset: usize, length: usize },
}

/// Whether a chunk can be written down: a backreference has twelve bits for
/// its distance and four for its length above three.
pub open spec fn chunk_wf(c: Chunk) -> bool {
    match c {
        Chunk::Literal(_) => true,
        Chunk::Backref { offset, length } => offset < WINDOW && MIN_MATCH <= length <= MAX_MATCH,
    }
}

/// Whether every chunk of a list can be written down.
pub open spec fn chunks_wf(chunks: Seq<Chunk>) -> bool {
    forall|i: int| 0 <= i < chunks.len() ==> chunk_wf(#[trigger] chunks[i])
}

/// The number of output bytes that a chunk stands for.
pub open spec fn chunk_span(c: Chunk) -> nat {
    match c {
        Chunk::Literal(_) => 1,
        Chunk::Backref { offset, length } => length as nat,
    }
}

/// First byte of a backreference: length above three in the high half,
/// the high four bits of the distance in the low half.
pub open spec fn backref_byte1(offset: usize, length: usize) -> u8 {
    ((((length - 3) as usize) << 4) | ((offset >> 8) & 0x0F)) as u8
}

/// Second byte of a backreference: the low eight bits of the distance.
pub open spec fn backref_byte2(offset: usize) -> u8 {
    (offset & 0xFF) as u8
}

/// The bytes that a chunk takes in a stream, its flag bit aside.
pub open spec fn chunk_bytes(c: Chunk) -> Seq<u8> {
    match c {
        Chunk::Literal(byte) => seq![byte],
        Chunk::Backref { offset, length } => seq![
            backref_byte1(offset, length),
            backref_byte2(offset),
        ],
    }
}

/// The bytes of a list of chunks, one after another.
pub open spec fn chunks_bytes(chunks: Seq<Chunk>) -> Seq<u8>
    decreases chunks.len(),
{
    if chunks.len() == 0 {
        Seq::empty()
    } else {
        chunk_bytes(chunks[0]) + chunks_bytes(chunks.drop_first())
    }
}

/// The flag bit that chunk `k` of a group contributes.
pub open spec fn chunk_bit(c: Chunk, k: u8) -> u8 {
    match c {
        Chunk::Literal(_) => 0u8,
        Chunk::Backref { .. } => 0x80u8 >> k,
    }
}

/// The flag byte made of the first `n` chunks of a group. Bits of chunks
/// that are not there stay clear.
pub open spec fn group_flags(chunks: Seq<Chunk>, n: nat) -> u8
    decreases n,
{
    if n == 0 {
        0u8
    } else {
        group_flags(chunks, (n - 1) as nat) | chunk_bit(chunks[n - 1], (n - 1) as u8)
    }
}

/// One group on the wire: the flag byte, then the chunks.
pub open spec fn encode_group(chunks: Seq<Chunk>) -> Seq<u8> {
    seq![group_flags(chunks, chunks.len())] + chunks_bytes(chunks)
}

/// A list of chunks on the wire: groups of eight, the last one possibly
/// shorter. No chunks, no bytes.
pub open spec fn encode_stream(chunks: Seq<Chunk>) -> Seq<u8>
    decreases chunks.len(),
{
    if chunks.len() == 0 {
        Seq::empty()
    } else if chunks.len() <= GROUP {
        encode_group(chunks)
    } else {
        encode_group(chunks.take(GROUP as int)) + encode_stream(chunks.skip(GROUP as int))
    }
}

/// Appends one group to `buf`: the flag byte of `chunks`, then their bytes.
pub fn encode_chunks(buf: &mut Vec<u8>, chunks: &[Chunk])
    requires
        chunks@.len() <= GROUP,
        chunks_wf(chunks@),
    ensures
        final(buf)@ == old(buf)@ + encode_group(chunks@),
{
    let mut code_byte: u8 = 0;
    let mut i: usize = 0;
    while i < chunks.len()
        invariant
            i <= chunks.len() <= GROUP,
            code_byte == group_flags(chunks@, i as nat),
        decreases chunks.len() - i,
    {
        let bit: u8 = match chunks[i] {
            Chunk::Literal(_) => 0,
            Chunk::Backref { .. } => 0x80u8 >> (i as u8),
        };
        code_byte = code_byte | bit;
        i += 1;
    }
    buf.push(code_byte);

    let mut j: usize = 0;
    assert(chunks@.skip(0) =~= chunks@);
    while j < chunks.len()
        invariant
            j <= chunks.len(),
            chunks_wf(chunks@),
            buf@ + chunks_bytes(chunks@.skip(j as int)) == old(buf)@ + encode_group(chunks@),
        decreases chunks.len() - j,
    {
        let ghost rest = chunks@.skip(j as int);
        let ghost before = buf@;
        assert(rest[0] == chunks@[j as int]);
        assert(rest.drop_first() =~= chunks@.skip(j + 1));
        assert(chunk_wf(chunks@[j as int]));
        match chunks[j] {
            Chunk::Literal(byte) => {
                buf.push(byte);
            },
            Chunk::Backref { offset, length } => {
                let high: usize = ((length - 3) << 4) | ((offset >> 8) & 0x0F);
                let low: usize = offset & 0xFF;
                assert(high < 256) by (bit_vector)
                    requires
                        high == (((length - 3) as usize) << 4) | ((offset >> 8) & 0x0F),
                        3 <= length <= 18,
                ;
                assert(low < 256) by (bit_vector)
                    requires
                        low == offset & 0xFF,
                ;
                buf.push(high as u8);
                buf.push(low as u8);
            },
        }
        assert(buf@ =~= before + chunk_bytes(chunks@[j as int]));
        assert(buf@ + chunks_bytes(chunks@.skip(j + 1)) =~= before + chunks_bytes(rest));
        j += 1;
    }
    assert(chunks@.skip(chunks@.len() as int) =~= Seq::<Chunk>::empty());
    assert(buf@ + Seq::<u8>::empty() =~= buf@);
}

/// How many bytes from `cand` on agree with those from `pos` on, counted up
/// to `cap` and up to the end of `data`. The two runs may overlap.
pub open spec fn run_length(data: Seq<u8>, cand: int, pos: int, cap: nat) -> nat
    decreases cap,
{
    if cap == 0 || pos >= data.len() || data[cand] != data[pos] {
        0
    } else {
        1 + run_length(data, cand + 1, pos + 1, (cap - 1) as nat)
    }
}

/// The length of the match that candidate `cand` offers at `pos`.
pub open spec fn match_length(data: Seq<u8>, cand: int, pos: int) -> nat {
    run_length(data, cand, pos, MAX_MATCH as nat)
}

/// The oldest position that a backreference at `pos` can reach.
pub open spec fn window_start(pos: int) -> int {
    if pos > WINDOW {
        pos - WINDOW
    } else {
        0
    }
}

/// The match kept after the candidates from the start of the window up to,
/// but not including, `upto` have been tried in that order: a candidate
/// takes the place of the one kept only when it is strictly longer, so of
/// several longest matches the farthest one stays. The result is the
/// candidate's position and the length of its match; `(0, 0)` when no
/// candidate matches at all.
pub open spec fn best_match(data: Seq<u8>, pos: int, upto: int) -> (int, nat)
    decreases upto - window_start(pos),
{
    if upto <= window_start(pos) {
        (0, 0)
    } else {
        let kept = best_match(data, pos, upto - 1);
        let length = match_length(data, upto - 1, pos);
        if length > kept.1 {
            (upto - 1, length)
        } else {
            kept
        }
    }
}

/// The chunks that the greedy coder emits for `data[pos..]`: at each point
/// the match kept among all candidates of the window if it is at least
/// three bytes long, else one literal.
pub open spec fn greedy_chunks(data: Seq<u8>, pos: int) -> Seq<Chunk>
    decreases
            if pos < data.len() {
                data.len() - pos
            } else {
                0
            },
{
    if pos < 0 || pos >= data.len() {
        Seq::empty()
    } else {
        let (cand, length) = best_match(data, pos, pos);
        if length < MIN_MATCH {
            seq![Chunk::Literal(data[pos])] + greedy_chunks(data, pos + 1)
        } else {
            seq![Chunk::Backref { offset: (pos - cand - 1) as usize, length: length as usize }]
                + greedy_chunks(data, pos + length)
        }
    }
}

/// The packed form of `data`.
pub open spec fn compressed(data: Seq<u8>) -> Seq<u8> {
    encode_stream(greedy_chunks(data, 0))
}

/// A match is never longer than its cap, nor than what is left of the data.
pub proof fn lemma_run_length_bound(data: Seq<u8>, cand: int, pos: int, cap: nat)
    requires
        0 <= pos <= data.len(),
    ensures
        run_length(data, cand, pos, cap) <= cap,
        run_length(data, cand, pos, cap) <= data.len() - pos,
    decreases cap,
{
    if !(cap == 0 || pos >= data.len() || data[cand] != data[pos]) {
        lemma_run_length_bound(data, cand + 1, pos + 1, (cap - 1) as nat);
    }
}

/// What is known of the match kept after a scan: it lies in the part of the
/// window scanned, it has the length reported, no candidate scanned is
/// longer, and every candidate farther back is shorter.
pub proof fn lemma_best_match(data: Seq<u8>, pos: int, upto: int)
    requires
        0 <= pos <= data.len(),
        upto <= pos,
    ensures
        best_match(data, pos, upto).1 <= MAX_MATCH,
        best_match(data, pos, upto).1 <= data.len() - pos,
        best_match(data, pos, upto).1 > 0 ==> {
            &&& window_start(pos) <= best_match(data, pos, upto).0 < upto
            &&& match_length(data, best_match(data, pos, upto).0, pos) == best_match(
                data,
                pos,
                upto,
            ).1
        },
        forall|c: int|
            window_start(pos) <= c < upto ==> #[trigger] match_length(data, c, pos) <= best_match(
                data,
                pos,
                upto,
            ).1,
        forall|c: int|
            window_start(pos) <= c < best_match(data, pos, upto).0 && c < upto
                ==> #[trigger] match_length(data, c, pos) < best_match(data, pos, upto).1,
    decreases upto - window_start(pos),
{
    if upto > window_start(pos) {
        lemma_best_match(data, pos, upto - 1);
        lemma_run_length_bound(data, upto - 1, pos, MAX_MATCH as nat);
    }
}

/// Once the match kept reaches the end of the data, trying further
/// candidates changes nothing.
pub proof fn lemma_best_match_settled(data: Seq<u8>, pos: int, upto: int, later: int)
    requires
        0 <= pos <= data.len(),
        upto <= later <= pos,
        best_match(data, pos, upto).1 == data.len() - pos,
    ensures
        best_match(data, pos, later) == best_match(data, pos, upto),
    decreases later - upto,
{
    if later > upto {
        lemma_best_match_settled(data, pos, upto, later - 1);
        lemma_run_length_bound(data, later - 1, pos, MAX_MATCH as nat);
    }
}

/// Measures the match that candidate `cand` offers at `pos`.
fn match_at(data: &[u8], cand: usize, pos: usize) -> (length: usize)
    requires
        cand < pos <= data.len(),
    ensures
        length == match_length(data@, cand as int, pos as int),
        length <= MAX_MATCH,
        pos + length <= data.len(),
{
    let mut length: usize = 0;
    while pos + length < data.len() && length < MAX_MATCH
        invariant
            cand < pos <= data.len(),
            length <= MAX_MATCH,
            pos + length <= data.len(),
            match_length(data@, cand as int, pos as int) == length + run_length(
                data@,
                cand + length,
                pos + length,
                (MAX_MATCH - length) as nat,
            ),
        ensures
            length == match_length(data@, cand as int, pos as int),
        decreases MAX_MATCH - length,
    {
        if data[pos + length] != data[cand + length] {
            break ;
        }
        length += 1;
    }
    length
}

/// Scans the window of `pos` from its oldest position to the newest and
/// returns the match kept: its position and its length.
fn find_match(data: &[u8], pos: usize) -> (best: (usize, usize))
    requires
        pos < data.len(),
    ensures
        (best.0 as int, best.1 as nat) == best_match(data@, pos as int, pos as int),
        best.1 <= MAX_MATCH,
        pos + best.1 <= data.len(),
        best.1 > 0 ==> window_start(pos as int) <= best.0 < pos,
{
    let mut best_position: usize = 0;
    let mut best_length: usize = 0;
    let start: usize = if pos > WINDOW {
        pos - WINDOW
    } else {
        0
    };
    let mut cand: usize = start;
    while cand < pos
        invariant_except_break
            (best_position as int, best_length as nat) == best_match(
                data@,
                pos as int,
                cand as int,
            ),
        invariant
            start == window_start(pos as int),
            start <= cand <= pos < data.len(),
        ensures
            (best_position as int, best_length as nat) == best_match(
                data@,
                pos as int,
                pos as int,
            ),
        decreases pos - cand,
    {
        let length = match_at(data, cand, pos);
        if length > best_length {
            best_position = cand;
            best_length = length;
            if pos + length == data.len() {
                proof {
                    lemma_best_match_settled(data@, pos as int, cand + 1, pos as int);
                }
                break ;
            }
        }
        cand += 1;
    }
    proof {
        lemma_best_match(data@, pos as int, pos as int);
    }
    (best_position, best_length)
}

/// With a full group in hand and more chunks to come, the stream is that
/// group followed by the stream of the rest.
pub proof fn lemma_encode_stream_split(group: Seq<Chunk>, rest: Seq<Chunk>)
    requires
        group.len() == GROUP,
        rest.len() > 0,
    ensures
        encode_stream(group + rest) == encode_group(group) + encode_stream(rest),
{
    assert((group + rest).take(GROUP as int) =~= group);
    assert((group + rest).skip(GROUP as int) =~= rest);
}

/// Packs `data`.
pub fn compress(data: &[u8]) -> (buf: Vec<u8>)
    ensures
        buf@ == compressed(data@),
{
    let mut buf: Vec<u8> = Vec::new();
    let mut in_index: usize = 0;
    let mut chunks: Vec<Chunk> = Vec::new();
    assert(chunks@ + greedy_chunks(data@, 0) =~= greedy_chunks(data@, 0));
    assert(buf@ + compressed(data@) =~= compressed(data@));
    while in_index < data.len()
        invariant
            in_index <= data.len(),
            chunks@.len() <= GROUP,
            chunks_wf(chunks@),
            buf@ + encode_stream(chunks@ + greedy_chunks(data@, in_index as int)) == compressed(
                data@,
            ),
        decreases data.len() - in_index,
    {
        let ghost rest = greedy_chunks(data@, in_index as int);
        if chunks.len() == GROUP {
            let ghost before = buf@;
            proof {
                lemma_encode_stream_split(chunks@, rest);
            }
            encode_chunks(&mut buf, chunks.as_slice());
            assert(buf@ + encode_stream(rest) =~= before + encode_stream(chunks@ + rest));
            chunks.clear();
            assert(chunks@ + rest =~= rest);
        }
        let ghost pending = chunks@;
        let (best_position, best_length) = find_match(data, in_index);
        let chunk = if best_length < MIN_MATCH {
            Chunk::Literal(data[in_index])
        } else {
            Chunk::Backref { offset: in_index - best_position - 1, length: best_length }
        };
        chunks.push(chunk);
        in_index += if best_length < MIN_MATCH {
            1
        } else {
            best_length
        };
        assert(rest =~= seq![chunk] + greedy_chunks(data@, in_index as int));
        assert(chunks@ + greedy_chunks(data@, in_index as int) =~= pending + rest);
    }
    assert(greedy_chunks(data@, in_index as int) =~= Seq::<Chunk>::empty());
    assert(chunks@ + Seq::<Chunk>::empty() =~= chunks@);
    if chunks.len() > 0 {
        encode_chunks(&mut buf, chunks.as_slice());
    } else {
        assert(buf@ + Seq::<u8>::empty() =~= buf@);
    }
    buf
}

/// Whether chunk `c`, met when `p` bytes of `data` are out, stands for the
/// bytes of `data` that come next.
pub open spec fn chunk_fits(data: Seq<u8>, p: int, c: Chunk) -> bool {
    match c {
        Chunk::Literal(byte) => 0 <= p < data.len() && byte == data[p],
        Chunk::Backref { offset, length } => {
            &&& chunk_wf(c)
            &&& 0 <= offset < p
            &&& p + length <= data.len()
            &&& forall|k: int|
                0 <= k < length ==> data[p + k - 1 - offset] == #[trigger] data[p + k]
        },
    }
}

/// The number of output bytes that a list of chunks stands for.
pub open spec fn chunks_span(chunks: Seq<Chunk>) -> nat
    decreases chunks.len(),
{
    if chunks.len() == 0 {
        0
    } else {
        chunk_span(chunks[0]) + chunks_span(chunks.drop_first())
    }
}

/// Whether a list of chunks, met when `p` bytes of `data` are out, stands
/// chunk by chunk for the bytes of `data` that come next.
pub open spec fn chunks_fit(data: Seq<u8>, p: int, chunks: Seq<Chunk>) -> bool
    decreases chunks.len(),
{
    chunks.len() == 0 || (chunk_fits(data, p, chunks[0]) && chunks_fit(
        data,
        p + chunk_span(chunks[0]),
        chunks.drop_first(),
    ))
}

/// The bytes that a match covers agree pairwise.
pub proof fn lemma_run_length_agrees(data: Seq<u8>, cand: int, pos: int, cap: nat, k: int)
    requires
        0 <= k < run_length(data, cand, pos, cap),
    ensures
        data[cand + k] == data[pos + k],
    decreases cap,
{
    if k > 0 {
        lemma_run_length_agrees(data, cand + 1, pos + 1, (cap - 1) as nat, k - 1);
    }
}

/// A backreference that fits, carried out on the first `p` bytes of the
/// data, gives the first `p + length` bytes of the data.
pub proof fn lemma_copy_back_fits(data: Seq<u8>, p: int, offset: int, length: nat)
    requires
        0 <= offset < p,
        p + length <= data.len(),
        forall|k: int| 0 <= k < length ==> data[p + k - 1 - offset] == #[trigger] data[p + k],
    ensures
        copy_back(data.take(p), offset, length) == data.take(p + length),
    decreases length,
{
    if length > 0 {
        let out = data.take(p);
        assert(data[p + 0 - 1 - offset] == data[p + 0]);
        assert(out.push(out[out.len() - 1 - offset]) =~= data.take(p + 1));
        assert forall|k: int| 0 <= k < length - 1 implies data[p + 1 + k - 1 - offset]
            == #[trigger] data[p + 1 + k] by {
            assert(data[p + (k + 1) - 1 - offset] == data[p + (k + 1)]);
        }
        lemma_copy_back_fits(data, p + 1, offset, (length - 1) as nat);
    }
}

/// The two bytes of a backreference give its distance and its length back.
pub proof fn lemma_backref_bytes(offset: usize, length: usize)
    requires
        offset < WINDOW,
        MIN_MATCH <= length <= MAX_MATCH,
    ensures
        backref_offset(backref_byte1(offset, length), backref_byte2(offset)) == offset,
        backref_length(backref_byte1(offset, length)) == length,
{
    let l3: usize = (length - 3) as usize;
    let b1: u8 = ((l3 << 4) | ((offset >> 8) & 0x0F)) as u8;
    let b2: u8 = (offset & 0xFF) as u8;
    assert((((b1 & 0x0F) as usize) << 8) | (b2 as usize) == offset) by (bit_vector)
        requires
            offset < 4096,
            l3 < 16,
            b1 == ((l3 << 4) | ((offset >> 8) & 0x0F)) as u8,
            b2 == (offset & 0xFF) as u8,
    ;
    assert((b1 >> 4) as usize == l3) by (bit_vector)
        requires
            offset < 4096,
            l3 < 16,
            b1 == ((l3 << 4) | ((offset >> 8) & 0x0F)) as u8,
    ;
}

/// A flag byte tells of each chunk of its group what kind it is.
pub proof fn lemma_group_flags(chunks: Seq<Chunk>, n: nat, k: u8)
    requires
        n <= chunks.len(),
        n <= GROUP,
        k < GROUP,
    ensures
        flag_is_backref(group_flags(chunks, n), k) == (k < n && chunks[k as int] is Backref),
    decreases n,
{
    if n == 0 {
        assert(0u8 & (0x80u8 >> k) == 0) by (bit_vector);
    } else {
        lemma_group_flags(chunks, (n - 1) as nat, k);
        let f = group_flags(chunks, (n - 1) as nat);
        let j: u8 = (n - 1) as u8;
        assert(((f | 0u8) & (0x80u8 >> k) != 0) == (f & (0x80u8 >> k) != 0)) by (bit_vector);
        assert(((f | (0x80u8 >> j)) & (0x80u8 >> k) != 0) == ((f & (0x80u8 >> k) != 0) || k == j))
            by (bit_vector)
            requires
                j < 8,
                k < 8,
        ;
    }
}

/// Chunks that fit can be taken in two parts: the first fits, and the
/// second fits where the first ends.
pub proof fn lemma_chunks_fit_split(data: Seq<u8>, p: int, chunks: Seq<Chunk>, n: int)
    requires
        0 <= n <= chunks.len(),
        chunks_fit(data, p, chunks),
    ensures
        chunks_fit(data, p, chunks.take(n)),
        chunks_fit(data, p + chunks_span(chunks.take(n)), chunks.skip(n)),
        chunks_span(chunks) == chunks_span(chunks.take(n)) + chunks_span(chunks.skip(n)),
    decreases n,
{
    if n == 0 {
        assert(chunks.skip(0) =~= chunks);
    } else {
        let rest = chunks.drop_first();
        lemma_chunks_fit_split(data, p + chunk_span(chunks[0]), rest, n - 1);
        assert(chunks.take(n).drop_first() =~= rest.take(n - 1));
        assert(chunks.skip(n) =~= rest.skip(n - 1));
    }
}

/// The part of the data that is out when the chunks up to position `p`
/// have been decoded and `want` bytes are asked for: the first `p` bytes,
/// or the first `want` when that is fewer.
pub open spec fn out_at(data: Seq<u8>, p: int, want: nat) -> Seq<u8> {
    if p <= want {
        data.take(p)
    } else {
        data.take(want as int)
    }
}

/// Decoding the chunks of one group from chunk `i` on, given that they fit
/// the data, leaves the decoder behind the group with the bytes that they
/// stand for appended, as far as they are asked for.
pub proof fn lemma_decode_group(
    data: Seq<u8>,
    p: int,
    group: Seq<Chunk>,
    i: int,
    tail: Seq<u8>,
    want: nat,
)
    requires
        group.len() <= GROUP,
        0 <= i <= group.len(),
        0 <= p,
        want <= data.len(),
        chunks_fit(data, p, group.skip(i)),
    ensures
        decode_from(
            chunks_bytes(group.skip(i)) + tail,
            group_flags(group, group.len()),
            i as u8,
            out_at(data, p, want),
            want,
        ) == decode_from(
            tail,
            group_flags(group, group.len()),
            group.len() as u8,
            out_at(data, p + chunks_span(group.skip(i)), want),
            want,
        ),
    decreases group.len() - i,
{
    let flags = group_flags(group, group.len());
    let chunks = group.skip(i);
    let src = chunks_bytes(chunks) + tail;
    if i == group.len() {
        assert(src =~= tail);
    } else if p >= want {
        // Nothing more is asked for: both sides hold what is out already.
        assert(out_at(data, p, want) =~= data.take(want as int));
        assert(out_at(data, p + chunks_span(chunks), want) =~= data.take(want as int));
    } else {
        let c = group[i];
        assert(chunks[0] == c);
        assert(chunks.drop_first() =~= group.skip(i + 1));
        let after = chunks_bytes(group.skip(i + 1)) + tail;
        lemma_group_flags(group, group.len(), i as u8);
        lemma_decode_group(data, p + chunk_span(c), group, i + 1, tail, want);
        match c {
            Chunk::Literal(byte) => {
                assert(src.drop_first() =~= after);
                assert(data.take(p).push(src[0]) =~= data.take(p + 1));
            },
            Chunk::Backref { offset, length } => {
                let run = run_within(length as nat, (want - p) as nat);
                lemma_backref_bytes(offset, length);
                lemma_copy_back_fits(data, p, offset as int, run);
                assert(src.skip(2) =~= after);
                assert(src[0] == backref_byte1(offset, length));
                assert(src[1] == backref_byte2(offset));
                assert(data.take(p + run) =~= out_at(data, p + length, want));
            },
        }
    }
}

/// Decoding a stream whose chunks fit the data and reach its end, to any
/// length up to that of the data, gives the data that far, whatever
/// follows the stream.
pub proof fn lemma_decode_stream(
    data: Seq<u8>,
    p: int,
    chunks: Seq<Chunk>,
    suffix: Seq<u8>,
    flags: u8,
    want: nat,
)
    requires
        0 <= p,
        want <= data.len(),
        chunks_fit(data, p, chunks),
        p + chunks_span(chunks) == data.len(),
    ensures
        decode_from(encode_stream(chunks) + suffix, flags, 8, out_at(data, p, want), want) == Some(
            data.take(want as int),
        ),
    decreases chunks.len(),
{
    if p >= want {
        assert(out_at(data, p, want) =~= data.take(want as int));
    } else {
        let n: int = if chunks.len() <= GROUP {
            chunks.len() as int
        } else {
            GROUP as int
        };
        let group = chunks.take(n);
        let rest = chunks.skip(n);
        let tail = if chunks.len() <= GROUP {
            suffix
        } else {
            encode_stream(rest) + suffix
        };
        let src = encode_stream(chunks) + suffix;
        assert(chunks.take(chunks.len() as int) =~= chunks);
        assert(src =~= seq![group_flags(group, group.len())] + (chunks_bytes(group) + tail));
        assert(src.drop_first() =~= chunks_bytes(group) + tail);
        assert(group.skip(0) =~= group);
        lemma_chunks_fit_split(data, p, chunks, n);
        lemma_decode_group(data, p, group, 0, tail, want);
        let q = p + chunks_span(group);
        if chunks.len() <= GROUP {
            assert(rest =~= Seq::<Chunk>::empty());
            assert(out_at(data, q, want) =~= data.take(want as int));
        } else {
            lemma_decode_stream(data, q, rest, suffix, group_flags(group, group.len()), want);
        }
    }
}

/// What the greedy coder emits from `p` on fits the data and reaches its
/// end, and every chunk of it can be written down.
pub proof fn lemma_greedy_chunks_fit(data: Seq<u8>, p: int)
    requires
        0 <= p <= data.len(),
    ensures
        chunks_fit(data, p, greedy_chunks(data, p)),
        p + chunks_span(greedy_chunks(data, p)) == data.len(),
    decreases data.len() - p,
{
    if p < data.len() {
        let (cand, length) = best_match(data, p, p);
        lemma_best_match(data, p, p);
        let chunks = greedy_chunks(data, p);
        if length < MIN_MATCH {
            lemma_greedy_chunks_fit(data, p + 1);
            assert(chunks.drop_first() =~= greedy_chunks(data, p + 1));
        } else {
            lemma_greedy_chunks_fit(data, p + length);
            assert(chunks.drop_first() =~= greedy_chunks(data, p + length));
            let offset = p - cand - 1;
            assert forall|k: int| 0 <= k < length implies data[p + k - 1 - offset]
                == #[trigger] data[p + k] by {
                lemma_run_length_agrees(data, cand, p, MAX_MATCH as nat, k);
            }
        }
    }
}

/// Unpacking what was packed, to any length up to that of the data, gives
/// the data that far, whatever follows the packed stream in the input:
/// `decompress(want, compress(data) ++ suffix)` is `data[..want]`.
pub proof fn lemma_round_trip_upto(data: Seq<u8>, suffix: Seq<u8>, want: nat)
    requires
        want <= data.len(),
    ensures
        decompressed(compressed(data) + suffix, want) == Some(data.take(want as int)),
{
    lemma_greedy_chunks_fit(data, 0);
    assert(out_at(data, 0, want) =~= Seq::<u8>::empty());
    lemma_decode_stream(data, 0, greedy_chunks(data, 0), suffix, 0, want);
}

/// Unpacking what was packed gives the data back, whatever follows the
/// packed stream in the input: `decompress(data.len(), compress(data) ++
/// suffix)` is `data`.
pub proof fn lemma_round_trip_with_suffix(data: Seq<u8>, suffix: Seq<u8>)
    ensures
        decompressed(compressed(data) + suffix, data.len()) == Some(data),
{
    lemma_round_trip_upto(data, suffix, data.len());
    assert(data.take(data.len() as int) =~= data);
}

/// Unpacking what was packed gives the data back:
/// `decompress(data.len(), compress(data))` is `data`.
pub proof fn lemma_round_trip(data: Seq<u8>)
    ensures
        decompressed(compressed(data), data.len()) == Some(data),
{
    lemma_round_trip_with_suffix(data, Seq::empty());
    assert(compressed(data) + Seq::<u8>::empty() =~= compressed(data));
}

} // verus!
