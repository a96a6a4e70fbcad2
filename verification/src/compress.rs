//! Chunks of large files and their LZ4 compression.

use crate::text::{lemma_views_push, views};
use lz4_flex::block::DecompressError;
use vstd::prelude::*;
use vstd::slice::{slice_subrange, slice_to_vec};

verus! {

/// The default size of a chunk in a parallel transfer, in bytes.
pub const CHUNK_SIZE: usize = 64 * 1024 * 1024;

/// Files above this size are transferred in chunks.
pub const CHUNKED_THRESHOLD: u64 = 64 * 1024 * 1024;

/// The longest run of bytes `0xff` in a length that the decoder can be given: it adds them up in 32
/// bits.
pub const MAX_FF_RUN: usize = 16_843_008;

/// The error of the LZ4 block decoder.
#[verifier::external_type_specification]
#[verifier::external_body]
pub struct ExDecompressError(DecompressError);

/// What the LZ4 decoder makes of `tokens` with room for `room` bytes: the contents, or nothing
/// where the tokens are malformed or the contents do not fit.
pub uninterp spec fn lz4_decoded(tokens: Seq<u8>, room: nat) -> Option<Seq<u8>>;

/// `lz4_flex::compress_prepend_size` compresses `data` into a block: the size of `data` in four
/// bytes, least significant first, then tokens that the decoder turns into `data` again. No byte of
/// the tokens stands for more than 255 bytes of `data`. Which of the possible tokens it chooses
/// depends on the machine, and of data whose size does not fit in four bytes nothing is claimed. It
/// computes a bound of 110 percent of the length, which must not overflow.
#[verifier::external_body]
fn lz4_encode(data: &[u8]) -> (block: Vec<u8>)
    requires
        data@.len() * 110 <= usize::MAX,
    ensures
        data@.len() <= u32::MAX ==> {
            &&& block@.len() >= 4
            &&& claimed_size(block@) == data@.len()
            &&& data@.len() <= 255 * (block@.len() - 4)
            &&& lz4_decoded(block@.skip(4), data@.len()) == Some(data@)
        },
{
    lz4_flex::compress_prepend_size(data)
}

/// `lz4_flex::block::decompress` decodes tokens into a buffer with the given room; it fails where
/// they are malformed or the room is too small. It adds up the lengths in the tokens, which must
/// not overflow, and the room must fit the address space. Neither can go wrong where the tokens are
/// known to be decoded.
#[verifier::external_body]
fn lz4_decode(tokens: &[u8], room: usize) -> (r: Result<Vec<u8>, DecompressError>)
    requires
        fits_decoder(tokens@, room as nat) || lz4_decoded(tokens@, room as nat) is Some,
    ensures
        match r {
            Ok(data) => lz4_decoded(tokens@, room as nat) == Some(data@),
            Err(_) => lz4_decoded(tokens@, room as nat) is None,
        },
{
    lz4_flex::block::decompress(tokens, room)
}

/// The number of bytes `0xff` in `s` from `pos` on.
pub open spec fn ff_run(s: Seq<u8>, pos: int) -> nat
    decreases s.len() - pos,
{
    if 0 <= pos < s.len() && s[pos] == 0xff {
        1 + ff_run(s, pos + 1)
    } else {
        0
    }
}

/// Whether no length in `tokens` from `pos` on goes on for more than `limit` bytes `0xff`. A token
/// holds the lengths of the literals that follow it and of the match after them. Where half a byte
/// is too small for one of them it goes on: bytes `0xff` and one other byte are added to it. Between
/// the literals and the length of the match stand two bytes.
pub open spec fn lengths_fit(tokens: Seq<u8>, pos: int, limit: nat) -> bool
    decreases tokens.len() - pos,
{
    if pos < 0 || pos >= tokens.len() {
        true
    } else {
        let first = ff_run(tokens, pos + 1);
        let literals = if tokens[pos] / 16 == 15 {
            pos + first + 17 + 255 * first + tokens[pos + 1 + first]
        } else {
            pos + 1 + tokens[pos] / 16
        };
        let second = ff_run(tokens, literals + 2);
        if tokens[pos] / 16 == 15 && first > limit {
            false
        } else if tokens[pos] / 16 == 15 && pos + 1 + first >= tokens.len() {
            true
        } else if literals + 2 >= tokens.len() {
            true
        } else if tokens[pos] % 16 == 15 {
            second <= limit && (literals + 2 + second >= tokens.len() || lengths_fit(
                tokens,
                literals + 3 + second,
                limit,
            ))
        } else {
            lengths_fit(tokens, literals + 2, limit)
        }
    }
}

/// How many bytes `0xff` a length may go on for where there is room for `room` bytes: what the
/// decoder adds up must not overflow.
pub open spec fn run_limit(room: nat) -> nat {
    let most = (usize::MAX - room - 273) / 255;
    if most < MAX_FF_RUN {
        most as nat
    } else {
        MAX_FF_RUN as nat
    }
}

/// Whether decoding `tokens` with room for `room` bytes stays within the limits of the machine,
/// whatever the tokens mean.
pub open spec fn fits_decoder(tokens: Seq<u8>, room: nat) -> bool {
    room <= isize::MAX && lengths_fit(tokens, 0, run_limit(room))
}

/// The size that stands at the front of a block, least significant byte first.
pub open spec fn claimed_size(block: Seq<u8>) -> nat {
    (block[0] as nat + block[1] as nat * 0x100 + block[2] as nat * 0x1_0000 + block[3] as nat
        * 0x100_0000) as nat
}

/// The room that a block needs: what it claims, but no more than its tokens can fill.
pub open spec fn needed_room(block: Seq<u8>) -> nat {
    let most = 255 * (block.len() - 4);
    if claimed_size(block) <= most {
        claimed_size(block)
    } else {
        most as nat
    }
}

/// The contents of a block; `None` where it is malformed.
pub open spec fn lz4_contents(block: Seq<u8>) -> Option<Seq<u8>> {
    if block.len() < 4 {
        None
    } else {
        lz4_decoded(block.skip(4), needed_room(block))
    }
}

/// Whether decoding `block` stays within the limits of the machine, whatever the block means.
pub open spec fn within_limits(block: Seq<u8>) -> bool {
    block.len() < 4 || fits_decoder(block.skip(4), needed_room(block))
}

/// Whether `block` can be given to [`decompress`]: decoding it stays within the limits of the
/// machine, or it is known to have contents.
pub open spec fn decodable_here(block: Seq<u8>) -> bool {
    within_limits(block) || lz4_contents(block) is Some
}

/// The number of bytes `0xff` in `s` from `pos` on.
fn run_from(s: &[u8], pos: usize) -> (n: usize)
    requires
        pos <= s@.len(),
    ensures
        n == ff_run(s@, pos as int),
        pos + n <= s@.len(),
{
    let mut i: usize = pos;
    while i < s.len() && s[i] == 0xff
        invariant
            pos <= i <= s@.len(),
            ff_run(s@, pos as int) == i - pos + ff_run(s@, i as int),
        decreases s@.len() - i,
    {
        i = i + 1;
    }
    i - pos
}

/// Whether no length in `tokens` goes on for more than `limit` bytes `0xff`.
fn lengths_within(tokens: &[u8], limit: usize) -> (r: bool)
    requires
        limit <= MAX_FF_RUN,
    ensures
        r == lengths_fit(tokens@, 0, limit as nat),
{
    let len: usize = tokens.len();
    let mut pos: usize = 0;
    while pos < len
        invariant
            pos <= len,
            len == tokens@.len(),
            limit <= MAX_FF_RUN,
            lengths_fit(tokens@, 0, limit as nat) == lengths_fit(
                tokens@,
                pos as int,
                limit as nat,
            ),
        decreases len - pos,
    {
        let token: u8 = tokens[pos];
        let mut literals: u128 = pos as u128 + 1 + (token / 16) as u128;
        if token / 16 == 15 {
            let run: usize = run_from(tokens, pos + 1);
            if run > limit {
                return false;
            }
            if run >= len - pos - 1 {
                return true;
            }
            literals = pos as u128 + run as u128 + 17 + 255 * run as u128 + tokens[pos + 1
                + run] as u128;
        }
        if literals + 2 >= len as u128 {
            return true;
        }
        let after: usize = literals as usize + 2;
        if token % 16 == 15 {
            let run: usize = run_from(tokens, after);
            if run > limit {
                return false;
            }
            if run >= len - after {
                return true;
            }
            pos = after + run + 1;
        } else {
            pos = after;
        }
    }
    true
}

fn room_for(block: &[u8]) -> (room: usize)
    requires
        block@.len() >= 4,
    ensures
        room == needed_room(block@),
{
    let claimed: u32 = block[0] as u32 + block[1] as u32 * 0x100 + block[2] as u32 * 0x1_0000
        + block[3] as u32 * 0x100_0000;
    let claimed: usize = claimed as usize;
    let tokens: usize = block.len() - 4;
    if tokens > claimed / 255 {
        claimed
    } else {
        255 * tokens
    }
}

/// Whether `block`, of which nothing is known, can be given to [`decompress`].
pub fn can_decompress(block: &[u8]) -> (r: bool)
    ensures
        r == within_limits(block@),
{
    if block.len() < 4 {
        return true;
    }
    let room: usize = room_for(block);
    assert(block@.subrange(4, block@.len() as int) =~= block@.skip(4));
    if room > isize::MAX as usize {
        return false;
    }
    let most: usize = (usize::MAX - room - 273) / 255;
    let limit: usize = if most < MAX_FF_RUN {
        most
    } else {
        MAX_FF_RUN
    };
    lengths_within(slice_subrange(block, 4, block.len()), limit)
}

/// Why a block could not be decompressed.
#[derive(Debug)]
pub enum DecompressFailed {
    /// It is too short to hold the size of its contents.
    NoSize,
    /// The decoder refused it.
    Refused(DecompressError),
    /// Decoding it would not stay within the limits of the machine.
    BeyondLimits,
}

/// Compresses `data` into a block that [`decompress`] takes and turns into `data` again. Of blocks
/// for more than `u32::MAX` bytes nothing is claimed: the size at the front of the block is cut off
/// to 32 bits.
pub fn compress(data: &[u8]) -> (block: Vec<u8>)
    requires
        data@.len() * 110 <= usize::MAX,
    ensures
        data@.len() <= u32::MAX ==> lz4_contents(block@) == Some(data@) && decodable_here(block@),
{
    lz4_encode(data)
}

/// Decompresses a block. Room that its tokens cannot fill is not asked for.
pub fn decompress(block: &[u8]) -> (r: Result<Vec<u8>, DecompressFailed>)
    requires
        decodable_here(block@),
    ensures
        match lz4_contents(block@) {
            Some(contents) => r matches Ok(data) && data@ == contents,
            None => r matches Err(e) && if block@.len() < 4 {
                e is NoSize
            } else {
                e is Refused
            },
        },
{
    if block.len() < 4 {
        return Err(DecompressFailed::NoSize);
    }
    let room: usize = room_for(block);
    assert(block@.subrange(4, block@.len() as int) =~= block@.skip(4));
    match lz4_decode(slice_subrange(block, 4, block.len()), room) {
        Ok(data) => Ok(data),
        Err(e) => Err(DecompressFailed::Refused(e)),
    }
}

/// Decompresses a block of which nothing is known. One that could take the decoder beyond the limits
/// of the machine is not given to it.
pub fn decompress_any(block: &[u8]) -> (r: Result<Vec<u8>, DecompressFailed>)
    ensures
        if within_limits(block@) {
            match lz4_contents(block@) {
                Some(contents) => r matches Ok(data) && data@ == contents,
                None => r matches Err(e) && if block@.len() < 4 {
                    e is NoSize
                } else {
                    e is Refused
                },
            }
        } else {
            r matches Err(e) && e is BeyondLimits
        },
{
    if can_decompress(block) {
        decompress(block)
    } else {
        Err(DecompressFailed::BeyondLimits)
    }
}

/// `s` cut into pieces of `size` bytes; the last piece holds what is left.
pub open spec fn chunks(s: Seq<u8>, size: nat) -> Seq<Seq<u8>>
    decreases s.len(),
{
    if s.len() == 0 || size == 0 {
        Seq::empty()
    } else if s.len() <= size {
        seq![s]
    } else {
        seq![s.take(size as int)] + chunks(s.skip(size as int), size)
    }
}

/// The bytes of all pieces, one after the other.
pub open spec fn concatenated(pieces: Seq<Seq<u8>>) -> Seq<u8>
    decreases pieces.len(),
{
    if pieces.len() == 0 {
        Seq::empty()
    } else {
        concatenated(pieces.drop_last()) + pieces.last()
    }
}

/// Cuts `data` into chunks of [`CHUNK_SIZE`] bytes.
pub fn split_chunks(data: &[u8]) -> (pieces: Vec<Vec<u8>>)
    ensures
        views(pieces@) == chunks(data@, CHUNK_SIZE as nat),
{
    let mut pieces: Vec<Vec<u8>> = Vec::new();
    let mut from: usize = 0;
    assert(data@.skip(0) =~= data@);
    assert(views(pieces@) + chunks(data@, CHUNK_SIZE as nat) =~= chunks(data@, CHUNK_SIZE as nat));
    while from < data.len()
        invariant
            from <= data@.len(),
            views(pieces@) + chunks(data@.skip(from as int), CHUNK_SIZE as nat) == chunks(
                data@,
                CHUNK_SIZE as nat,
            ),
        decreases data@.len() - from,
    {
        let left: usize = data.len() - from;
        let to: usize = if left <= CHUNK_SIZE {
            data.len()
        } else {
            from + CHUNK_SIZE
        };
        let piece = slice_to_vec(slice_subrange(data, from, to));
        proof {
            let rest = data@.skip(from as int);
            let done = views(pieces@);
            assert(piece@ =~= rest.take(to - from));
            assert(rest.skip(to - from) =~= data@.skip(to as int));
            if left <= CHUNK_SIZE {
                assert(piece@ =~= rest);
                assert(done.push(piece@) + Seq::empty() =~= done + seq![piece@]);
            } else {
                assert(done.push(piece@) + chunks(data@.skip(to as int), CHUNK_SIZE as nat)
                    =~= done + (seq![piece@] + chunks(data@.skip(to as int), CHUNK_SIZE as nat)));
            }
            lemma_views_push(pieces@, piece);
        }
        pieces.push(piece);
        from = to;
    }
    assert(views(pieces@) + chunks(data@.skip(from as int), CHUNK_SIZE as nat) =~= views(pieces@));
    pieces
}

/// Puts chunks together again.
pub fn reassemble_chunks(pieces: Vec<Vec<u8>>) -> (data: Vec<u8>)
    ensures
        data@ == concatenated(views(pieces@)),
{
    let mut data: Vec<u8> = Vec::new();
    let mut i: usize = 0;
    let ghost all = views(pieces@);
    while i < pieces.len()
        invariant
            i <= pieces@.len(),
            all == views(pieces@),
            data@ == concatenated(all.take(i as int)),
        decreases pieces@.len() - i,
    {
        assert(all.take(i + 1).drop_last() =~= all.take(i as int));
        data.extend_from_slice(pieces[i].as_slice());
        i = i + 1;
        assert(data@ =~= concatenated(all.take(i as int)));
    }
    assert(all.take(i as int) =~= all);
    data
}

/// Concatenating two lists of pieces is concatenating the bytes of both.
pub proof fn lemma_concatenated_append(a: Seq<Seq<u8>>, b: Seq<Seq<u8>>)
    ensures
        concatenated(a + b) == concatenated(a) + concatenated(b),
    decreases b.len(),
{
    if b.len() == 0 {
        assert(a + b =~= a);
        assert(concatenated(a) + concatenated(b) =~= concatenated(a));
    } else {
        lemma_concatenated_append(a, b.drop_last());
        assert((a + b).drop_last() =~= a + b.drop_last());
        assert(concatenated(a + b) =~= concatenated(a) + concatenated(b));
    }
}

/// Chunks put together again give the data that was cut.
pub proof fn lemma_split_reassemble(s: Seq<u8>, size: nat)
    requires
        size > 0,
    ensures
        concatenated(chunks(s, size)) == s,
    decreases s.len(),
{
    reveal_with_fuel(concatenated, 2);
    if s.len() == 0 {
        assert(concatenated(chunks(s, size)) =~= s);
    } else if s.len() <= size {
        assert(seq![s].drop_last() =~= Seq::<Seq<u8>>::empty());
        assert(concatenated(seq![s]) =~= s);
    } else {
        let head = s.take(size as int);
        let tail = s.skip(size as int);
        lemma_split_reassemble(tail, size);
        lemma_concatenated_append(seq![head], chunks(tail, size));
        assert(seq![head].drop_last() =~= Seq::<Seq<u8>>::empty());
        assert(concatenated(seq![head]) =~= head);
        assert(head + tail =~= s);
    }
}

/// There are as many chunks as it takes to hold the data; all but the last are full, and none is
/// empty.
pub proof fn lemma_chunk_sizes(s: Seq<u8>, size: nat)
    requires
        size > 0,
    ensures
        chunks(s, size).len() == (s.len() + size - 1) / size as int,
        forall|i: int|
            0 <= i < chunks(s, size).len() ==> 0 < (#[trigger] chunks(s, size)[i]).len() <= size,
        forall|i: int|
            0 <= i < chunks(s, size).len() - 1 ==> (#[trigger] chunks(s, size)[i]).len() == size,
    decreases s.len(),
{
    if s.len() == 0 {
        assert((size - 1) / size as int == 0) by (nonlinear_arith)
            requires
                size > 0,
        ;
    } else if s.len() <= size {
        assert((s.len() + size - 1) / size as int == 1) by (nonlinear_arith)
            requires
                0 < s.len() <= size,
        ;
    } else {
        let tail = s.skip(size as int);
        lemma_chunk_sizes(tail, size);
        assert((s.len() + size - 1) / size as int == (tail.len() + size - 1) / size as int + 1)
            by (nonlinear_arith)
            requires
                size > 0,
                tail.len() == s.len() - size,
        ;
        let all = chunks(s, size);
        assert forall|i: int| 0 <= i < all.len() implies 0 < (#[trigger] all[i]).len()
            <= size by {
            if i > 0 {
                assert(all[i] == chunks(tail, size)[i - 1]);
            }
        }
        assert forall|i: int| 0 <= i < all.len() - 1 implies (#[trigger] all[i]).len() == size by {
            if i > 0 {
                assert(all[i] == chunks(tail, size)[i - 1]);
            }
        }
    }
}

/// What the blocks decode to, piece by piece; `None` where one of them is malformed.
pub open spec fn decoded_blocks(blocks: Seq<Seq<u8>>) -> Option<Seq<u8>>
    decreases blocks.len(),
{
    if blocks.len() == 0 {
        Some(Seq::empty())
    } else {
        match (decoded_blocks(blocks.drop_last()), lz4_contents(blocks.last())) {
            (Some(before), Some(data)) => Some(before + data),
            _ => None,
        }
    }
}

/// Chunks that were compressed one by one give the data again when they are decompressed one by
/// one and put together.
pub proof fn lemma_per_chunk_round_trip(s: Seq<u8>, size: nat, blocks: Seq<Seq<u8>>)
    requires
        size > 0,
        blocks.len() == chunks(s, size).len(),
        forall|i: int|
            0 <= i < blocks.len() ==> lz4_contents(#[trigger] blocks[i]) == Some(
                chunks(s, size)[i],
            ),
    ensures
        decoded_blocks(blocks) == Some(s),
{
    lemma_blocks_round_trip(chunks(s, size), blocks);
    lemma_split_reassemble(s, size);
}

/// However a file was parted, pieces that were compressed one by one give it again when they are
/// decompressed one by one and put together.
pub proof fn lemma_blocks_round_trip(pieces: Seq<Seq<u8>>, blocks: Seq<Seq<u8>>)
    requires
        blocks.len() == pieces.len(),
        forall|i: int|
            0 <= i < blocks.len() ==> lz4_contents(#[trigger] blocks[i]) == Some(pieces[i]),
    ensures
        decoded_blocks(blocks) == Some(concatenated(pieces)),
    decreases blocks.len(),
{
    if blocks.len() > 0 {
        lemma_blocks_round_trip(pieces.drop_last(), blocks.drop_last());
    }
}

/// A block asks for the room that it claims, but for no more than its tokens can fill.
pub proof fn lemma_needed_room(block: Seq<u8>)
    requires
        block.len() >= 4,
    ensures
        needed_room(block) <= claimed_size(block),
        needed_room(block) <= 255 * (block.len() - 4),
        needed_room(block) == claimed_size(block) || needed_room(block) == 255 * (block.len() - 4),
        block[0] == 0 && block[1] == 0 && block[2] == 0 && block[3] == 0 ==> claimed_size(block)
            == 0,
        claimed_size(block) == block[0] + 256 * (block[1] + 256 * (block[2] + 256 * block[3])),
{
}

proof fn lemma_run_is_bounded(s: Seq<u8>, pos: int)
    requires
        0 <= pos,
    ensures
        ff_run(s, pos) <= if pos <= s.len() {
            s.len() - pos
        } else {
            0
        },
    decreases s.len() - pos,
{
    if pos < s.len() && s[pos] == 0xff {
        lemma_run_is_bounded(s, pos + 1);
    }
}

proof fn lemma_short_tokens_fit(tokens: Seq<u8>, pos: int, limit: nat)
    requires
        0 <= pos,
        tokens.len() <= limit,
    ensures
        lengths_fit(tokens, pos, limit),
    decreases tokens.len() - pos,
{
    if pos < tokens.len() {
        let first = ff_run(tokens, pos + 1);
        let literals = if tokens[pos] / 16 == 15 {
            pos + first + 17 + 255 * first + tokens[pos + 1 + first]
        } else {
            pos + 1 + tokens[pos] / 16
        };
        lemma_run_is_bounded(tokens, pos + 1);
        lemma_run_is_bounded(tokens, literals + 2);
        let second = ff_run(tokens, literals + 2);
        if literals + 2 < tokens.len() {
            lemma_short_tokens_fit(tokens, literals + 2, limit);
            if literals + 2 + second < tokens.len() {
                lemma_short_tokens_fit(tokens, literals + 3 + second, limit);
            }
        }
    }
}

/// Every block of at most eight million bytes can be given to the decoder, whatever is in it and
/// whatever the machine.
pub proof fn lemma_small_blocks_are_taken(block: Seq<u8>)
    requires
        block.len() <= 8_000_000,
    ensures
        within_limits(block),
        decodable_here(block),
{
    if block.len() >= 4 {
        let room = needed_room(block);
        lemma_needed_room(block);
        assert(room <= 2_040_000_000);
        assert(run_limit(room) >= 8_000_000);
        lemma_short_tokens_fit(block.skip(4), 0, run_limit(room));
    }
}

/// A block has the contents that the decoder finds behind its first four bytes, and one without these
/// has none.
pub proof fn lemma_block_contents(block: Seq<u8>)
    ensures
        block.len() < 4 ==> lz4_contents(block) is None,
        block.len() >= 4 ==> lz4_contents(block) == lz4_decoded(block.skip(4), needed_room(block)),
{
}

/// Every chunk is the part of the data that stands at its place.
pub proof fn lemma_chunk_contents(s: Seq<u8>, size: nat, i: int)
    requires
        size > 0,
        0 <= i < chunks(s, size).len(),
    ensures
        0 <= i * size < s.len(),
        chunks(s, size)[i] == s.subrange(
            i * size,
            if (i + 1) * size <= s.len() {
                (i + 1) * size
            } else {
                s.len() as int
            },
        ),
    decreases s.len(),
{
    if s.len() <= size {
        assert(i == 0);
        assert(0 * size == 0 && 1 * size == size) by (nonlinear_arith);
        assert(s.subrange(0, s.len() as int) =~= s);
    } else if i == 0 {
        assert(0 * size == 0 && 1 * size == size) by (nonlinear_arith);
        assert(s.take(size as int) =~= s.subrange(0, size as int));
    } else {
        let tail = s.skip(size as int);
        lemma_chunk_contents(tail, size, i - 1);
        assert(chunks(s, size)[i] == chunks(tail, size)[i - 1]);
        assert((i - 1) * size + size == i * size) by (nonlinear_arith);
        assert(i * size + size == (i + 1) * size) by (nonlinear_arith);
        let from = (i - 1) * size;
        let to = if i * size <= tail.len() {
            i * size
        } else {
            tail.len() as int
        };
        assert(tail.subrange(from, to) =~= s.subrange(from + size, to + size));
    }
}

/// What the decoder is given stays within the limits of the machine: the room fits the address space,
/// and what the longest run adds up to fits with it.
pub proof fn lemma_limits_are_kept(tokens: Seq<u8>, room: nat)
    requires
        room + 273 <= usize::MAX,
    ensures
        room + 273 + 255 * run_limit(room) <= usize::MAX,
        run_limit(room) <= 16_843_008,
        fits_decoder(tokens, room) ==> room <= isize::MAX,
{
}

/// A length that goes on for too long is refused, wherever it is that of the first token.
pub proof fn lemma_long_runs_are_refused(tokens: Seq<u8>, limit: nat)
    requires
        tokens.len() > 0,
    ensures
        tokens[0] / 16 == 15 && ff_run(tokens, 1) > limit ==> !lengths_fit(tokens, 0, limit),
        tokens[0] / 16 < 15 && tokens[0] % 16 == 15 && ff_run(tokens, tokens[0] / 16 + 3) > limit
            ==> !lengths_fit(tokens, 0, limit),
{
    lemma_run_is_bounded(tokens, tokens[0] / 16 + 3);
}

/// Runs count the bytes `0xff` one by one.
pub proof fn lemma_runs_are_counted(s: Seq<u8>, pos: int)
    requires
        0 <= pos <= s.len(),
    ensures
        pos + ff_run(s, pos) <= s.len(),
        forall|i: int| pos <= i < pos + ff_run(s, pos) ==> #[trigger] s[i] == 0xff,
        pos + ff_run(s, pos) < s.len() ==> s[pos + ff_run(s, pos)] != 0xff,
    decreases s.len() - pos,
{
    if pos < s.len() && s[pos] == 0xff {
        lemma_runs_are_counted(s, pos + 1);
    }
}

/// A single piece is its own bytes, and no pieces have none.
pub proof fn lemma_concatenated_one(piece: Seq<u8>)
    ensures
        concatenated(seq![piece]) == piece,
        concatenated(Seq::empty()).len() == 0,
{
    reveal_with_fuel(concatenated, 2);
    assert(seq![piece].drop_last() =~= Seq::<Seq<u8>>::empty());
    assert(concatenated(seq![piece]) =~= piece);
}

} // verus!
