//! What makes a block invalid, wherever in the block it stands.

use super::compress::{
    compress_from, compressed_block, find_match, last_seen, lemma_common_run_shape,
    lemma_last_seen_shape, window_hash,
};
use super::format::{
    copy_match, decode_block, decode_from, extension_run, lemma_decode_grows, lemma_decode_step,
    lemma_decode_without_token, lemma_extension_run_shape, lemma_sequence_bounds, length_at,
    literals_of, match_sequence, sequence_at, EXT_SENTINEL, MIN_MATCH, NIBBLE_MAX,
};
use super::roundtrip::{
    holds_at, lemma_copy_match_repeats, lemma_holds_at_split, lemma_read_last_sequence,
    lemma_read_match_sequence,
};
use vstd::prelude::*;

verus! {

/// Decoding `b` from the sequence at `i` on, with `out` decoded before it,
/// comes to stand before the sequence at `j` with `out_j` decoded: every
/// sequence in between carries a back-reference that can be followed.
pub open spec fn decoding_passes(b: Seq<u8>, i: int, out: Seq<u8>, j: int, out_j: Seq<u8>) -> bool
    decreases b.len() - i,
{
    (i == j && out == out_j) || match sequence_at(b, i) {
        Some(q) => match q.back_ref {
            Some(r) => {
                let with_literals = out + literals_of(b, q);
                proof {
                    lemma_sequence_bounds(b, i);
                }
                1 <= r.offset <= with_literals.len() && decoding_passes(
                    b,
                    q.next,
                    copy_match(with_literals, r.offset, r.len),
                    j,
                    out_j,
                )
            },
            None => false,
        },
        None => false,
    }
}

/// The decoder stands before the sequence at `j` of the block `b`, with
/// `out_j` decoded so far.
pub open spec fn decoder_at(b: Seq<u8>, j: int, out_j: Seq<u8>) -> bool {
    decoding_passes(b, 0, Seq::empty(), j, out_j)
}

/// What a block decodes to is what the rest of it decodes to from any state
/// that the decoder passes through.
pub proof fn lemma_passes_same_result(b: Seq<u8>, i: int, out: Seq<u8>, j: int, out_j: Seq<u8>)
    requires
        decoding_passes(b, i, out, j, out_j),
    ensures
        decode_from(b, i, out) == decode_from(b, j, out_j),
    decreases b.len() - i,
{
    if !(i == j && out == out_j) {
        let q = sequence_at(b, i).unwrap();
        let r = q.back_ref.unwrap();
        lemma_sequence_bounds(b, i);
        lemma_decode_step(b, i, out);
        lemma_passes_same_result(
            b,
            q.next,
            copy_match(out + literals_of(b, q), r.offset, r.len),
            j,
            out_j,
        );
    }
}

/// A block in which the input ends inside a sequence is invalid, wherever
/// that sequence stands.
pub proof fn lemma_truncated_sequence_fails(b: Seq<u8>, j: int, out_j: Seq<u8>)
    requires
        decoder_at(b, j, out_j),
        sequence_at(b, j) is None,
    ensures
        decode_block(b) is None,
{
    lemma_passes_same_result(b, 0, Seq::empty(), j, out_j);
    lemma_decode_step(b, j, out_j);
}

/// A block with an offset of zero is invalid, wherever the offset stands.
pub proof fn lemma_offset_zero_fails(b: Seq<u8>, j: int, out_j: Seq<u8>)
    requires
        decoder_at(b, j, out_j),
        sequence_at(b, j) matches Some(q) && q.back_ref matches Some(r) && r.offset == 0,
    ensures
        decode_block(b) is None,
{
    lemma_passes_same_result(b, 0, Seq::empty(), j, out_j);
    lemma_decode_step(b, j, out_j);
}

/// A block with an offset that reaches before the start of the output is
/// invalid, wherever the offset stands.
pub proof fn lemma_offset_too_far_fails(b: Seq<u8>, j: int, out_j: Seq<u8>)
    requires
        decoder_at(b, j, out_j),
        sequence_at(b, j) matches Some(q) && q.back_ref matches Some(r) && r.offset > out_j.len()
            + q.literal_len,
    ensures
        decode_block(b) is None,
{
    lemma_sequence_bounds(b, j);
    lemma_passes_same_result(b, 0, Seq::empty(), j, out_j);
    lemma_decode_step(b, j, out_j);
}

/// A block that ends with a back-reference is invalid: the closing sequence
/// holds literals only.
pub proof fn lemma_match_at_end_fails(b: Seq<u8>, j: int, out_j: Seq<u8>)
    requires
        decoder_at(b, j, out_j),
        sequence_at(b, j) matches Some(q) && q.back_ref is Some && q.next == b.len(),
    ensures
        decode_block(b) is None,
{
    lemma_passes_same_result(b, 0, Seq::empty(), j, out_j);
    lemma_decode_step(b, j, out_j);
    let q = sequence_at(b, j).unwrap();
    let r = q.back_ref.unwrap();
    lemma_decode_without_token(
        b,
        q.next,
        copy_match(out_j + literals_of(b, q), r.offset, r.len),
    );
}

/// A block that ends inside a match-length extension, with the sentinel as
/// its last byte, is invalid: the run that starts at `run`, behind the
/// offset of the sequence at `j`, holds nothing but sentinels.
pub proof fn lemma_open_match_extension_fails(b: Seq<u8>, j: int, out_j: Seq<u8>, run: int)
    requires
        decoder_at(b, j, out_j),
        0 <= j < b.len(),
        b[j] % 16 == NIBBLE_MAX,
        length_at(b, j + 1, (b[j] / 16) as nat) matches Some((literal_len, literals_at))
            && literals_at + literal_len + 2 == run,
        run < b.len(),
        forall|k: int| run <= k < b.len() ==> b[k] == EXT_SENTINEL,
    ensures
        decode_block(b) is None,
{
    lemma_extension_run_shape(b, run);
    assert(extension_run(b, run) is None) by {
        if let Some((_, next)) = extension_run(b, run) {
            assert(b[next - 1] == EXT_SENTINEL);
        }
    }
    lemma_truncated_sequence_fails(b, j, out_j);
}

/// A block in which the literals and the back-reference of a sequence take
/// the output past `max` bytes decodes to more than `max` bytes, if it is
/// valid at all, wherever that sequence stands.
pub proof fn lemma_overflow_fails(b: Seq<u8>, j: int, out_j: Seq<u8>, max: nat)
    requires
        decoder_at(b, j, out_j),
        sequence_at(b, j) matches Some(q) && out_j.len() + q.literal_len + (match q.back_ref {
            Some(r) => r.len,
            None => 0,
        }) > max,
    ensures
        decode_block(b) matches Some(s) ==> s.len() > max,
{
    lemma_passes_same_result(b, 0, Seq::empty(), j, out_j);
    lemma_decode_grows(b, j, out_j);
}

/// What the compressor writes from any state on is read sequence by
/// sequence up to a closing sequence of literals only, whose token has a low
/// nibble of zero. The result is where that sequence stands and what is
/// decoded before it.
proof fn lemma_compress_from_closes(b: Seq<u8>, at: int, s: Seq<u8>, anchor: int, i: int) -> (w: (
    int,
    Seq<u8>,
))
    requires
        0 <= anchor <= i <= s.len(),
        holds_at(b, at, compress_from(s, anchor, i)),
        at + compress_from(s, anchor, i).len() == b.len(),
    ensures
        decoding_passes(b, at, s.subrange(0, anchor), w.0, w.1),
        sequence_at(b, w.0) matches Some(q) && q.back_ref is None,
        0 <= w.0 < b.len(),
        b[w.0] % 16 == 0,
    decreases s.len() - i,
{
    let out = s.subrange(0, anchor);
    if i + MIN_MATCH > s.len() {
        lemma_read_last_sequence(b, at, s.subrange(anchor, s.len() as int));
        (at, out)
    } else {
        match find_match(s, i) {
            Some(r) => {
                let p = last_seen(s, window_hash(s, i), i);
                lemma_last_seen_shape(s, window_hash(s, i), i);
                lemma_common_run_shape(s, p, i);
                let literals = s.subrange(anchor, i);
                let sequence = match_sequence(literals, r.offset, r.len);
                let rest = compress_from(s, i + r.len, i + r.len);
                lemma_holds_at_split(b, at, sequence, rest);
                lemma_read_match_sequence(b, at, literals, r.offset, r.len);
                assert(out + literals =~= s.subrange(0, i));
                lemma_copy_match_repeats(s, i, r.offset, r.len);
                lemma_compress_from_closes(b, at + sequence.len(), s, i + r.len, i + r.len)
            },
            None => lemma_compress_from_closes(b, at, s, anchor, i + 1),
        }
    }
}

/// The decoder reads the block that the compressor writes up to a closing
/// sequence of literals only, whose token has a low nibble of zero: no
/// back-reference and no extension of one ends the block.
pub proof fn lemma_compressed_block_closes(s: Seq<u8>)
    ensures
        exists|j: int, out_j: Seq<u8>|
            {
                &&& #[trigger] decoder_at(compressed_block(s), j, out_j)
                &&& sequence_at(compressed_block(s), j) matches Some(q) && q.back_ref is None
                &&& 0 <= j < compressed_block(s).len()
                &&& compressed_block(s)[j] % 16 == 0
            },
{
    let b = compressed_block(s);
    assert(b.subrange(0, b.len() as int) =~= b);
    assert(s.subrange(0, 0) =~= Seq::<u8>::empty());
    let w = lemma_compress_from_closes(b, 0, s, 0, 0);
    assert(decoder_at(b, w.0, w.1));
}

} // verus!
