//! What the compressor writes, the decompressor reads back.

use super::compress::{
    compress_from, compressed_block, find_match, last_seen, lemma_common_run_shape,
    lemma_last_seen_shape, window_hash, worst_case_len,
};
use super::format::{
    copy_match, decode_block, decode_from, extension_run, last_sequence, lemma_decode_step,
    lemma_length_bytes_len, length_at, length_bytes, length_extension, literals_of,
    match_sequence, nibble_of, offset_bytes, sequence_at, sequence_head, token_of,
    BackRef, MAX_OFFSET, MIN_MATCH,
};
use vstd::prelude::*;

verus! {

/// `piece` stands in `b` at `i`.
pub open spec fn holds_at(b: Seq<u8>, i: int, piece: Seq<u8>) -> bool {
    0 <= i && i + piece.len() <= b.len() && b.subrange(i, i + piece.len()) == piece
}

/// Where two pieces stand one behind the other, each stands at its place.
pub proof fn lemma_holds_at_split(b: Seq<u8>, i: int, first: Seq<u8>, second: Seq<u8>)
    requires
        holds_at(b, i, first + second),
    ensures
        holds_at(b, i, first),
        holds_at(b, i + first.len(), second),
{
    let whole = first + second;
    assert(b.subrange(i, i + first.len()) =~= first) by {
        assert forall|k: int| 0 <= k < first.len() implies b.subrange(i, i + first.len())[k]
            == first[k] by {
            assert(b.subrange(i, i + whole.len())[k] == whole[k]);
        }
    }
    assert(b.subrange(i + first.len(), i + first.len() + second.len()) =~= second) by {
        assert forall|k: int| 0 <= k < second.len() implies b.subrange(
            i + first.len(),
            i + first.len() + second.len(),
        )[k] == second[k] by {
            assert(b.subrange(i, i + whole.len())[first.len() + k] == whole[first.len() + k]);
        }
    }
}

/// The extension run written for `rest` reads back as `rest`.
proof fn lemma_read_length_bytes(b: Seq<u8>, i: int, rest: nat)
    requires
        holds_at(b, i, length_bytes(rest)),
    ensures
        extension_run(b, i) == Some((rest, i + length_bytes(rest).len())),
    decreases rest,
{
    let bytes = length_bytes(rest);
    lemma_length_bytes_len(rest);
    assert(b[i] == b.subrange(i, i + bytes.len())[0]);
    if rest >= 255 {
        let shorter = length_bytes((rest - 255) as nat);
        lemma_holds_at_split(b, i, seq![255u8], shorter);
        lemma_read_length_bytes(b, i + 1, (rest - 255) as nat);
    }
}

/// The nibble and extension written for `len` read back as `len`.
proof fn lemma_read_length(b: Seq<u8>, i: int, len: nat)
    requires
        holds_at(b, i, length_extension(len)),
    ensures
        length_at(b, i, nibble_of(len)) == Some((len, i + length_extension(len).len())),
{
    if len >= 15 {
        lemma_read_length_bytes(b, i, (len - 15) as nat);
    }
}

/// The head of a sequence reads back: the token's nibbles, the number of
/// literals and the literals themselves.
proof fn lemma_read_head(b: Seq<u8>, i: int, literals: Seq<u8>, extra: nat)
    requires
        holds_at(b, i, sequence_head(literals, extra)),
    ensures
        0 <= i < b.len(),
        b[i] / 16 == nibble_of(literals.len()),
        b[i] % 16 == nibble_of(extra),
        length_at(b, i + 1, nibble_of(literals.len())) == Some(
            (literals.len(), i + 1 + length_extension(literals.len()).len()),
        ),
        b.subrange(
            i + 1 + length_extension(literals.len()).len(),
            i + sequence_head(literals, extra).len(),
        ) == literals,
{
    let token = seq![token_of(literals.len(), extra)];
    let ext = length_extension(literals.len());
    lemma_holds_at_split(b, i, token + ext, literals);
    lemma_holds_at_split(b, i, token, ext);
    assert(b[i] == b.subrange(i, i + 1)[0]);
    lemma_read_length(b, i + 1, literals.len());
}

/// A sequence with a back-reference reads back as it was written.
pub proof fn lemma_read_match_sequence(
    b: Seq<u8>,
    i: int,
    literals: Seq<u8>,
    offset: nat,
    len: nat,
)
    requires
        holds_at(b, i, match_sequence(literals, offset, len)),
        len >= MIN_MATCH,
        offset <= MAX_OFFSET,
    ensures
        sequence_at(b, i) matches Some(q) && q.literal_len == literals.len() && literals_of(b, q)
            == literals && q.back_ref == Some(BackRef { offset, len }) && q.next == i
            + match_sequence(literals, offset, len).len(),
{
    let extra = (len - 4) as nat;
    let head = sequence_head(literals, extra);
    let tail = length_extension(extra);
    lemma_holds_at_split(b, i, head + offset_bytes(offset), tail);
    lemma_holds_at_split(b, i, head, offset_bytes(offset));
    lemma_read_head(b, i, literals, extra);
    let end = i + head.len();
    lemma_read_length(b, end + 2, extra);
}

/// The closing sequence reads back as it was written, where it ends the
/// input; the low nibble of its token is zero.
pub proof fn lemma_read_last_sequence(b: Seq<u8>, i: int, literals: Seq<u8>)
    requires
        holds_at(b, i, last_sequence(literals)),
        i + last_sequence(literals).len() == b.len(),
    ensures
        sequence_at(b, i) matches Some(q) && q.literal_len == literals.len() && literals_of(b, q)
            == literals && q.back_ref is None,
        0 <= i < b.len(),
        b[i] % 16 == 0,
{
    lemma_read_head(b, i, literals, 0);
}

/// A back-reference into a text that repeats itself at that distance
/// reproduces the text.
pub proof fn lemma_copy_match_repeats(s: Seq<u8>, i: int, offset: nat, len: nat)
    requires
        1 <= offset <= i,
        i + len <= s.len(),
        forall|k: int| i <= k < i + len ==> #[trigger] s[k] == s[k - offset],
    ensures
        copy_match(s.subrange(0, i), offset, len) == s.subrange(0, i + len),
    decreases len,
{
    if len > 0 {
        lemma_copy_match_repeats(s, i, offset, (len - 1) as nat);
        let shorter = s.subrange(0, i + len - 1);
        assert(shorter.push(shorter[shorter.len() - offset]) =~= s.subrange(0, i + len));
    }
}

/// The tail of a block that the compressor writes from `anchor` and `i` on
/// decodes, behind the input up to `anchor`, to the whole input.
proof fn lemma_decode_compress_from(b: Seq<u8>, at: int, s: Seq<u8>, anchor: int, i: int)
    requires
        0 <= anchor <= i <= s.len(),
        holds_at(b, at, compress_from(s, anchor, i)),
        at + compress_from(s, anchor, i).len() == b.len(),
    ensures
        decode_from(b, at, s.subrange(0, anchor)) == Some(s),
    decreases s.len() - i,
{
    let out = s.subrange(0, anchor);
    lemma_decode_step(b, at, out);
    if i + MIN_MATCH > s.len() {
        let literals = s.subrange(anchor, s.len() as int);
        lemma_read_last_sequence(b, at, literals);
    } else {
        match find_match(s, i) {
            Some(r) => {
                let p = last_seen(s, window_hash(s, i), i);
                lemma_last_seen_shape(s, window_hash(s, i), i);
                lemma_common_run_shape(s, p, i);
                let literals = s.subrange(anchor, i);
                let sequence = match_sequence(literals, r.offset, r.len);
                let rest = compress_from(s, i + r.len, i + r.len);
                lemma_holds_at_split(b, at, sequence, rest);
                lemma_read_match_sequence(b, at, literals, r.offset, r.len);
                assert(out + literals =~= s.subrange(0, i));
                lemma_copy_match_repeats(s, i, r.offset, r.len);
                lemma_decode_compress_from(b, at + sequence.len(), s, i + r.len, i + r.len);
            },
            None => {
                lemma_decode_compress_from(b, at, s, anchor, i + 1);
            },
        }
    }
}

/// Round trip: the block that the compressor writes for `s` is valid and
/// decodes to `s`, so to as many bytes as `s` has.
pub proof fn lemma_round_trip(s: Seq<u8>)
    ensures
        decode_block(compressed_block(s)) == Some(s),
        decode_block(compressed_block(s)).unwrap().len() == s.len(),
{
    let b = compressed_block(s);
    assert(b.subrange(0, b.len() as int) =~= b);
    assert(s.subrange(0, 0) =~= Seq::<u8>::empty());
    lemma_decode_compress_from(b, 0, s, 0, 0);
}

/// The head of a sequence takes one byte for the token, one more for each
/// 255 literals from the fifteenth on, and the literals.
proof fn lemma_sequence_head_len(literals: Seq<u8>, extra: nat)
    ensures
        sequence_head(literals, extra).len() == 1 + length_extension(literals.len()).len()
            + literals.len(),
        length_extension(literals.len()).len() <= literals.len() / 255 + 1,
        literals.len() < 15 ==> length_extension(literals.len()).len() == 0,
{
    if literals.len() >= 15 {
        lemma_length_bytes_len((literals.len() - 15) as nat);
    }
}

/// What the compressor writes from `anchor` and `i` on is little longer than
/// the input that is left.
proof fn lemma_compress_from_len(s: Seq<u8>, anchor: int, i: int)
    requires
        0 <= anchor <= i <= s.len(),
    ensures
        compress_from(s, anchor, i).len() <= (s.len() - anchor) + (s.len() - anchor) / 255 + 2,
    decreases s.len() - i,
{
    if i + MIN_MATCH > s.len() {
        lemma_sequence_head_len(s.subrange(anchor, s.len() as int), 0);
    } else {
        match find_match(s, i) {
            Some(r) => {
                let p = last_seen(s, window_hash(s, i), i);
                lemma_last_seen_shape(s, window_hash(s, i), i);
                lemma_common_run_shape(s, p, i);
                let literals = s.subrange(anchor, i);
                let extra = (r.len - 4) as nat;
                lemma_sequence_head_len(literals, extra);
                if extra >= 15 {
                    lemma_length_bytes_len((extra - 15) as nat);
                }
                lemma_compress_from_len(s, i + r.len, i + r.len);
            },
            None => {
                lemma_compress_from_len(s, anchor, i + 1);
            },
        }
    }
}

/// The block for an input of `n` bytes is at most `worst_case_len(n)`
/// bytes long: with that much room the compressor does not fail.
pub proof fn lemma_worst_case_len(s: Seq<u8>)
    ensures
        compressed_block(s).len() <= worst_case_len(s.len()),
{
    lemma_compress_from_len(s, 0, 0);
}

} // verus!
