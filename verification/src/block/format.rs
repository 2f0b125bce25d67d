//! The wire format of an LZ4 block, as a mathematical model.
//!
//! A block is a run of sequences. Each sequence is a token, an optional
//! literal-length extension, the literals, and then, unless the input ends
//! with the literals, a two-byte little-endian offset and an optional
//! match-length extension. This module says what a byte string decodes to
//! and how a sequence is written down; the executable compressor and
//! decompressor are specified against it.

use vstd::prelude::*;

verus! {

/// Shortest back-reference that the format can encode.
pub const MIN_MATCH: usize = 4;

/// Largest distance a back-reference can reach.
pub const MAX_OFFSET: usize = 65535;

/// Value of a length-extension byte that announces another one.
pub const EXT_SENTINEL: u8 = 255;

/// Largest value a token nibble holds; it announces an extension run.
pub const NIBBLE_MAX: u8 = 15;

/// A back-reference: copy `len` bytes that start `offset` bytes before the
/// end of the output produced so far.
pub struct BackRef {
    pub offset: nat,
    pub len: nat,
}

/// One parsed sequence of a block: where its literals lie in the input,
/// the back-reference that follows them (none in the closing sequence),
/// and the input position behind the sequence.
pub struct Sequence {
    pub literals_at: int,
    pub literal_len: nat,
    pub back_ref: Option<BackRef>,
    pub next: int,
}

/// The extension run that starts at `i`: the sum of its bytes and the
/// position behind it, or `None` where the input ends before a byte other
/// than the sentinel is met.
pub open spec fn extension_run(b: Seq<u8>, i: int) -> Option<(nat, int)>
    decreases b.len() - i,
{
    if 0 <= i < b.len() {
        if b[i] != EXT_SENTINEL {
            Some((b[i] as nat, i + 1))
        } else {
            match extension_run(b, i + 1) {
                Some((sum, next)) => Some((sum + 255, next)),
                None => None,
            }
        }
    } else {
        None
    }
}

/// The length that a token nibble announces, with the extension run at `i`
/// added where the nibble is full, and the position behind that run.
pub open spec fn length_at(b: Seq<u8>, i: int, nibble: nat) -> Option<(nat, int)> {
    if nibble == NIBBLE_MAX {
        match extension_run(b, i) {
            Some((sum, next)) => Some((sum + 15, next)),
            None => None,
        }
    } else {
        Some((nibble, i))
    }
}

/// The offset stored little-endian in `b[i]` and `b[i + 1]`.
pub open spec fn offset_at(b: Seq<u8>, i: int) -> nat {
    (b[i] as nat) + 256 * (b[i + 1] as nat)
}

/// The sequence whose token is `b[i]`, or `None` where the input ends
/// inside it. A sequence whose literals reach the end of the input carries
/// no back-reference: it closes the block.
pub open spec fn sequence_at(b: Seq<u8>, i: int) -> Option<Sequence> {
    if 0 <= i < b.len() {
        match length_at(b, i + 1, (b[i] / 16) as nat) {
            None => None,
            Some((literal_len, literals_at)) => {
                let end = literals_at + literal_len;
                if end > b.len() {
                    None
                } else if end == b.len() {
                    Some(Sequence { literals_at, literal_len, back_ref: None, next: end })
                } else if end + 2 > b.len() {
                    None
                } else {
                    match length_at(b, end + 2, (b[i] % 16) as nat) {
                        None => None,
                        Some((extra, next)) => Some(
                            Sequence {
                                literals_at,
                                literal_len,
                                back_ref: Some(
                                    BackRef { offset: offset_at(b, end), len: extra + 4 },
                                ),
                                next,
                            },
                        ),
                    }
                }
            },
        }
    } else {
        None
    }
}

/// The output after a back-reference: `len` bytes appended one by one, each
/// a copy of the byte `offset` places before it. Where `offset < len` the
/// bytes appended first feed the later ones.
pub open spec fn copy_match(out: Seq<u8>, offset: nat, len: nat) -> Seq<u8>
    decreases len,
{
    if len == 0 {
        out
    } else {
        let shorter = copy_match(out, offset, (len - 1) as nat);
        shorter.push(shorter[shorter.len() - offset])
    }
}

/// The literals that the sequence `q` takes from the input.
pub open spec fn literals_of(b: Seq<u8>, q: Sequence) -> Seq<u8> {
    b.subrange(q.literals_at, q.literals_at + q.literal_len)
}

/// What the input decodes to from the sequence at `i` on, given the output
/// `out` of the sequences before it. `None` where the input is no valid
/// block: it ends inside a sequence or right behind a back-reference, or an
/// offset is zero or reaches before the start of the output.
///
/// Proofs unfold it one sequence at a time with `lemma_decode_step`.
#[verifier::opaque]
pub open spec fn decode_from(b: Seq<u8>, i: int, out: Seq<u8>) -> Option<Seq<u8>>
    decreases b.len() - i,
{
    match sequence_at(b, i) {
        None => None,
        Some(q) => {
            let with_literals = out + literals_of(b, q);
            match q.back_ref {
                None => Some(with_literals),
                Some(r) => {
                    proof {
                        lemma_sequence_bounds(b, i);
                    }
                    if 1 <= r.offset <= with_literals.len() {
                        decode_from(b, q.next, copy_match(with_literals, r.offset, r.len))
                    } else {
                        None
                    }
                },
            }
        },
    }
}

/// One step of decoding: the sequence at `i` either ends the block, or is
/// followed, or makes the input invalid.
pub proof fn lemma_decode_step(b: Seq<u8>, i: int, out: Seq<u8>)
    ensures
        decode_from(b, i, out) == match sequence_at(b, i) {
            None => None,
            Some(q) => match q.back_ref {
                None => Some(out + literals_of(b, q)),
                Some(r) => if 1 <= r.offset <= out.len() + q.literal_len {
                    decode_from(
                        b,
                        q.next,
                        copy_match(out + literals_of(b, q), r.offset, r.len),
                    )
                } else {
                    None
                },
            },
        },
{
    reveal(decode_from);
    lemma_sequence_bounds(b, i);
}

/// What a block decodes to, or `None` where the bytes are no valid block.
pub open spec fn decode_block(b: Seq<u8>) -> Option<Seq<u8>> {
    decode_from(b, 0, Seq::empty())
}

/// The bytes of an extension run whose sum is `rest`.
pub open spec fn length_bytes(rest: nat) -> Seq<u8>
    decreases rest,
{
    if rest >= 255 {
        seq![EXT_SENTINEL] + length_bytes((rest - 255) as nat)
    } else {
        seq![rest as u8]
    }
}

/// The nibble that stands for `len` in a token.
pub open spec fn nibble_of(len: nat) -> nat {
    if len >= 15 {
        15
    } else {
        len
    }
}

/// The extension bytes that follow a token for `len`: none below 15.
pub open spec fn length_extension(len: nat) -> Seq<u8> {
    if len >= 15 {
        length_bytes((len - 15) as nat)
    } else {
        Seq::empty()
    }
}

/// The token for `literal_len` literals and a match of `match_extra + 4`.
pub open spec fn token_of(literal_len: nat, match_extra: nat) -> u8 {
    (nibble_of(literal_len) * 16 + nibble_of(match_extra)) as u8
}

/// The two bytes of an offset, low byte first.
pub open spec fn offset_bytes(offset: nat) -> Seq<u8> {
    seq![(offset % 256) as u8, (offset / 256) as u8]
}

/// The bytes of a sequence up to the end of its literals, where a match of
/// `match_extra + 4` bytes follows (none: `match_extra` is 0).
pub open spec fn sequence_head(literals: Seq<u8>, match_extra: nat) -> Seq<u8> {
    seq![token_of(literals.len(), match_extra)] + length_extension(literals.len()) + literals
}

/// The bytes of a sequence with a back-reference of `len >= 4` bytes.
pub open spec fn match_sequence(literals: Seq<u8>, offset: nat, len: nat) -> Seq<u8> {
    sequence_head(literals, (len - 4) as nat) + offset_bytes(offset) + length_extension(
        (len - 4) as nat,
    )
}

/// The bytes of the closing sequence of a block: literals only.
pub open spec fn last_sequence(literals: Seq<u8>) -> Seq<u8> {
    sequence_head(literals, 0)
}

/// An extension run is a stretch of sentinel bytes closed by one byte below
/// the sentinel, all inside the input; its sum counts 255 for each sentinel.
pub proof fn lemma_extension_run_shape(b: Seq<u8>, i: int)
    ensures
        match extension_run(b, i) {
            Some((sum, next)) => {
                &&& 0 <= i < next <= b.len()
                &&& b[next - 1] != EXT_SENTINEL
                &&& forall|k: int| i <= k < next - 1 ==> b[k] == EXT_SENTINEL
                &&& sum == 255 * (next - 1 - i) + b[next - 1]
            },
            None => i < 0 || forall|k: int| i <= k < b.len() ==> b[k] == EXT_SENTINEL,
        },
    decreases b.len() - i,
{
    if 0 <= i < b.len() && b[i] == EXT_SENTINEL {
        lemma_extension_run_shape(b, i + 1);
    }
}

/// An extension run takes one byte for each full 255 of its sum, and one
/// more.
pub proof fn lemma_length_bytes_len(rest: nat)
    ensures
        length_bytes(rest).len() == rest / 255 + 1,
    decreases rest,
{
    if rest >= 255 {
        lemma_length_bytes_len((rest - 255) as nat);
    }
}

/// The bytes written for an extension run are sentinels closed by one byte
/// below the sentinel.
pub proof fn lemma_length_bytes_closes(rest: nat)
    ensures
        length_bytes(rest).len() >= 1,
        length_bytes(rest).last() == rest % 255,
        forall|k: int|
            0 <= k < length_bytes(rest).len() - 1 ==> #[trigger] length_bytes(rest)[k]
                == EXT_SENTINEL,
    decreases rest,
{
    if rest >= 255 {
        lemma_length_bytes_closes((rest - 255) as nat);
    }
}

/// A parsed sequence lies inside the input, behind its token.
pub proof fn lemma_sequence_bounds(b: Seq<u8>, i: int)
    ensures
        sequence_at(b, i) matches Some(q) ==> {
            &&& 0 <= i < q.literals_at
            &&& q.literals_at + q.literal_len <= q.next <= b.len()
            &&& q.back_ref is None <==> q.literals_at + q.literal_len == b.len()
            &&& q.back_ref matches Some(r) ==> r.len >= MIN_MATCH && r.offset <= MAX_OFFSET
                && q.literals_at + q.literal_len + 2 <= q.next
        },
{
    if 0 <= i < b.len() {
        lemma_extension_run_shape(b, i + 1);
        match length_at(b, i + 1, (b[i] / 16) as nat) {
            None => {},
            Some((literal_len, literals_at)) => {
                let end = literals_at + literal_len;
                if end + 2 <= b.len() {
                    lemma_extension_run_shape(b, end + 2);
                }
            },
        }
    }
}

/// A back-reference keeps what was there and appends `len` bytes, each equal
/// to the byte `offset` places before it.
pub proof fn lemma_copy_match_shape(out: Seq<u8>, offset: nat, len: nat)
    requires
        1 <= offset <= out.len(),
    ensures
        copy_match(out, offset, len).len() == out.len() + len,
        forall|k: int| 0 <= k < out.len() ==> copy_match(out, offset, len)[k] == out[k],
        forall|k: int|
            out.len() <= k < out.len() + len ==> #[trigger] copy_match(out, offset, len)[k]
                == copy_match(out, offset, len)[k - offset],
    decreases len,
{
    if len > 0 {
        lemma_copy_match_shape(out, offset, (len - 1) as nat);
    }
}

/// A back-reference that does not overlap its own output appends a plain
/// copy of `len` bytes of the earlier output.
pub proof fn lemma_copy_match_disjoint(out: Seq<u8>, offset: nat, len: nat)
    requires
        1 <= offset <= out.len(),
        len <= offset,
    ensures
        copy_match(out, offset, len) == out + out.subrange(
            out.len() - offset,
            out.len() - offset + len,
        ),
{
    lemma_copy_match_shape(out, offset, len);
    let copied = copy_match(out, offset, len);
    assert forall|k: int| out.len() <= k < out.len() + len implies copied[k] == out[k - offset] by {
        assert(copied[k] == copied[k - offset]);
    }
}

/// Decoding only ever appends: where the input decodes from the sequence at
/// `i` on, the result holds the output so far, that sequence's literals and
/// the bytes of its back-reference.
pub proof fn lemma_decode_grows(b: Seq<u8>, i: int, out: Seq<u8>)
    ensures
        decode_from(b, i, out) matches Some(s) ==> sequence_at(b, i) matches Some(q) && s.len()
            >= out.len() + q.literal_len + (match q.back_ref {
            Some(r) => r.len,
            None => 0,
        }),
    decreases b.len() - i,
{
    lemma_decode_step(b, i, out);
    if let Some(q) = sequence_at(b, i) {
        lemma_sequence_bounds(b, i);
        let with_literals = out + literals_of(b, q);
        if let Some(r) = q.back_ref {
            if 1 <= r.offset <= with_literals.len() {
                let copied = copy_match(with_literals, r.offset, r.len);
                lemma_copy_match_shape(with_literals, r.offset, r.len);
                lemma_decode_grows(b, q.next, copied);
            }
        }
    }
}

/// Decoding from the end of the input on fails: a token is missing.
pub proof fn lemma_decode_without_token(b: Seq<u8>, i: int, out: Seq<u8>)
    requires
        i >= b.len(),
    ensures
        decode_from(b, i, out) is None,
{
    lemma_decode_step(b, i, out);
}

/// What the literals of the sequence at `i` decide: decoding fails where the
/// input ends inside the literal length or the literals, or one byte behind
/// them; it ends with the literals where they reach the end of the input;
/// and whatever it gives holds the output so far and the literals.
pub proof fn lemma_decode_literals(b: Seq<u8>, i: int, out: Seq<u8>)
    requires
        0 <= i < b.len(),
    ensures
        match length_at(b, i + 1, (b[i] / 16) as nat) {
            None => decode_from(b, i, out) is None,
            Some((len, at)) => {
                &&& i < at
                &&& at + len > b.len() ==> decode_from(b, i, out) is None
                &&& at + len == b.len() ==> decode_from(b, i, out) == Some(
                    out + b.subrange(at, at + len),
                )
                &&& at + len + 1 == b.len() ==> decode_from(b, i, out) is None
                &&& decode_from(b, i, out) matches Some(s) ==> s.len() >= out.len() + len
            },
        },
{
    lemma_decode_step(b, i, out);
    lemma_decode_grows(b, i, out);
    lemma_extension_run_shape(b, i + 1);
}

/// What the back-reference of the sequence at `i` decides, where `len`
/// literals at `at` are followed by at least two bytes: decoding fails where
/// the input ends inside the match length, where the offset is zero and
/// where it reaches before the start of the output; else it goes on behind
/// the sequence with the match appended; and whatever it gives holds the
/// output so far, the literals and the match.
pub proof fn lemma_decode_match(b: Seq<u8>, i: int, out: Seq<u8>, len: nat, at: int)
    requires
        0 <= i < b.len(),
        length_at(b, i + 1, (b[i] / 16) as nat) == Some((len, at)),
        at + len + 2 <= b.len(),
    ensures
        match length_at(b, at + len + 2, (b[i] % 16) as nat) {
            None => decode_from(b, i, out) is None,
            Some((extra, next)) => {
                &&& i < next <= b.len()
                &&& decode_from(b, i, out) == if 1 <= offset_at(b, at + len) <= out.len() + len {
                    decode_from(
                        b,
                        next,
                        copy_match(
                            out + b.subrange(at, at + len),
                            offset_at(b, at + len),
                            extra + 4,
                        ),
                    )
                } else {
                    None
                }
                &&& decode_from(b, i, out) matches Some(s) ==> s.len() >= out.len() + len + extra
                    + 4
            },
        },
{
    lemma_decode_step(b, i, out);
    lemma_decode_grows(b, i, out);
    lemma_sequence_bounds(b, i);
}

} // verus!
