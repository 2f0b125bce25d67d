//! The compressor: a single greedy pass that looks each four-byte window up
//! in a table of the windows seen before it.

use super::format::{
    decode_block, last_sequence, lemma_length_bytes_len, length_bytes, length_extension,
    match_sequence, offset_bytes, sequence_head, BackRef, MAX_OFFSET, MIN_MATCH,
};
use super::roundtrip::{lemma_round_trip, lemma_worst_case_len};
use vstd::prelude::*;

verus! {

/// The block does not fit the room that was given for it.
#[derive(Debug, Clone, Copy, PartialEq, Eq)]
pub struct CompressError;

/// Number of slots of the table of earlier windows.
pub const TABLE_SIZE: usize = 4096;

/// The slot of the four-byte window at `i`: its little-endian value times
/// a large odd constant, of which bits 20 to 31 are kept.
#[verifier::opaque]
pub open spec fn window_hash(s: Seq<u8>, i: int) -> int {
    let value = s[i] as int + 256 * (s[i + 1] as int) + 65536 * (s[i + 2] as int) + 16777216 * (
    s[i + 3] as int);
    ((value * 2654435761) % 0x1_0000_0000) / 0x10_0000
}

/// The last position before `i` whose window falls into slot `h`, or -1.
pub open spec fn last_seen(s: Seq<u8>, h: int, i: int) -> int
    decreases i,
{
    if i <= 0 {
        -1
    } else if window_hash(s, i - 1) == h {
        i - 1
    } else {
        last_seen(s, h, i - 1)
    }
}

/// How many bytes from `i` on repeat the bytes from `p` on, up to the end of
/// the input.
pub open spec fn common_run(s: Seq<u8>, p: int, i: int) -> nat
    decreases s.len() - i,
{
    if 0 <= p < i < s.len() && s[p] == s[i] {
        1 + common_run(s, p + 1, i + 1)
    } else {
        0
    }
}

/// The back-reference that the compressor takes at `i`: to the last earlier
/// position with the same slot, where that lies within reach and at least
/// four bytes repeat; as long as the bytes go on repeating.
pub open spec fn find_match(s: Seq<u8>, i: int) -> Option<BackRef> {
    let p = last_seen(s, window_hash(s, i), i);
    if 0 <= p && i - p <= MAX_OFFSET && common_run(s, p, i) >= MIN_MATCH {
        Some(BackRef { offset: (i - p) as nat, len: common_run(s, p, i) })
    } else {
        None
    }
}

/// The sequences that the compressor writes for the input from `anchor` on,
/// when it has looked for a match at every position before `i` and the
/// bytes from `anchor` to `i` wait as literals.
pub open spec fn compress_from(s: Seq<u8>, anchor: int, i: int) -> Seq<u8>
    decreases s.len() - i,
{
    if i + MIN_MATCH > s.len() {
        last_sequence(s.subrange(anchor, s.len() as int))
    } else {
        match find_match(s, i) {
            Some(r) => {
                proof {
                    lemma_common_run_shape(s, i - r.offset, i);
                }
                match_sequence(s.subrange(anchor, i), r.offset, r.len) + compress_from(
                    s,
                    i + r.len,
                    i + r.len,
                )
            },
            None => compress_from(s, anchor, i + 1),
        }
    }
}

/// The block that the compressor writes for `s`.
pub open spec fn compressed_block(s: Seq<u8>) -> Seq<u8> {
    compress_from(s, 0, 0)
}

/// Room that is enough for the block of any input of `n` bytes.
pub open spec fn worst_case_len(n: nat) -> nat {
    n + n / 255 + 16
}

/// The last position seen in a slot lies before `i`, and its window does
/// fall into that slot; no later position before `i` does.
pub proof fn lemma_last_seen_shape(s: Seq<u8>, h: int, i: int)
    ensures
        -1 <= last_seen(s, h, i),
        last_seen(s, h, i) < i || i <= 0,
        last_seen(s, h, i) >= 0 ==> window_hash(s, last_seen(s, h, i)) == h,
        forall|k: int| last_seen(s, h, i) < k < i && 0 <= k ==> window_hash(s, k) != h,
    decreases i,
{
    if i > 0 && window_hash(s, i - 1) != h {
        lemma_last_seen_shape(s, h, i - 1);
    }
}

/// A common run ends inside the input, every byte of it repeats the byte
/// `i - p` places before it, and the byte behind it, if there is one, does
/// not.
pub proof fn lemma_common_run_shape(s: Seq<u8>, p: int, i: int)
    ensures
        common_run(s, p, i) > 0 ==> 0 <= p < i && i + common_run(s, p, i) <= s.len(),
        forall|k: int| i <= k < i + common_run(s, p, i) ==> #[trigger] s[k] == s[k - (i - p)],
        0 <= p < i && i + common_run(s, p, i) < s.len() ==> s[p + common_run(s, p, i)] != s[i
            + common_run(s, p, i)],
    decreases s.len() - i,
{
    if 0 <= p < i < s.len() && s[p] == s[i] {
        lemma_common_run_shape(s, p + 1, i + 1);
    }
}

/// A run of `m` repeating bytes that stops at the end of the input or at a
/// byte that differs is the common run.
pub proof fn lemma_common_run_is(s: Seq<u8>, p: int, i: int, m: nat)
    requires
        0 <= p < i,
        i + m <= s.len(),
        forall|k: int| i <= k < i + m ==> #[trigger] s[k] == s[k - (i - p)],
        i + m == s.len() || s[p + m] != s[i + m],
    ensures
        common_run(s, p, i) == m,
    decreases m,
{
    if m > 0 {
        lemma_common_run_is(s, p + 1, i + 1, (m - 1) as nat);
    }
}

/// Where one of the four bytes at `i` differs from its counterpart at `p`,
/// fewer than four bytes repeat.
proof fn lemma_window_differs(s: Seq<u8>, p: int, i: int)
    requires
        0 <= p < i,
        i + 4 <= s.len(),
        s[p] != s[i] || s[p + 1] != s[i + 1] || s[p + 2] != s[i + 2] || s[p + 3] != s[i + 3],
    ensures
        common_run(s, p, i) < MIN_MATCH,
{
    lemma_common_run_shape(s, p, i);
}

/// Once the head and the back-reference of a sequence stand behind what was
/// written before, the sequence does, and what follows it is what is left.
proof fn lemma_sequence_written(
    emitted: Seq<u8>,
    written: Seq<u8>,
    literals: Seq<u8>,
    offset: nat,
    len: nat,
    rest: Seq<u8>,
)
    requires
        len >= MIN_MATCH,
        written == (emitted + sequence_head(literals, (len - 4) as nat)) + (offset_bytes(offset)
            + length_extension((len - 4) as nat)),
    ensures
        written + rest == emitted + (match_sequence(literals, offset, len) + rest),
{
}

/// The slot of the window at `i`.
#[inline(always)]
fn hash4(input: &[u8], i: usize) -> (h: usize)
    requires
        i + 4 <= input.len(),
    ensures
        h == window_hash(input@, i as int),
        h < TABLE_SIZE,
{
    reveal(window_hash);
    let value: u64 = input[i] as u64 + 256 * (input[i + 1] as u64) + 65536 * (input[i + 2] as u64)
        + 16777216 * (input[i + 3] as u64);
    (((value * 2654435761) % 0x1_0000_0000) / 0x10_0000) as usize
}

/// Writes `c` behind the first `*o` bytes of `output`, if there is room, and
/// nothing else.
#[inline(always)]
fn push(output: &mut [u8], o: &mut usize, c: u8) -> (r: Result<(), CompressError>)
    requires
        *old(o) <= old(output).len(),
    ensures
        final(output).len() == old(output).len(),
        match r {
            Ok(_) => {
                &&& *final(o) == *old(o) + 1
                &&& *final(o) <= final(output).len()
                &&& forall|k: int|
                    *final(o) <= k < old(output)@.len() ==> #[trigger] final(output)@[k] == old(
                        output,
                    )@[k]
                &&& final(output)@.subrange(0, *final(o) as int) == old(output)@.subrange(
                    0,
                    *old(o) as int,
                ).push(c)
            },
            Err(_) => *old(o) + 1 > old(output).len() && final(output)@ == old(output)@,
        },
{
    if *o < output.len() {
        output[*o] = c;
        *o += 1;
        Ok(())
    } else {
        Err(CompressError)
    }
}

/// Writes the extension run for `rest` behind the first `*o` bytes of
/// `output`: 255 as long as that much is left, then what is left.
fn push_long_int(output: &mut [u8], o: &mut usize, rest: usize) -> (r: Result<
    (),
    CompressError,
>)
    requires
        *old(o) <= old(output).len(),
    ensures
        final(output).len() == old(output).len(),
        match r {
            Ok(_) => {
                &&& *final(o) == *old(o) + length_bytes(rest as nat).len()
                &&& *final(o) <= final(output).len()
                &&& forall|k: int|
                    *final(o) <= k < old(output)@.len() ==> #[trigger] final(output)@[k] == old(
                        output,
                    )@[k]
                &&& final(output)@.subrange(0, *final(o) as int) == old(output)@.subrange(
                    0,
                    *old(o) as int,
                ) + length_bytes(rest as nat)
            },
            Err(_) => *old(o) + length_bytes(rest as nat).len() > old(output).len(),
        },
{
    let mut left = rest;
    let ghost mut done = Seq::<u8>::empty();
    loop
        invariant
            output.len() == old(output).len(),
            forall|k: int| *o <= k < output.len() ==> output@[k] == old(output)@[k],
            *o <= output.len(),
            *o == *old(o) + done.len(),
            length_bytes(rest as nat) == done + length_bytes(left as nat),
            output@.subrange(0, *o as int) == old(output)@.subrange(0, *old(o) as int) + done,
        decreases left,
    {
        let l: usize = if left < 255 {
            left
        } else {
            255
        };
        proof {
            lemma_length_bytes_len(left as nat);
        }
        push(output, o, l as u8)?;
        proof {
            done = done.push(l as u8);
        }
        left -= l;
        if l != 255 {
            return Ok(());
        }
    }
}

/// Writes `input[from..to]` behind the first `*o` bytes of `output`.
fn push_literals(output: &mut [u8], o: &mut usize, input: &[u8], from: usize, to: usize) -> (r:
    Result<(), CompressError>)
    requires
        *old(o) <= old(output).len(),
        from <= to <= input.len(),
    ensures
        final(output).len() == old(output).len(),
        match r {
            Ok(_) => {
                &&& *final(o) == *old(o) + (to - from)
                &&& *final(o) <= final(output).len()
                &&& forall|k: int|
                    *final(o) <= k < old(output)@.len() ==> #[trigger] final(output)@[k] == old(
                        output,
                    )@[k]
                &&& final(output)@.subrange(0, *final(o) as int) == old(output)@.subrange(
                    0,
                    *old(o) as int,
                ) + input@.subrange(from as int, to as int)
            },
            Err(_) => *old(o) + (to - from) > old(output).len(),
        },
{
    let mut k = from;
    while k < to
        invariant
            output.len() == old(output).len(),
            forall|k: int| *o <= k < output.len() ==> output@[k] == old(output)@[k],
            from <= k <= to <= input.len(),
            *o == *old(o) + (k - from),
            *o <= output.len(),
            output@.subrange(0, *o as int) == old(output)@.subrange(0, *old(o) as int)
                + input@.subrange(from as int, k as int),
        decreases to - k,
    {
        push(output, o, input[k])?;
        k += 1;
    }
    Ok(())
}

/// Writes the head of a sequence behind the first `*o` bytes of `output`:
/// the token for `input[from..to]` as literals and for a match of
/// `extra + 4` bytes, the literal-length extension, and the literals.
fn push_head(
    output: &mut [u8],
    o: &mut usize,
    input: &[u8],
    from: usize,
    to: usize,
    extra: usize,
) -> (r: Result<(), CompressError>)
    requires
        *old(o) <= old(output).len(),
        from <= to <= input.len(),
    ensures
        final(output).len() == old(output).len(),
        match r {
            Ok(_) => {
                &&& *final(o) == *old(o) + sequence_head(
                    input@.subrange(from as int, to as int),
                    extra as nat,
                ).len()
                &&& *final(o) <= final(output).len()
                &&& forall|k: int|
                    *final(o) <= k < old(output)@.len() ==> #[trigger] final(output)@[k] == old(
                        output,
                    )@[k]
                &&& final(output)@.subrange(0, *final(o) as int) == old(output)@.subrange(
                    0,
                    *old(o) as int,
                ) + sequence_head(input@.subrange(from as int, to as int), extra as nat)
            },
            Err(_) => *old(o) + sequence_head(
                input@.subrange(from as int, to as int),
                extra as nat,
            ).len() > old(output).len(),
        },
{
    // Make token
    let lit_len = to - from;
    let lit_len_tk: u8 = if lit_len < 15 {
        lit_len as u8
    } else {
        15
    };
    let match_len_tk: u8 = if extra < 15 {
        extra as u8
    } else {
        15
    };
    let token: u8 = lit_len_tk << 4 | match_len_tk;
    proof {
        assert(lit_len_tk << 4 | match_len_tk == lit_len_tk * 16 + match_len_tk) by (bit_vector)
            requires
                lit_len_tk <= 15,
                match_len_tk <= 15,
        ;
    }
    push(output, o, token)?;

    // Push long literal length
    if lit_len_tk == 15 {
        push_long_int(output, o, lit_len - 15)?;
    }
    // Copy literals

    push_literals(output, o, input, from, to)?;
    Ok(())
}

/// Writes the back-reference of a sequence behind the first `*o` bytes of
/// `output`: the offset, low byte first, and the match-length extension.
fn push_back_ref(output: &mut [u8], o: &mut usize, offt: usize, extra: usize) -> (r: Result<
    (),
    CompressError,
>)
    requires
        *old(o) <= old(output).len(),
        offt <= MAX_OFFSET,
    ensures
        final(output).len() == old(output).len(),
        match r {
            Ok(_) => {
                &&& *final(o) == *old(o) + 2 + length_extension(extra as nat).len()
                &&& *final(o) <= final(output).len()
                &&& forall|k: int|
                    *final(o) <= k < old(output)@.len() ==> #[trigger] final(output)@[k] == old(
                        output,
                    )@[k]
                &&& final(output)@.subrange(0, *final(o) as int) == old(output)@.subrange(
                    0,
                    *old(o) as int,
                ) + (offset_bytes(offt as nat) + length_extension(extra as nat))
            },
            Err(_) => *old(o) + 2 + length_extension(extra as nat).len() > old(output).len(),
        },
{
    // Push match offset
    push(output, o, (offt % 256) as u8)?;
    push(output, o, (offt / 256) as u8)?;

    // Push long match length
    if extra >= 15 {
        push_long_int(output, o, extra - 15)?;
    }
    Ok(())
}

/// Writes the block for `input` into the front of `output` and returns its
/// length. Nothing behind the block is written. What `output` holds after a
/// failure is left open.
///
/// Fails exactly where the block is longer than `output`, which it never is
/// where `output` has `worst_case_len` bytes. The block written decodes to
/// `input`.
pub fn compress_into_uninit(input: &[u8], output: &mut [u8]) -> (r: Result<usize, CompressError>)
    ensures
        final(output).len() == old(output).len(),
        match r {
            Ok(l) => {
                &&& l == compressed_block(input@).len()
                &&& l <= old(output).len()
                &&& final(output)@.subrange(0, l as int) == compressed_block(input@)
                &&& decode_block(final(output)@.subrange(0, l as int)) == Some(input@)
                &&& forall|k: int|
                    l <= k < old(output)@.len() ==> #[trigger] final(output)@[k] == old(
                        output,
                    )@[k]
            },
            Err(_) => compressed_block(input@).len() > old(output).len(),
        },
        old(output).len() >= worst_case_len(input@.len()) ==> r is Ok,
{
    proof {
        lemma_round_trip(input@);
        lemma_worst_case_len(input@);
    }
    let n = input.len();
    let mut table: Vec<usize> = vec![0usize; TABLE_SIZE];
    let mut start: usize = 0;
    let mut i: usize = 0;
    let mut o: usize = 0;
    let ghost s = input@;

    while n - i >= MIN_MATCH
        invariant
            s == input@,
            n == input.len(),
            output.len() == old(output).len(),
            forall|k: int| o <= k < output.len() ==> output@[k] == old(output)@[k],
            start <= i <= n,
            o <= output.len(),
            table.len() == TABLE_SIZE,
            n - i >= MIN_MATCH ==> forall|h: int|
                0 <= h < TABLE_SIZE ==> #[trigger] table@[h] == last_seen(s, h, i as int) + 1,
            output@.subrange(0, o as int) + compress_from(s, start as int, i as int)
                == compressed_block(s),
            compressed_block(s).len() <= worst_case_len(s.len()),
        decreases n - i,
    {
        let ghost emitted = output@.subrange(0, o as int);
        let h = hash4(input, i);
        let seen = table[h];
        table[h] = i + 1;
        proof {
            lemma_last_seen_shape(s, h as int, i as int);
        }
        if seen != 0 && i - (seen - 1) <= MAX_OFFSET && input[seen - 1] == input[i] && input[seen]
            == input[i + 1] && input[seen + 1] == input[i + 2] && input[seen + 2] == input[i + 3] {
            let k = seen - 1;
            let offt = i - k;

            // Find the upper bound on matching bytes
            let mut match_len = MIN_MATCH;
            while i + match_len < n && input[k + match_len] == input[i + match_len]
                invariant
                    s == input@,
                    n == input.len(),
                    k < i,
                    MIN_MATCH <= match_len,
                    i + match_len <= n,
                    forall|j: int| i <= j < i + match_len ==> #[trigger] s[j] == s[j - (i - k)],
                decreases n - i - match_len,
            {
                match_len += 1;
            }
            let ghost literals = s.subrange(start as int, i as int);
            let ghost rest = compress_from(s, i + match_len, i + match_len);
            proof {
                lemma_common_run_is(s, k as int, i as int, match_len as nat);
            }

            let extra = match_len - MIN_MATCH;
            push_head(output, &mut o, input, start, i, extra)?;
            push_back_ref(output, &mut o, offt, extra)?;
            proof {
                lemma_sequence_written(
                    emitted,
                    output@.subrange(0, o as int),
                    literals,
                    offt as nat,
                    match_len as nat,
                    rest,
                );
            }

            // Enter the windows inside the match
            let end = i + match_len;
            i += 1;
            while i < end && n - i >= MIN_MATCH
                invariant
                    s == input@,
                    n == input.len(),
                    i <= end <= n,
                    table.len() == TABLE_SIZE,
                    n - i >= MIN_MATCH ==> forall|h: int|
                        0 <= h < TABLE_SIZE ==> #[trigger] table@[h] == last_seen(s, h, i as int)
                            + 1,
                decreases end - i,
            {
                let h = hash4(input, i);
                table[h] = i + 1;
                i += 1;
            }
            i = end;
            start = end;
        } else {
            proof {
                if seen != 0 && i - (seen - 1) <= MAX_OFFSET {
                    lemma_window_differs(s, seen - 1, i as int);
                }
            }
            i += 1;
        }
    }

    // Insert remaining literals
    push_head(output, &mut o, input, start, n, 0)?;
    Ok(o)
}

/// Compresses `input` into a block of at most `max_size` bytes.
///
/// Succeeds exactly where the block for `input` is no longer than `max_size`,
/// which it never is where `max_size` is `worst_case_len` of the input's
/// length, and then returns that block. The block decodes to `input`.
pub fn compress(input: &[u8], max_size: usize) -> (r: Result<Vec<u8>, CompressError>)
    ensures
        match r {
            Ok(v) => {
                &&& v@ == compressed_block(input@)
                &&& v@.len() <= max_size
                &&& decode_block(v@) == Some(input@)
            },
            Err(_) => compressed_block(input@).len() > max_size,
        },
        max_size >= worst_case_len(input@.len()) ==> r is Ok,
{
    let mut v = vec![0u8; max_size];
    let l = compress_into_uninit(input, v.as_mut_slice())?;
    v.truncate(l);
    Ok(v)
}

} // verus!
