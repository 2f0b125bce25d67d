//! The decompressor: from the bytes of a block to the bytes it stands for.

use super::format::{
    copy_match, decode_block, decode_from, extension_run, lemma_copy_match_disjoint,
    lemma_decode_literals, lemma_decode_match, lemma_decode_without_token, EXT_SENTINEL,
};
use vstd::prelude::*;

verus! {

/// The input is no valid block, or what it decodes to does not fit.
#[derive(Debug, Clone, Copy, PartialEq, Eq)]
pub struct DecompressError;

/// Trusted: `<[T]>::copy_from_slice`, which std documents as a copy of all
/// elements of `src` into the slice, panicking where the two lengths differ.
pub assume_specification<T>[ <[T]>::copy_from_slice ](dst: &mut [T], src: &[T]) where T: Copy
    requires
        old(dst).len() == src.len(),
    ensures
        final(dst)@ == src@,
;

/// Copies `len` bytes of `src`, from `from` on, over `dst[to..to + len]`.
#[inline(always)]
fn copy_block(dst: &mut [u8], to: usize, src: &[u8], from: usize, len: usize)
    requires
        to + len <= old(dst).len(),
        from + len <= src.len(),
    ensures
        final(dst)@ == old(dst)@.subrange(0, to as int) + src@.subrange(
            from as int,
            from + len,
        ) + old(dst)@.subrange(to + len, old(dst)@.len() as int),
{
    let (_, tail) = dst.split_at_mut(to);
    let (target, _) = tail.split_at_mut(len);
    target.copy_from_slice(&src[from..from + len]);
}

/// Copies `buf[from..end]` to `buf[to..]`; the two ranges may overlap.
///
/// Trusted: the body is `<[u8]>::copy_within`, which std documents as a
/// `memmove` of the source range to the destination index, panicking only
/// where a range exceeds the slice or ends before it starts. The contract
/// claims that the destination receives the bytes that the source range held
/// before the call and that every other byte stays as it was.
#[inline(always)]
#[verifier::external_body]
fn move_block(buf: &mut [u8], to: usize, from: usize, end: usize)
    requires
        from <= end <= old(buf).len(),
        to + (end - from) <= old(buf).len(),
    ensures
        final(buf)@ == old(buf)@.subrange(0, to as int) + old(buf)@.subrange(
            from as int,
            end as int,
        ) + old(buf)@.subrange(to + (end - from), old(buf)@.len() as int),
{
    buf.copy_within(from..end, to);
}

/// Reads the extension run at `*pos` and moves `*pos` behind it. Fails where
/// the input ends inside the run or the sum does not fit a `usize`.
#[inline(always)]
fn get_long_int(input: &[u8], pos: &mut usize) -> (r: Result<usize, DecompressError>)
    requires
        *old(pos) <= input.len(),
    ensures
        *final(pos) <= input.len(),
        match r {
            Ok(sum) => extension_run(input@, *old(pos) as int) == Some(
                (sum as nat, *final(pos) as int),
            ),
            Err(_) => match extension_run(input@, *old(pos) as int) {
                Some((sum, _)) => sum > usize::MAX,
                None => true,
            },
        },
{
    let mut s: usize = 0;
    loop
        invariant
            *pos <= input.len(),
            match extension_run(input@, *pos as int) {
                Some((sum, next)) => extension_run(input@, *old(pos) as int) == Some(
                    (sum + s as nat, next),
                ),
                None => extension_run(input@, *old(pos) as int) is None,
            },
        decreases input.len() - *pos,
    {
        if *pos >= input.len() {
            return Err(DecompressError);
        }
        let n = input[*pos];
        s = match s.checked_add(n as usize) {
            Some(sum) => sum,
            None => {
                return Err(DecompressError);
            },
        };
        *pos += 1;
        if n != EXT_SENTINEL {
            return Ok(s);
        }
    }
}

/// Appends `count` bytes to the first `*to` bytes of `buf`, one by one, each
/// a copy of the byte `*to - from` places before it, and moves `*to` behind
/// them. Right for every back-reference, overlapping or not. Nothing behind
/// the bytes appended is written.
#[inline(always)]
fn copy_dup(buf: &mut [u8], to: &mut usize, from: usize, count: usize)
    requires
        from < *old(to),
        *old(to) + count <= old(buf).len(),
    ensures
        final(buf).len() == old(buf).len(),
        *final(to) == *old(to) + count,
        final(buf)@.subrange(0, *final(to) as int) == copy_match(
            old(buf)@.subrange(0, *old(to) as int),
            (*old(to) - from) as nat,
            count as nat,
        ),
        forall|k: int|
            *final(to) <= k < old(buf)@.len() ==> #[trigger] final(buf)@[k] == old(buf)@[k],
{
    let end = *to + count;
    let mut src = from;
    while *to < end
        invariant
            buf.len() == old(buf).len(),
            *old(to) <= *to <= end,
            end == *old(to) + count,
            end <= buf.len(),
            *to - src == *old(to) - from,
            from < *old(to),
            buf@.subrange(0, *to as int) == copy_match(
                old(buf)@.subrange(0, *old(to) as int),
                (*old(to) - from) as nat,
                (*to - *old(to)) as nat,
            ),
            forall|k: int| *to <= k < buf.len() ==> buf@[k] == old(buf)@[k],
        decreases end - *to,
    {
        let c = buf[src];
        buf[*to] = c;
        *to += 1;
        src += 1;
    }
}

/// An empty run of literals adds nothing to the output.
proof fn lemma_no_literals(out: Seq<u8>, b: Seq<u8>, at: int)
    requires
        0 <= at <= b.len(),
    ensures
        out + b.subrange(at, at) == out,
{
}

/// After a block copy from another slice, the first `kept` of the copied
/// bytes stand behind what stood before `to`.
proof fn lemma_block_copied(
    before: Seq<u8>,
    after: Seq<u8>,
    to: int,
    src: Seq<u8>,
    from: int,
    copied: int,
    kept: int,
)
    requires
        0 <= to,
        to + copied <= before.len(),
        0 <= from,
        from + copied <= src.len(),
        0 <= kept <= copied,
        after == before.subrange(0, to) + src.subrange(from, from + copied) + before.subrange(
            to + copied,
            before.len() as int,
        ),
    ensures
        after.len() == before.len(),
        after.subrange(0, to + kept) == before.subrange(0, to) + src.subrange(from, from + kept),
{
}

/// After a block move inside the buffer, the first `kept` of the moved bytes
/// are the back-reference from `to` to `from`, where that many bytes lie
/// before `to`: a block move is right only where the match does not overlap
/// its own output.
proof fn lemma_block_moved(
    before: Seq<u8>,
    after: Seq<u8>,
    to: int,
    from: int,
    moved: int,
    kept: int,
)
    requires
        0 <= from < to,
        to + moved <= before.len(),
        0 <= kept <= moved,
        from + kept <= to,
        after == before.subrange(0, to) + before.subrange(from, from + moved) + before.subrange(
            to + moved,
            before.len() as int,
        ),
    ensures
        after.len() == before.len(),
        after.subrange(0, to + kept) == copy_match(
            before.subrange(0, to),
            (to - from) as nat,
            kept as nat,
        ),
{
    let out = before.subrange(0, to);
    lemma_copy_match_disjoint(out, (to - from) as nat, kept as nat);
}

/// Copies `count` bytes of `src`, from `from` on, behind the first `*to` bytes
/// of `buf`, sixteen at a time, and moves `*to` behind them. The last chunk
/// is copied whole, so `count` rounded up to whole chunks must be there to
/// read and to write; nothing behind the last chunk is written.
#[inline(always)]
fn inline_memcpy_16(buf: &mut [u8], to: &mut usize, src: &[u8], from: usize, count: usize)
    requires
        *old(to) + (count + 15) / 16 * 16 <= old(buf).len(),
        from + (count + 15) / 16 * 16 <= src.len(),
    ensures
        final(buf).len() == old(buf).len(),
        *final(to) == *old(to) + count,
        final(buf)@.subrange(0, *final(to) as int) == old(buf)@.subrange(0, *old(to) as int)
            + src@.subrange(from as int, from + count),
        forall|k: int|
            *old(to) + (count + 15) / 16 * 16 <= k < old(buf)@.len() ==> #[trigger] final(buf)@[k]
                == old(buf)@[k],
{
    let mut ptr = *to;
    let end = *to + count;
    let mut at = from;
    *to = end;
    while ptr < end
        invariant
            buf.len() == old(buf).len(),
            *to == end,
            end == *old(to) + count,
            *old(to) + (count + 15) / 16 * 16 <= buf.len(),
            from + (count + 15) / 16 * 16 <= src.len(),
            *old(to) <= ptr <= *old(to) + (count + 15) / 16 * 16,
            (ptr - *old(to)) % 16 == 0,
            ptr - *old(to) == at - from,
            forall|k: int| 0 <= k < *old(to) ==> buf@[k] == old(buf)@[k],
            forall|k: int| *old(to) <= k < ptr ==> buf@[k] == src@[from + k - *old(to)],
            forall|k: int| ptr <= k < buf.len() ==> buf@[k] == old(buf)@[k],
        decreases end + 16 - ptr,
    {
        copy_block(buf, ptr, src, at, 16);
        ptr += 16;
        at += 16;
    }
}

/// Appends a back-reference of `count` bytes that does not overlap its own
/// output (`from + count <= *to`) to the first `*to` bytes of `buf`, sixteen
/// bytes at a time, and moves `*to` behind it. The last chunk is moved
/// whole, so `count` rounded up to whole chunks must be there to write;
/// nothing behind the last chunk is written.
#[inline(always)]
fn inline_memcpy_16_within(buf: &mut [u8], to: &mut usize, from: usize, count: usize)
    requires
        from < *old(to),
        from + count <= *old(to),
        *old(to) + (count + 15) / 16 * 16 <= old(buf).len(),
    ensures
        final(buf).len() == old(buf).len(),
        *final(to) == *old(to) + count,
        final(buf)@.subrange(0, *final(to) as int) == copy_match(
            old(buf)@.subrange(0, *old(to) as int),
            (*old(to) - from) as nat,
            count as nat,
        ),
        forall|k: int|
            *old(to) + (count + 15) / 16 * 16 <= k < old(buf)@.len() ==> #[trigger] final(buf)@[k]
                == old(buf)@[k],
{
    let mut ptr = *to;
    let end = *to + count;
    let mut at = from;
    *to = end;
    while ptr < end
        invariant
            buf.len() == old(buf).len(),
            *to == end,
            end == *old(to) + count,
            *old(to) + (count + 15) / 16 * 16 <= buf.len(),
            from + count <= *old(to),
            from < *old(to),
            *old(to) <= ptr <= *old(to) + (count + 15) / 16 * 16,
            (ptr - *old(to)) % 16 == 0,
            ptr - *old(to) == at - from,
            forall|k: int| 0 <= k < *old(to) ==> buf@[k] == old(buf)@[k],
            forall|k: int|
                *old(to) <= k < ptr && k < end ==> buf@[k] == old(buf)@[from + k - *old(to)],
            forall|k: int| ptr <= k < buf.len() ==> buf@[k] == old(buf)@[k],
        decreases end + 16 - ptr,
    {
        move_block(buf, ptr, at, at + 16);
        ptr += 16;
        at += 16;
    }
    proof {
        let out = old(buf)@.subrange(0, *old(to) as int);
        lemma_copy_match_disjoint(out, (*old(to) - from) as nat, count as nat);
        assert(buf@.subrange(0, end as int) =~= out + out.subrange(from as int, from + count));
    }
}

/// Copies sixteen bytes of `src`, from `from` on, behind the first `*to`
/// bytes of `buf`, and moves `*to` behind the first `count` of them: the
/// rest is room that later writes reuse. Nothing behind the sixteen bytes
/// is written.
#[inline(always)]
fn copy_short_literals(buf: &mut [u8], to: &mut usize, src: &[u8], from: usize, count: usize)
    requires
        count <= 16,
        *old(to) + 16 <= old(buf).len(),
        from + 16 <= src.len(),
    ensures
        final(buf).len() == old(buf).len(),
        *final(to) == *old(to) + count,
        final(buf)@.subrange(0, *final(to) as int) == old(buf)@.subrange(0, *old(to) as int)
            + src@.subrange(from as int, from + count),
        forall|k: int|
            *old(to) + 16 <= k < old(buf)@.len() ==> #[trigger] final(buf)@[k] == old(buf)@[k],
{
    let ghost before = buf@;
    copy_block(buf, *to, src, from, 16);
    proof {
        lemma_block_copied(before, buf@, *to as int, src@, from as int, 16, count as int);
    }
    *to += count;
}

/// Appends a back-reference of `count <= 18` bytes that does not overlap its
/// own output to the first `*to` bytes of `buf`, as one block move of
/// eighteen bytes, and moves `*to` behind the first `count` of them. Nothing
/// behind the eighteen bytes is written.
#[inline(always)]
fn copy_short_match(buf: &mut [u8], to: &mut usize, from: usize, count: usize)
    requires
        count <= 18,
        from < *old(to),
        from + count <= *old(to),
        *old(to) + 18 <= old(buf).len(),
    ensures
        final(buf).len() == old(buf).len(),
        *final(to) == *old(to) + count,
        final(buf)@.subrange(0, *final(to) as int) == copy_match(
            old(buf)@.subrange(0, *old(to) as int),
            (*old(to) - from) as nat,
            count as nat,
        ),
        forall|k: int|
            *old(to) + 18 <= k < old(buf)@.len() ==> #[trigger] final(buf)@[k] == old(buf)@[k],
{
    let ghost before = buf@;
    move_block(buf, *to, from, from + 18);
    proof {
        lemma_block_moved(before, buf@, *to as int, from as int, 18, count as int);
    }
    *to += count;
}

/// Copies `count` bytes of `src`, from `from` on, behind the first `*to` bytes
/// of `buf` and moves `*to` behind them: sixteen at a time where both slices
/// have sixteen bytes to spare, else exactly. Nothing behind `count` rounded
/// up to whole chunks is written.
#[inline(always)]
fn copy_literals(buf: &mut [u8], to: &mut usize, src: &[u8], from: usize, count: usize)
    requires
        *old(to) + count <= old(buf).len(),
        from + count <= src.len(),
    ensures
        final(buf).len() == old(buf).len(),
        *final(to) == *old(to) + count,
        final(buf)@.subrange(0, *final(to) as int) == old(buf)@.subrange(0, *old(to) as int)
            + src@.subrange(from as int, from + count),
        forall|k: int|
            *old(to) + (count + 15) / 16 * 16 <= k < old(buf)@.len() ==> #[trigger] final(buf)@[k]
                == old(buf)@[k],
{
    if src.len() - from - count >= 16 && buf.len() - *to - count >= 16 {
        inline_memcpy_16(buf, to, src, from, count);
    } else {
        let ghost before = buf@;
        copy_block(buf, *to, src, from, count);
        proof {
            lemma_block_copied(
                before,
                buf@,
                *to as int,
                src@,
                from as int,
                count as int,
                count as int,
            );
        }
        *to += count;
    }
}

/// Appends the back-reference of `count` bytes from `from` on to the first
/// `*to` bytes of `buf` and moves `*to` behind it: sixteen bytes at a time
/// where the match does not overlap its own output and sixteen bytes are to
/// spare, else byte by byte. Nothing behind `count` rounded up to whole
/// chunks is written.
#[inline(always)]
fn copy_back_ref(buf: &mut [u8], to: &mut usize, from: usize, count: usize)
    requires
        from < *old(to),
        *old(to) + count <= old(buf).len(),
    ensures
        final(buf).len() == old(buf).len(),
        *final(to) == *old(to) + count,
        final(buf)@.subrange(0, *final(to) as int) == copy_match(
            old(buf)@.subrange(0, *old(to) as int),
            (*old(to) - from) as nat,
            count as nat,
        ),
        forall|k: int|
            *old(to) + (count + 15) / 16 * 16 <= k < old(buf)@.len() ==> #[trigger] final(buf)@[k]
                == old(buf)@[k],
{
    if *to - from < count || buf.len() - *to - count < 16 {
        copy_dup(buf, to, from, count);
    } else {
        inline_memcpy_16_within(buf, to, from, count);
    }
}

/// Decodes the block `input` into the front of `buf` and returns how many
/// bytes it wrote. What `buf` holds behind them, or after a failure, is left
/// open.
#[verifier::rlimit(30)]
fn decompress_raw(input: &[u8], buf: &mut [u8]) -> (r: Result<usize, DecompressError>)
    ensures
        final(buf).len() == old(buf).len(),
        match r {
            Ok(len) => len <= old(buf).len() && decode_block(input@) == Some(
                final(buf)@.subrange(0, len as int),
            ),
            Err(_) => match decode_block(input@) {
                Some(s) => s.len() > old(buf).len(),
                None => true,
            },
        },
{
    let n = input.len();
    let cap = buf.len();
    let mut ip: usize = 0;
    let mut op: usize = 0;
    proof {
        assert(buf@.subrange(0, 0) =~= Seq::<u8>::empty());
    }
    loop
        invariant
            n == input.len(),
            cap == buf.len(),
            cap == old(buf).len(),
            ip <= n,
            op <= cap,
            decode_from(input@, ip as int, buf@.subrange(0, op as int)) == decode_block(input@),
        decreases n - ip,
    {
        let ghost b = input@;
        let ghost start = ip as int;
        let ghost out = buf@.subrange(0, op as int);
        // Get token
        if ip >= n {
            proof {
                lemma_decode_without_token(b, start, out);
            }
            return Err(DecompressError);
        }
        let t = input[ip];
        ip += 1;
        proof {
            lemma_decode_literals(b, start, out);
        }

        // 7:4 = literals length, 3:0 = match length
        let mut lit_len: usize = (t >> 4) as usize;
        let mut match_len: usize = (t & 15) as usize + 4;
        proof {
            assert(t >> 4 == t / 16) by (bit_vector);
            assert(t & 15 == t % 16) by (bit_vector);
        }

        // Special case "short" tokens, which are common
        if lit_len <= 14 && match_len <= 18 && n - ip >= 14 + 2 && cap - op >= 14 + 18 {
            copy_short_literals(buf, &mut op, input, ip, lit_len);
            proof {
                lemma_decode_match(b, start, out, lit_len as nat, ip as int);
            }
            ip += lit_len;

            let offt: usize = input[ip] as usize + 256 * (input[ip + 1] as usize);
            if offt == 0 || op < offt {
                return Err(DecompressError);
            }
            ip += 2;
            let from = op - offt;
            if match_len <= offt {
                copy_short_match(buf, &mut op, from, match_len);
            } else {
                copy_dup(buf, &mut op, from, match_len);
            }
            continue ;
        }
        // Copy literals

        if lit_len == 0 {
            proof {
                lemma_no_literals(out, b, ip as int);
            }
        } else if lit_len < 15 && n - ip >= 16 && cap - op >= 16 {
            copy_short_literals(buf, &mut op, input, ip, lit_len);
        } else {
            if lit_len == 15 {
                let ext = get_long_int(input, &mut ip)?;
                lit_len =
                match lit_len.checked_add(ext) {
                    Some(l) => l,
                    None => {
                        return Err(DecompressError);
                    },
                };
            }
            if n - ip < lit_len || cap - op < lit_len {
                return Err(DecompressError);
            }
            copy_literals(buf, &mut op, input, ip, lit_len);
        }
        ip += lit_len;

        // Stop if the block ended.
        if ip >= n {
            return Ok(op);
        }
        // Copy match

        if n - ip < 2 {
            return Err(DecompressError);
        }
        proof {
            lemma_decode_match(b, start, out, lit_len as nat, ip - lit_len);
        }
        let offt: usize = input[ip] as usize + 256 * (input[ip + 1] as usize);
        ip += 2;
        if match_len == 19 {
            let ext = get_long_int(input, &mut ip)?;
            match_len =
            match match_len.checked_add(ext) {
                Some(l) => l,
                None => {
                    return Err(DecompressError);
                },
            };
        }
        if offt == 0 || op < offt || cap - op < match_len {
            return Err(DecompressError);
        }
        let from = op - offt;

        copy_back_ref(buf, &mut op, from, match_len);
    }
}

/// Decodes the block `input` into `buf` and returns the part of `buf` that
/// now holds the decoded bytes. The rest of `buf` stays behind it.
fn decompress_into_uninit<'a>(input: &[u8], buf: &'a mut [u8]) -> (r: Result<
    &'a mut [u8],
    DecompressError,
>)
    ensures
        match r {
            Ok(written) => {
                &&& decode_block(input@) == Some(written@)
                &&& written@.len() <= old(buf).len()
                &&& final(buf)@.len() == final(written)@.len() + old(buf).len() - written@.len()
                &&& final(buf)@.subrange(0, final(written)@.len() as int) == final(written)@
            },
            Err(_) => match decode_block(input@) {
                Some(s) => s.len() > old(buf).len(),
                None => true,
            },
        },
{
    let l = decompress_raw(input, buf)?;
    let (written, _) = buf.split_at_mut(l);
    Ok(written)
}

/// Decodes the block `input`.
///
/// Succeeds exactly where `input` is a valid block and what it decodes to
/// is at most `max_size` bytes long, and then returns the decoded bytes.
pub fn decompress(input: &[u8], max_size: usize) -> (r: Result<Vec<u8>, DecompressError>)
    ensures
        match r {
            Ok(v) => decode_block(input@) == Some(v@) && v@.len() <= max_size,
            Err(_) => match decode_block(input@) {
                Some(s) => s.len() > max_size,
                None => true,
            },
        },
{
    let mut v = vec![0u8; max_size];
    let l = decompress_into_uninit(input, v.as_mut_slice())?.len();
    v.truncate(l);
    Ok(v)
}

} // verus!
