//! Character boundaries in UTF-8 text: counting characters by their first
//! bytes, and the forward scan that both text windowers share.

use vstd::prelude::*;
use vstd::string::*;
use vstd::utf8::*;
use crate::shingles::min;

verus! {

/// A byte that begins a character: an ASCII byte or a UTF-8 leading byte,
/// never a continuation byte (128 to 191).
pub open spec fn is_start_byte(b: u8) -> bool {
    b < 128 || b >= 192
}

/// How many characters begin in `bytes`.
pub open spec fn count_starts(bytes: Seq<u8>) -> nat
    decreases bytes.len(),
{
    if bytes.len() == 0 {
        0
    } else {
        count_starts(bytes.drop_last()) + if is_start_byte(bytes.last()) {
            1nat
        } else {
            0nat
        }
    }
}

/// Counting character starts distributes over concatenation.
pub proof fn lemma_count_starts_concat(a: Seq<u8>, b: Seq<u8>)
    ensures
        count_starts(a + b) == count_starts(a) + count_starts(b),
    decreases b.len(),
{
    if b.len() == 0 {
        assert(a + b =~= a);
    } else {
        assert((a + b).drop_last() =~= a + b.drop_last());
        assert((a + b).last() == b.last());
        lemma_count_starts_concat(a, b.drop_last());
    }
}

/// A longer prefix holds at least as many character starts.
pub proof fn lemma_count_starts_prefix(bytes: Seq<u8>, i: int, j: int)
    requires
        0 <= i <= j <= bytes.len(),
    ensures
        count_starts(bytes.subrange(0, i)) <= count_starts(bytes.subrange(0, j)),
{
    assert(bytes.subrange(0, j) =~= bytes.subrange(0, i) + bytes.subrange(i, j));
    lemma_count_starts_concat(bytes.subrange(0, i), bytes.subrange(i, j));
}

/// Taking one more byte into a prefix adds one exactly when that byte starts a character.
pub proof fn lemma_count_starts_push(bytes: Seq<u8>, i: int)
    requires
        0 <= i < bytes.len(),
    ensures
        count_starts(bytes.subrange(0, i + 1)) == count_starts(bytes.subrange(0, i)) + if is_start_byte(
            bytes[i],
        ) {
            1nat
        } else {
            0nat
        },
{
    assert(bytes.subrange(0, i + 1).drop_last() =~= bytes.subrange(0, i));
}

/// The first character of valid UTF-8 has one start byte.
proof fn lemma_count_starts_first_scalar(bytes: Seq<u8>)
    requires
        valid_utf8(bytes),
        bytes.len() > 0,
    ensures
        count_starts(take_first_scalar(bytes)) == 1,
{
    let t = take_first_scalar(bytes);
    let n = length_of_first_scalar(bytes);
    assert(t.len() == n);
    assert(forall|i: int| 0 <= i < n ==> t[i] == bytes[i]);
    reveal_with_fuel(count_starts, 5);
    if n == 1 {
        assert(t.drop_last().len() == 0);
    } else if n == 2 {
        assert(t.drop_last().drop_last().len() == 0);
    } else if n == 3 {
        assert(t.drop_last().drop_last().drop_last().len() == 0);
    } else {
        assert(t.drop_last().drop_last().drop_last().drop_last().len() == 0);
    }
}

/// In valid UTF-8 the characters are as many as the start bytes.
pub proof fn lemma_decode_len_is_count_starts(bytes: Seq<u8>)
    requires
        valid_utf8(bytes),
    ensures
        decode_utf8(bytes).len() == count_starts(bytes),
    decreases bytes.len(),
{
    if bytes.len() > 0 {
        let head = take_first_scalar(bytes);
        let tail = pop_first_scalar(bytes);
        lemma_count_starts_first_scalar(bytes);
        lemma_decode_len_is_count_starts(tail);
        assert(bytes =~= head + tail);
        lemma_count_starts_concat(head, tail);
    }
}

/// What one forward scan over a text finds: where the window ends, where the
/// next window begins, and whether the text held a whole window.
pub struct Scan {
    /// Byte offset just behind the window: where the character at position
    /// `size` begins, or the end of the text if it has no such character.
    pub end: usize,
    /// Byte offset of the character at position `step`, or the end of the
    /// text if it has no such character.
    pub next: usize,
    /// Whether the text holds at least `size` characters.
    pub full: bool,
}

/// `off` is the byte offset in `bytes` at which the character at position `k`
/// begins, or the end of `bytes` if it holds at most `k` characters: a
/// character boundary with the first `k` characters before it and the others
/// behind it.
pub open spec fn splits_at(bytes: Seq<u8>, off: int, k: int) -> bool {
    let chars = decode_utf8(bytes);
    let k = min(k, chars.len() as int);
    &&& 0 <= off <= bytes.len()
    &&& is_char_boundary(bytes, off)
    &&& decode_utf8(bytes.subrange(0, off)) == chars.take(k)
    &&& decode_utf8(bytes.subrange(off, bytes.len() as int)) == chars.skip(k)
}

/// A prefix of valid UTF-8 that ends on a character boundary is the encoding
/// of the characters it holds, and they are the first characters of the text.
pub proof fn lemma_boundary_prefix(bytes: Seq<u8>, off: int)
    requires
        valid_utf8(bytes),
        is_char_boundary(bytes, off),
    ensures
        0 <= off <= bytes.len(),
        valid_utf8(bytes.subrange(0, off)),
        valid_utf8(bytes.subrange(off, bytes.len() as int)),
        decode_utf8(bytes) =~= decode_utf8(bytes.subrange(0, off)) + decode_utf8(
            bytes.subrange(off, bytes.len() as int),
        ),
        decode_utf8(bytes.subrange(0, off)).len() == count_starts(bytes.subrange(0, off)),
        decode_utf8(bytes.subrange(0, off)).len() <= decode_utf8(bytes).len(),
        decode_utf8(bytes.subrange(0, off)) =~= decode_utf8(bytes).take(
            count_starts(bytes.subrange(0, off)) as int,
        ),
        decode_utf8(bytes.subrange(off, bytes.len() as int)) =~= decode_utf8(bytes).skip(
            count_starts(bytes.subrange(0, off)) as int,
        ),
{
    lemma_boundary_in_range(bytes, off);
    valid_utf8_split(bytes, off);
    decode_utf8_split(bytes, off);
    lemma_decode_len_is_count_starts(bytes.subrange(0, off));
}

/// A character boundary lies within the text.
pub proof fn lemma_boundary_in_range(bytes: Seq<u8>, off: int)
    requires
        valid_utf8(bytes),
        is_char_boundary(bytes, off),
    ensures
        0 <= off <= bytes.len(),
{
    reveal_with_fuel(is_char_boundary, 1);
}

/// How many characters of `bytes` lie before the byte offset `off`.
pub open spec fn chars_before(bytes: Seq<u8>, off: int) -> nat {
    decode_utf8(bytes.subrange(0, off)).len()
}

/// A character boundary of what follows a character boundary is a character
/// boundary of the whole text, and the characters before it add up.
pub proof fn lemma_boundary_shift(bytes: Seq<u8>, off: int, more: int)
    requires
        valid_utf8(bytes),
        is_char_boundary(bytes, off),
        is_char_boundary(bytes.subrange(off, bytes.len() as int), more),
    ensures
        is_char_boundary(bytes, off + more),
        chars_before(bytes, off + more) == chars_before(bytes, off) + chars_before(
            bytes.subrange(off, bytes.len() as int),
            more,
        ),
{
    let rest = bytes.subrange(off, bytes.len() as int);
    lemma_boundary_prefix(bytes, off);
    lemma_boundary_prefix(rest, more);
    if off + more < bytes.len() {
        assert(rest[more] == bytes[off + more]);
        is_char_boundary_iff_not_is_continuation_byte(rest, more);
        is_char_boundary_iff_not_is_continuation_byte(bytes, off + more);
    } else {
        is_char_boundary_start_end_of_seq(bytes);
    }
    lemma_boundary_prefix(bytes, off + more);
    assert(bytes.subrange(0, off + more) =~= bytes.subrange(0, off) + rest.subrange(0, more));
    lemma_count_starts_concat(bytes.subrange(0, off), rest.subrange(0, more));
}

/// The encoding of two texts in a row is the encoding of the first followed
/// by that of the second.
pub proof fn lemma_encode_concat(a: Seq<char>, b: Seq<char>)
    ensures
        encode_utf8(a + b) =~= encode_utf8(a) + encode_utf8(b),
    decreases a.len(),
{
    if a.len() == 0 {
        assert(a + b =~= b);
    } else {
        assert((a + b).drop_first() =~= a.drop_first() + b);
        lemma_encode_concat(a.drop_first(), b);
    }
}

/// Where the encoding of one text ends and that of the next begins is a
/// character boundary.
pub proof fn lemma_encode_concat_boundary(a: Seq<char>, b: Seq<char>)
    ensures
        is_char_boundary(encode_utf8(a + b), encode_utf8(a).len() as int),
    decreases a.len(),
{
    encode_utf8_valid_utf8(a + b);
    if a.len() > 0 {
        let bytes = encode_utf8(a + b);
        encode_utf8_first_scalar(a + b);
        assert((a + b).drop_first() =~= a.drop_first() + b);
        assert(pop_first_scalar(bytes) =~= encode_utf8(a.drop_first() + b));
        lemma_encode_concat_boundary(a.drop_first(), b);
        lemma_encode_concat(a, b);
    }
}

/// A run of characters of a text occupies a byte range of the text's
/// encoding that begins and ends on a character boundary: the range from the
/// end of the encoding of the characters before the run to the end of the
/// encoding of the characters up to its end. No character is split.
pub proof fn lemma_chars_on_boundaries(text: Seq<char>, from: int, to: int)
    requires
        0 <= from <= to <= text.len(),
    ensures
        ({
            let bytes = encode_utf8(text);
            let start = encode_utf8(text.take(from)).len() as int;
            let end = encode_utf8(text.take(to)).len() as int;
            &&& 0 <= start <= end <= bytes.len()
            &&& is_char_boundary(bytes, start)
            &&& is_char_boundary(bytes, end)
            &&& bytes.subrange(start, end) == encode_utf8(text.subrange(from, to))
        }),
{
    let head = text.take(from);
    let run = text.subrange(from, to);
    let tail = text.skip(to);
    assert(text.take(to) =~= head + run);
    assert(text =~= head + (run + tail));
    assert(text =~= text.take(to) + tail);
    lemma_encode_concat(head, run);
    lemma_encode_concat(head, run + tail);
    lemma_encode_concat(run, tail);
    lemma_encode_concat(text.take(to), tail);
    lemma_encode_concat_boundary(head, run + tail);
    lemma_encode_concat_boundary(text.take(to), tail);
    assert(encode_utf8(text).subrange(
        encode_utf8(head).len() as int,
        encode_utf8(text.take(to)).len() as int,
    ) =~= encode_utf8(run));
}

/// What the scan knows of the character at position `k` once it has ended:
/// either it found the byte `at` where that character begins, or the text has
/// at most `k` characters.
proof fn lemma_scan_found(bytes: Seq<u8>, at: Option<usize>, k: usize, off: int)
    requires
        valid_utf8(bytes),
        at matches Some(e) ==> e < bytes.len() && is_start_byte(bytes[e as int]) && count_starts(
            bytes.subrange(0, e as int),
        ) == k && off == e,
        at.is_none() ==> count_starts(bytes) <= k && off == bytes.len(),
    ensures
        at.is_some() <==> decode_utf8(bytes).len() > k,
        splits_at(bytes, off, k as int),
{
    lemma_decode_len_is_count_starts(bytes);
    assert(bytes.subrange(0, bytes.len() as int) =~= bytes);
    if at.is_some() {
        is_char_boundary_iff_not_is_continuation_byte(bytes, off);
        lemma_count_starts_push(bytes, off);
        lemma_count_starts_prefix(bytes, off + 1, bytes.len() as int);
    } else {
        is_char_boundary_start_end_of_seq(bytes);
    }
    lemma_boundary_prefix(bytes, off);
}

/// One forward scan over the bytes of a text, counting characters by their
/// first bytes: finds the end of a window of `size` characters and the start
/// of the window `step` characters on.
pub fn scan(text: &str, size: usize, step: usize) -> (r: Scan)
    ensures
        splits_at(text.spec_bytes(), r.end as int, size as int),
        splits_at(text.spec_bytes(), r.next as int, step as int),
        r.full == (text@.len() >= size),
{
    let bytes = text.as_bytes();
    let len = bytes.len();
    let mut end: Option<usize> = None;
    let mut next: Option<usize> = None;
    let mut chars: usize = 0;
    let mut i: usize = 0;
    proof {
        encode_utf8_valid_utf8(text@);
        encode_utf8_decode_utf8(text@);
        lemma_decode_len_is_count_starts(bytes@);
        assert(bytes@.subrange(0, 0) =~= Seq::<u8>::empty());
        assert(bytes@.subrange(0, len as int) =~= bytes@);
    }
    while i < len
        invariant_except_break
            chars == count_starts(bytes@.subrange(0, i as int)),
            end.is_none() ==> chars <= size,
            next.is_none() ==> chars <= step,
        invariant
            len == bytes@.len(),
            bytes@.subrange(0, len as int) == bytes@,
            valid_utf8(bytes@),
            i <= len,
            chars <= i,
            decode_utf8(bytes@).len() == count_starts(bytes@),
            end matches Some(e) ==> e < len && is_start_byte(bytes@[e as int]) && count_starts(
                bytes@.subrange(0, e as int),
            ) == size,
            next matches Some(x) ==> x < len && is_start_byte(bytes@[x as int]) && count_starts(
                bytes@.subrange(0, x as int),
            ) == step,
        ensures
            end.is_none() ==> chars == count_starts(bytes@) && chars <= size,
            next.is_none() ==> chars == count_starts(bytes@) && chars <= step,
        decreases len - i,
    {
        let b = bytes[i];
        proof {
            lemma_count_starts_push(bytes@, i as int);
        }
        if b < 128 || b >= 192 {
            if chars == step {
                next = Some(i);
            }
            if chars == size {
                end = Some(i);
            }
            if next.is_some() && end.is_some() {
                break;
            }
            chars = chars + 1;
        }
        i = i + 1;
    }
    let full = end.is_some() || chars == size;
    let end_off = match end {
        Some(e) => e,
        None => len,
    };
    let next_off = match next {
        Some(x) => x,
        None => len,
    };
    proof {
        lemma_scan_found(bytes@, end, size, end_off as int);
        lemma_scan_found(bytes@, next, step, next_off as int);
    }
    Scan { end: end_off, next: next_off, full: full }
}

} // verus!
