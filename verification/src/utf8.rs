//! Validation of UTF-8 text that arrives in chunks.
//!
//! A chunk can end in the middle of a character. [`validate_utf8_clipped`]
//! accepts such a chunk and says where the unfinished character begins, so that
//! its bytes can be put in front of the next chunk.

use vstd::prelude::*;
use vstd::utf8::{
    is_continuation_byte, is_leading_byte_width_1, is_leading_byte_width_2,
    is_leading_byte_width_3, is_leading_byte_width_4, length_of_first_scalar, pop_first_scalar,
    valid_first_scalar, valid_utf8,
};

verus! {

/// `tail` is the start of a character of which at least one byte is missing.
pub open spec fn clipped_char(tail: Seq<u8>) -> bool {
    &&& tail.len() > 0
    &&& !valid_first_scalar(tail)
    &&& exists|more: Seq<u8>| valid_first_scalar(#[trigger] (tail + more))
}

/// The number of leading bytes that are whole, valid characters.
pub open spec fn valid_up_to(bytes: Seq<u8>) -> nat
    decreases bytes.len(),
{
    if bytes.len() > 0 && valid_first_scalar(bytes) {
        (length_of_first_scalar(bytes) + valid_up_to(pop_first_scalar(bytes))) as nat
    } else {
        0
    }
}

/// Where a chunk that may end inside a character is to be cut, or `None` if it
/// holds something that is not UTF-8.
pub open spec fn clip_point(bytes: Seq<u8>) -> Option<nat> {
    let n = valid_up_to(bytes);
    if n == bytes.len() || clipped_char(bytes.skip(n as int)) {
        Some(n)
    } else {
        None
    }
}

/// The length of the invalid sequence that starts `tail`: the bytes that a
/// character could have started with, and at least one. `None` if the only fault
/// is that the bytes end too early.
pub open spec fn fault_len(tail: Seq<u8>) -> Option<u8> {
    if clipped_char(tail) {
        None
    } else if !clipped_char(tail.take(1)) || !clipped_char(tail.take(2)) {
        Some(1)
    } else if !clipped_char(tail.take(3)) {
        Some(2)
    } else {
        Some(3)
    }
}

/// What the bytes at some position begin with.
pub enum Head {
    /// A whole character of this many bytes.
    Char(usize),
    /// The start of a character, cut off by the end of the bytes.
    Clipped,
    /// An invalid sequence of this many bytes.
    Bad(u8),
}

/// The second bytes that may follow the leading byte `lead` of a character of
/// three or four bytes, besides being continuation bytes.
pub open spec fn second_allowed(lead: u8, second: u8) -> bool {
    &&& lead == 0xe0 ==> second >= 0xa0
    &&& lead == 0xed ==> second < 0xa0
    &&& lead == 0xf0 ==> second >= 0x90
    &&& lead == 0xf4 ==> second < 0x90
}

/// Which code points of two bytes are overlong.
proof fn lemma_width_2(b1: u8, b2: u8)
    by (bit_vector)
    requires
        0xc0 <= b1 <= 0xdf,
        0x80 <= b2 <= 0xbf,
    ensures
        ({
            let cp = (((b1 & 0x1F) as u32) << 6) | ((b2 & 0x3f) as u32);
            &&& 0x80 <= cp <==> b1 >= 0xc2
            &&& !(0xD800 <= cp <= 0xDFFF)
        }),
{
}

/// Which code points of three bytes are overlong, or surrogates.
proof fn lemma_width_3(b1: u8, b2: u8, b3: u8)
    by (bit_vector)
    requires
        0xe0 <= b1 <= 0xef,
        0x80 <= b2 <= 0xbf,
        0x80 <= b3 <= 0xbf,
    ensures
        ({
            let cp = (((b1 & 0x0F) as u32) << 12) | (((b2 & 0x3f) as u32) << 6) | ((b3
                & 0x3f) as u32);
            &&& 0x800 <= cp <==> !(b1 == 0xe0 && b2 < 0xa0)
            &&& 0xD800 <= cp <= 0xDFFF <==> b1 == 0xed && b2 >= 0xa0
        }),
{
}

/// Which code points of four bytes are overlong, or too large.
proof fn lemma_width_4(b1: u8, b2: u8, b3: u8, b4: u8)
    by (bit_vector)
    requires
        0xf0 <= b1 <= 0xf7,
        0x80 <= b2 <= 0xbf,
        0x80 <= b3 <= 0xbf,
        0x80 <= b4 <= 0xbf,
    ensures
        ({
            let cp = (((b1 & 0x07) as u32) << 18) | (((b2 & 0x3f) as u32) << 12) | (((b3
                & 0x3f) as u32) << 6) | ((b4 & 0x3f) as u32);
            &&& 0x10000 <= cp <= 0x10ffff <==> b1 <= 0xf4 && !(b1 == 0xf0 && b2 < 0x90) && !(b1
                == 0xf4 && b2 >= 0x90)
            &&& 0x10000 <= cp ==> !(0xD800 <= cp <= 0xDFFF)
        }),
{
}

/// `bytes` begins with a valid character, told from the ranges of its bytes.
pub open spec fn whole_char(bytes: Seq<u8>) -> bool {
    ||| bytes.len() >= 1 && bytes[0] <= 0x7f
    ||| bytes.len() >= 2 && 0xc2 <= bytes[0] <= 0xdf && is_continuation_byte(bytes[1])
    ||| bytes.len() >= 3 && 0xe0 <= bytes[0] <= 0xef && is_continuation_byte(bytes[1])
        && second_allowed(bytes[0], bytes[1]) && is_continuation_byte(bytes[2])
    ||| bytes.len() >= 4 && 0xf0 <= bytes[0] <= 0xf4 && is_continuation_byte(bytes[1])
        && second_allowed(bytes[0], bytes[1]) && is_continuation_byte(bytes[2])
        && is_continuation_byte(bytes[3])
}

/// Characters can be told from the ranges of their bytes.
proof fn lemma_whole_char(bytes: Seq<u8>)
    ensures
        valid_first_scalar(bytes) <==> whole_char(bytes),
{
    if bytes.len() >= 1 && is_leading_byte_width_1(bytes[0]) {
        let b = bytes[0];
        assert(!(0xD800 <= (b & 0x7F) as u32 <= 0xDFFF)) by (bit_vector);
    } else if bytes.len() >= 2 && is_leading_byte_width_2(bytes[0]) && is_continuation_byte(
        bytes[1],
    ) {
        lemma_width_2(bytes[0], bytes[1]);
    } else if bytes.len() >= 3 && is_leading_byte_width_3(bytes[0]) && is_continuation_byte(
        bytes[1],
    ) && is_continuation_byte(bytes[2]) {
        lemma_width_3(bytes[0], bytes[1], bytes[2]);
    } else if bytes.len() >= 4 && is_leading_byte_width_4(bytes[0]) && is_continuation_byte(
        bytes[1],
    ) && is_continuation_byte(bytes[2]) && is_continuation_byte(bytes[3]) {
        lemma_width_4(bytes[0], bytes[1], bytes[2], bytes[3]);
    }
}

/// `tail` is an unfinished character, told from the ranges of its bytes.
pub open spec fn clipped_ranges(tail: Seq<u8>) -> bool {
    ||| tail.len() == 1 && 0xc2 <= tail[0] <= 0xf4
    ||| tail.len() == 2 && 0xe0 <= tail[0] <= 0xf4 && is_continuation_byte(tail[1])
        && second_allowed(tail[0], tail[1])
    ||| tail.len() == 3 && 0xf0 <= tail[0] <= 0xf4 && is_continuation_byte(tail[1])
        && second_allowed(tail[0], tail[1]) && is_continuation_byte(tail[2])
}

/// Unfinished characters can be told from the ranges of their bytes.
proof fn lemma_clipped_ranges(tail: Seq<u8>)
    ensures
        clipped_char(tail) <==> clipped_ranges(tail),
{
    lemma_whole_char(tail);
    if clipped_char(tail) {
        let more = choose|more: Seq<u8>| valid_first_scalar(#[trigger] (tail + more));
        let all = tail + more;
        lemma_whole_char(all);
        assert(forall|i: int| 0 <= i < tail.len() ==> all[i] == tail[i]);
        assert(clipped_ranges(tail));
    }
    if clipped_ranges(tail) {
        // The middle of the continuation range is allowed after most leading bytes.
        let second: u8 = if tail[0] == 0xe0 { 0xa0 } else if tail[0] == 0xf0 { 0x90 } else { 0x80 };
        let more = if tail.len() == 1 {
            seq![second, 0x80u8, 0x80u8]
        } else {
            seq![0x80u8, 0x80u8, 0x80u8]
        };
        let all = tail + more;
        assert(forall|i: int| 0 <= i < tail.len() ==> all[i] == tail[i]);
        assert(forall|i: int| 0 <= i < 3 ==> all[tail.len() + i] == more[i]);
        lemma_whole_char(all);
        assert(valid_first_scalar(tail + more));
    }
}

/// Looks at the bytes from `i` on.
fn head_at(bytes: &[u8], i: usize) -> (r: Head)
    requires
        i < bytes@.len(),
    ensures
        match r {
            Head::Char(n) => {
                &&& valid_first_scalar(bytes@.skip(i as int))
                &&& n == length_of_first_scalar(bytes@.skip(i as int))
                &&& 1 <= n <= bytes@.len() - i
            },
            Head::Clipped => clipped_char(bytes@.skip(i as int)),
            Head::Bad(k) => {
                &&& !valid_first_scalar(bytes@.skip(i as int))
                &&& fault_len(bytes@.skip(i as int)) == Some(k)
            },
        },
{
    let ghost tail = bytes@.skip(i as int);
    proof {
        lemma_whole_char(tail);
        lemma_clipped_ranges(tail);
        lemma_clipped_ranges(tail.take(1));
        if tail.len() >= 2 {
            lemma_clipped_ranges(tail.take(2));
        }
        if tail.len() >= 3 {
            lemma_clipped_ranges(tail.take(3));
        }
    }
    let left: usize = bytes.len() - i;
    let lead: u8 = bytes[i];
    if lead <= 0x7f {
        return Head::Char(1);
    }
    if lead < 0xc2 || lead > 0xf4 {
        return Head::Bad(1);
    }
    if left == 1 {
        return Head::Clipped;
    }
    let second: u8 = bytes[i + 1];
    if second < 0x80 || second > 0xbf {
        return Head::Bad(1);
    }
    if lead <= 0xdf {
        return Head::Char(2);
    }
    if (lead == 0xe0 && second < 0xa0) || (lead == 0xed && second >= 0xa0) || (lead == 0xf0
        && second < 0x90) || (lead == 0xf4 && second >= 0x90) {
        return Head::Bad(1);
    }
    if left == 2 {
        return Head::Clipped;
    }
    let third: u8 = bytes[i + 2];
    if third < 0x80 || third > 0xbf {
        return Head::Bad(2);
    }
    if lead <= 0xef {
        return Head::Char(3);
    }
    if left == 3 {
        return Head::Clipped;
    }
    let fourth: u8 = bytes[i + 3];
    if fourth < 0x80 || fourth > 0xbf {
        return Head::Bad(3);
    }
    Head::Char(4)
}

/// The whole of `bytes` counts as valid exactly if it is UTF-8.
proof fn lemma_valid_up_to(bytes: Seq<u8>)
    ensures
        valid_up_to(bytes) <= bytes.len(),
        valid_up_to(bytes) == bytes.len() <==> valid_utf8(bytes),
        valid_up_to(bytes) < bytes.len() ==> !valid_first_scalar(
            bytes.skip(valid_up_to(bytes) as int),
        ),
    decreases bytes.len(),
{
    if bytes.len() > 0 && valid_first_scalar(bytes) {
        let rest = pop_first_scalar(bytes);
        lemma_valid_up_to(rest);
        assert(bytes.skip(valid_up_to(bytes) as int) =~= rest.skip(valid_up_to(rest) as int));
    } else {
        assert(bytes.skip(0) =~= bytes);
    }
}

/// Counts the leading bytes that are whole, valid characters.
fn count_valid(bytes: &[u8]) -> (r: usize)
    ensures
        r == valid_up_to(bytes@),
        r <= bytes@.len(),
{
    let mut i: usize = 0;
    assert(bytes@.skip(0) =~= bytes@);
    while i < bytes.len()
        invariant
            i <= bytes@.len(),
            valid_up_to(bytes@) == i + valid_up_to(bytes@.skip(i as int)),
        decreases bytes@.len() - i,
    {
        match head_at(bytes, i) {
            Head::Char(n) => {
                assert(pop_first_scalar(bytes@.skip(i as int)) =~= bytes@.skip(i + n));
                i = i + n;
            },
            _ => {
                return i;
            },
        }
    }
    i
}

/// Says whether `bytes` is UTF-8.
pub fn is_utf8(bytes: &[u8]) -> (r: bool)
    ensures
        r == valid_utf8(bytes@),
{
    proof {
        lemma_valid_up_to(bytes@);
    }
    count_valid(bytes) == bytes.len()
}

/// Validates a chunk that may end inside a character: `Some(n)` if the first `n`
/// bytes are UTF-8 and the others, if there are any, are the start of a character;
/// `None` for any other chunk.
pub fn validate_utf8_clipped(bytes: &[u8]) -> (r: Option<usize>)
    ensures
        match r {
            Some(n) => clip_point(bytes@) == Some(n as nat) && n <= bytes@.len(),
            None => clip_point(bytes@) is None,
        },
{
    proof {
        lemma_valid_up_to(bytes@);
    }
    let n: usize = count_valid(bytes);
    if n == bytes.len() {
        return Some(n);
    }
    match head_at(bytes, n) {
        Head::Clipped => Some(n),
        _ => None,
    }
}

/// Says where text that is not UTF-8 first goes wrong: the number of valid bytes
/// before the fault, and the length of the invalid sequence there (`None` if the
/// bytes end inside a character).
pub fn utf8_fault(bytes: &[u8]) -> (r: (usize, Option<u8>))
    requires
        !valid_utf8(bytes@),
    ensures
        r.0 == valid_up_to(bytes@),
        r.0 < bytes@.len(),
        r.1 == fault_len(bytes@.skip(r.0 as int)),
{
    proof {
        lemma_valid_up_to(bytes@);
    }
    let n: usize = count_valid(bytes);
    match head_at(bytes, n) {
        Head::Bad(k) => (n, Some(k)),
        _ => (n, None),
    }
}

/// What stands in front of the clip point is UTF-8, and what stands behind it is
/// nothing, or the start of a character.
pub proof fn lemma_clip_point(bytes: Seq<u8>)
    ensures
        valid_up_to(bytes) <= bytes.len(),
        valid_utf8(bytes.take(valid_up_to(bytes) as int)),
        valid_utf8(bytes) <==> valid_up_to(bytes) == bytes.len(),
        clip_point(bytes) matches Some(n) ==> n == valid_up_to(bytes) && (n == bytes.len()
            || clipped_char(bytes.skip(n as int))),
    decreases bytes.len(),
{
    lemma_valid_up_to(bytes);
    if bytes.len() > 0 && valid_first_scalar(bytes) {
        let k = length_of_first_scalar(bytes);
        let rest = pop_first_scalar(bytes);
        lemma_clip_point(rest);
        lemma_valid_up_to(rest);
        let front = bytes.take(valid_up_to(bytes) as int);
        assert(pop_first_scalar(front) =~= rest.take(valid_up_to(rest) as int));
        lemma_whole_char(bytes);
        lemma_whole_char(front);
    }
}

/// If a front of `bytes` is UTF-8 and an unfinished character follows it, it is all that is
/// valid.
pub proof fn lemma_valid_front(bytes: Seq<u8>, n: int)
    requires
        0 <= n <= bytes.len(),
        valid_utf8(bytes.take(n)),
        clipped_char(bytes.skip(n)),
    ensures
        valid_up_to(bytes) == n,
        clip_point(bytes) == Some(n as nat),
    decreases bytes.len(),
{
    let front = bytes.take(n);
    if n == 0 {
        assert(bytes.skip(0) =~= bytes);
    } else {
        lemma_whole_char(front);
        lemma_whole_char(bytes);
        let k = length_of_first_scalar(bytes);
        let rest = pop_first_scalar(bytes);
        assert(pop_first_scalar(front) =~= rest.take(n - k));
        assert(rest.skip(n - k) =~= bytes.skip(n));
        lemma_valid_front(rest, n - k);
    }
}

/// No front of `bytes` that is UTF-8 is longer than what is valid of `bytes`.
pub proof fn lemma_longest_valid(bytes: Seq<u8>, n: int)
    requires
        0 <= n <= bytes.len(),
        valid_utf8(bytes.take(n)),
    ensures
        n <= valid_up_to(bytes),
    decreases bytes.len(),
{
    let front = bytes.take(n);
    if n > 0 {
        lemma_whole_char(front);
        lemma_whole_char(bytes);
        let k = length_of_first_scalar(bytes);
        let rest = pop_first_scalar(bytes);
        assert(pop_first_scalar(front) =~= rest.take(n - k));
        lemma_longest_valid(rest, n - k);
    }
}

/// An unfinished character has at most three bytes, and is not UTF-8.
pub proof fn lemma_clipped_len(tail: Seq<u8>)
    requires
        clipped_char(tail),
    ensures
        1 <= tail.len() <= 3,
        !valid_utf8(tail),
{
    lemma_clipped_ranges(tail);
}

/// The first `m` bytes of UTF-8 text can be clipped, and what follows the clip point
/// is UTF-8 again.
pub proof fn lemma_clip_valid(bytes: Seq<u8>, m: int)
    requires
        valid_utf8(bytes),
        0 <= m <= bytes.len(),
    ensures
        clip_point(bytes.take(m)) is Some,
        valid_utf8(bytes.skip(valid_up_to(bytes.take(m)) as int)),
    decreases bytes.len(),
{
    let front = bytes.take(m);
    lemma_whole_char(bytes);
    lemma_whole_char(front);
    if m == 0 {
        assert(bytes.skip(0) =~= bytes);
    } else {
        let k = length_of_first_scalar(bytes);
        let rest = pop_first_scalar(bytes);
        if k <= m {
            lemma_clip_valid(rest, m - k);
            assert(pop_first_scalar(front) =~= rest.take(m - k));
            lemma_valid_up_to(rest.take(m - k));
            let n = valid_up_to(rest.take(m - k)) as int;
            assert(rest.take(m - k).skip(n) =~= front.skip(k + n));
            assert(rest.skip(n) =~= bytes.skip(k + n));
        } else {
            assert(front + bytes.skip(m) =~= bytes);
            assert(valid_first_scalar(front + bytes.skip(m)));
            assert(front.skip(0) =~= front);
            assert(bytes.skip(0) =~= bytes);
        }
    }
}

} // verus!
