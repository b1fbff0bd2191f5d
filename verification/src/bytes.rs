//! Text and the bytes of its UTF-8 encoding.
use vstd::prelude::*;
use vstd::utf8::*;
use crate::text::{sub_chars, to_chars, to_text};

verus! {

/// The bytes of a text with one more character are those of the text and
/// those of the character.
pub proof fn lemma_encode_push(s: Seq<char>, c: char)
    ensures
        encode_utf8(s.push(c)) == encode_utf8(s) + encode_scalar(c as u32),
    decreases s.len(),
{
    if s.len() == 0 {
        assert(s.push(c).drop_first() =~= Seq::<char>::empty());
        assert(encode_utf8(s.push(c).drop_first()) =~= Seq::<u8>::empty());
        assert(encode_utf8(s.push(c)) =~= encode_utf8(s) + encode_scalar(c as u32));
    } else {
        lemma_encode_push(s.drop_first(), c);
        assert(s.push(c).drop_first() =~= s.drop_first().push(c));
        assert(encode_utf8(s.push(c)) =~= encode_utf8(s) + encode_scalar(c as u32));
    }
}

/// A character takes at most four bytes.
pub proof fn lemma_four_bytes_at_most(s: Seq<char>)
    ensures
        encode_utf8(s).len() <= 4 * s.len(),
    decreases s.len(),
{
    if s.len() > 0 {
        lemma_four_bytes_at_most(s.drop_first());
    }
}

/// The byte of a line feed stands for a line feed only: no other character
/// has it among its bytes.
pub proof fn lemma_line_feed_byte(c: char)
    ensures
        c == '\n' ==> encode_scalar(c as u32) == seq![10u8],
        c != '\n' ==> !encode_scalar(c as u32).contains(10u8),
{
    let u = c as u32;
    if u <= 0x7f {
        assert((u & 0x7f) as u8 == u) by (bit_vector)
            requires
                u <= 0x7f,
        ;
        assert(encode_scalar(u) =~= seq![leading_byte_width_1(u)]);
    } else {
        assert(0xC0u8 | ((u >> 6) & 0x1F) as u8 != 10u8) by (bit_vector);
        assert(0xE0u8 | ((u >> 12) & 0x0F) as u8 != 10u8) by (bit_vector);
        assert(0xF0u8 | ((u >> 18) & 0x7) as u8 != 10u8) by (bit_vector);
        assert(0x80u8 | (u & 0x3F) as u8 != 10u8) by (bit_vector);
        assert(0x80u8 | ((u >> 6) & 0x3F) as u8 != 10u8) by (bit_vector);
        assert(0x80u8 | ((u >> 12) & 0x3F) as u8 != 10u8) by (bit_vector);
        assert(leading_byte_width_2(u) != 10u8);
        assert(leading_byte_width_3(u) != 10u8);
        assert(leading_byte_width_4(u) != 10u8);
        assert(last_continuation_byte(u) != 10u8);
        assert(second_last_continuation_byte(u) != 10u8);
        assert(third_last_continuation_byte(u) != 10u8);
    }
}

/// The longest part from the start of `s` that takes at most `max` bytes.
pub open spec fn clipped(s: Seq<char>, max: nat) -> Seq<char>
    decreases s.len(),
{
    if s.len() == 0 || encode_utf8(s).len() <= max {
        s
    } else {
        clipped(s.drop_last(), max)
    }
}

proof fn lemma_clipped_reaches(s: Seq<char>, k: int, max: nat)
    requires
        0 <= k <= s.len(),
        encode_utf8(s.take(k)).len() <= max,
        k < s.len() ==> encode_utf8(s.take(k + 1)).len() > max,
    ensures
        clipped(s, max) == s.take(k),
    decreases s.len(),
{
    if k == s.len() {
        assert(s.take(k) =~= s);
    } else {
        lemma_bytes_grow(s, k + 1);
        assert(s.take(k) =~= s.drop_last().take(k));
        if k < s.len() - 1 {
            assert(s.take(k + 1) =~= s.drop_last().take(k + 1));
        }
        lemma_clipped_reaches(s.drop_last(), k, max);
    }
}

proof fn lemma_bytes_grow(s: Seq<char>, k: int)
    requires
        0 <= k <= s.len(),
    ensures
        encode_utf8(s.take(k)).len() <= encode_utf8(s).len(),
    decreases s.len(),
{
    if k == s.len() {
        assert(s.take(k) =~= s);
    } else {
        lemma_bytes_grow(s.drop_last(), k);
        assert(s.take(k) =~= s.drop_last().take(k));
        assert(s =~= s.drop_last().push(s.last()));
        lemma_encode_push(s.drop_last(), s.last());
    }
}

/// Cuts a text to the whole characters that fit in `max` bytes.
pub fn clip_text(s: &str, max: usize) -> (t: String)
    ensures
        t@ == clipped(s@, max as nat),
{
    let chars: Vec<char> = to_chars(s);
    let mut used: usize = 0;
    let mut k: usize = 0;
    assert(chars@.take(0) =~= Seq::<char>::empty());
    while k < chars.len()
        invariant
            chars@ == s@,
            k <= chars.len(),
            used <= max,
            used == encode_utf8(chars@.take(k as int)).len(),
        decreases chars.len() - k,
    {
        let u: u32 = chars[k] as u32;
        let size: usize = if u < 0x80 {
            1
        } else if u < 0x800 {
            2
        } else if u < 0x10000 {
            3
        } else {
            4
        };
        proof {
            char_is_scalar(chars@[k as int]);
            assert(encode_scalar(u).len() == size);
            lemma_encode_push(chars@.take(k as int), chars@[k as int]);
            assert(chars@.take(k + 1) =~= chars@.take(k as int).push(chars@[k as int]));
        }
        if size > max - used {
            proof {
                lemma_clipped_reaches(chars@, k as int, max as nat);
            }
            assert(chars@.take(k as int) =~= chars@.subrange(0, k as int));
            return to_text(&sub_chars(&chars, 0, k));
        }
        used = used + size;
        k = k + 1;
    }
    assert(chars@.take(k as int) =~= chars@);
    to_text(&chars)
}

/// A text is cut behind the last whole character with which it takes at most
/// `max` bytes; one that fits is kept.
pub proof fn law_clipped(s: Seq<char>, max: nat)
    ensures
        encode_utf8(s).len() <= max ==> clipped(s, max) == s,
        encode_utf8(s).len() > max ==> exists|k: int|
            0 <= k < s.len() && clipped(s, max) == s.take(k) && encode_utf8(s.take(k)).len() <= max
                && encode_utf8(#[trigger] s.take(k + 1)).len() > max,
    decreases s.len(),
{
    if encode_utf8(s).len() > max {
        let fewer = s.drop_last();
        law_clipped(fewer, max);
        if encode_utf8(fewer).len() <= max {
            let k = s.len() - 1;
            assert(s.take(k) =~= fewer);
            assert(s.take(k + 1) =~= s);
        } else {
            let k = choose|k: int|
                0 <= k < fewer.len() && clipped(fewer, max) == fewer.take(k) && encode_utf8(
                    fewer.take(k),
                ).len() <= max && encode_utf8(#[trigger] fewer.take(k + 1)).len() > max;
            assert(fewer.take(k) =~= s.take(k));
            assert(fewer.take(k + 1) =~= s.take(k + 1));
        }
    }
}

/// A text of ASCII characters has a byte for each.
pub proof fn law_ascii_is_a_byte_each(s: Seq<char>)
    requires
        forall|i: int| 0 <= i < s.len() ==> (#[trigger] s[i]) as u32 <= 0x7f,
    ensures
        encode_utf8(s).len() == s.len(),
    decreases s.len(),
{
    if s.len() > 0 {
        let rest = s.drop_first();
        assert forall|i: int| 0 <= i < rest.len() implies (#[trigger] rest[i]) as u32 <= 0x7f by {
            assert(rest[i] == s[i + 1]);
        }
        law_ascii_is_a_byte_each(rest);
        assert(s[0] as u32 <= 0x7f);
    }
}

} // verus!
