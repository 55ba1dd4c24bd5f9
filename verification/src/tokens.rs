//! A cheap token-count estimate for raw text.

use vstd::prelude::*;
use vstd::string::StringSliceAdditionalSpecFns;
use vstd::utf8::encode_utf8;

verus! {

/// The Unicode white-space characters, the set std's
/// `char::is_whitespace` recognises, by code point.
pub open spec fn spec_is_whitespace(c: char) -> bool {
    let u = c as u32;
    u == 0x09 || u == 0x0a || u == 0x0b || u == 0x0c || u == 0x0d || u == 0x20 || u == 0x85 || u
        == 0xa0 || u == 0x1680 || (0x2000 <= u && u <= 0x200a) || u == 0x2028 || u == 0x2029 || u
        == 0x202f || u == 0x205f || u == 0x3000
}

/// Whether `c` is Unicode white space.
pub fn is_whitespace_char(c: char) -> (r: bool)
    ensures
        r == spec_is_whitespace(c),
{
    let u: u32 = c as u32;
    u == 0x09 || u == 0x0a || u == 0x0b || u == 0x0c || u == 0x0d || u == 0x20 || u == 0x85 || u
        == 0xa0 || u == 0x1680 || (0x2000 <= u && u <= 0x200a) || u == 0x2028 || u == 0x2029 || u
        == 0x202f || u == 0x205f || u == 0x3000
}

/// The number of maximal non-white-space runs in `s`, given whether a
/// run is already open just before `s`.
pub open spec fn word_count_from(s: Seq<char>, in_word: bool) -> nat
    decreases s.len(),
{
    if s.len() == 0 {
        0
    } else if spec_is_whitespace(s[0]) {
        word_count_from(s.subrange(1, s.len() as int), false)
    } else {
        (if in_word {
            0nat
        } else {
            1nat
        }) + word_count_from(s.subrange(1, s.len() as int), true)
    }
}

/// The number of words of `s`: maximal runs of non-white-space
/// characters, with leading, trailing and repeated separators ignored.
pub open spec fn word_count(s: Seq<char>) -> nat {
    word_count_from(s, false)
}

/// The UTF-8 byte length of `s`.
pub open spec fn byte_count(s: Seq<char>) -> nat {
    encode_utf8(s).len()
}

/// The token estimate: the mean of a per-byte guess (a quarter of the
/// byte length) and a per-word guess (the word count divided by 0.75),
/// rounded up.  As one exact fraction that is
/// ceil((3·bytes + 16·words) / 24).
pub open spec fn spec_tokens(s: Seq<char>) -> nat {
    (3 * byte_count(s) + 16 * word_count(s) + 23) / 24
}

/// A word count never exceeds the character count.
proof fn lemma_word_count_le_len(s: Seq<char>, in_word: bool)
    ensures
        word_count_from(s, in_word) <= s.len(),
    decreases s.len(),
{
    if s.len() > 0 {
        lemma_word_count_le_len(s.subrange(1, s.len() as int), false);
        lemma_word_count_le_len(s.subrange(1, s.len() as int), true);
    }
}

/// A character sequence never has more characters than UTF-8 bytes.
proof fn lemma_char_len_le_byte_len(s: Seq<char>)
    ensures
        s.len() <= encode_utf8(s).len(),
    decreases s.len(),
{
    if s.len() > 0 {
        lemma_char_len_le_byte_len(s.subrange(1, s.len() as int));
        assert(vstd::utf8::encode_scalar(s[0] as u32).len() >= 1);
    }
}

/// Counts the words of `s`.
pub fn count_words(s: &str) -> (r: usize)
    ensures
        r as nat == word_count(s@),
{
    let n = s.unicode_len();
    let mut i: usize = 0;
    let mut in_word: bool = false;
    let mut count: usize = 0;
    proof {
        assert(s@.skip(0) =~= s@);
    }
    while i < n
        invariant
            i <= n,
            n == s@.len(),
            count <= i,
            count + word_count_from(s@.skip(i as int), in_word) == word_count(s@),
        decreases n - i,
    {
        let ch = s.get_char(i);
        proof {
            let rest = s@.skip(i as int);
            assert(rest.len() > 0);
            assert(rest[0] == s@[i as int]);
            assert(rest.subrange(1, rest.len() as int) =~= s@.skip(i as int + 1));
        }
        if is_whitespace_char(ch) {
            in_word = false;
        } else {
            if !in_word {
                count = count + 1;
            }
            in_word = true;
        }
        i = i + 1;
    }
    proof {
        assert(s@.skip(n as int) =~= Seq::<char>::empty());
    }
    count
}

/// Estimates how many language-model tokens `text` holds, from its
/// byte length and its word count alone.  Empty text estimates to
/// zero; no lower bound is applied otherwise.
pub fn calculate_tokens(text: &str) -> (r: usize)
    requires
        byte_count(text@) <= usize::MAX,
    ensures
        r as nat == spec_tokens(text@),
{
    let bytes: usize = text.len();
    let words: usize = count_words(text);
    proof {
        lemma_word_count_le_len(text@, false);
        lemma_char_len_le_byte_len(text@);
    }
    let num: u128 = 3u128 * (bytes as u128) + 16u128 * (words as u128) + 23u128;
    let est: u128 = num / 24u128;
    proof {
        assert(est <= bytes) by {
            assert(num <= 19u128 * (bytes as u128) + 23u128);
            assert((19u128 * (bytes as u128) + 23u128) as nat / 24 <= bytes as nat) by (nonlinear_arith);
            vstd::arithmetic::div_mod::lemma_div_is_ordered(
                num as int,
                19 * (bytes as int) + 23,
                24,
            );
        }
    }
    est as usize
}

} // verus!
