//! The store's own base-32 notation for digests.

use vstd::prelude::*;
use vstd::string::StrSliceExecFns;
use vstd::string::StringExecFns;

verus! {

/// The thirty-two symbols, in the order of their values. The letters `e`,
/// `o`, `u` and `t` are left out.
pub const NIX_BASE32_ALPHABET: &'static str = "0123456789abcdfghijklmnpqrsvwxyz";

/// The byte of `input` at `i`; zero behind its end.
pub open spec fn byte_at(input: Seq<u8>, i: int) -> u8 {
    if 0 <= i < input.len() {
        input[i]
    } else {
        0
    }
}

/// The value of the `n`-th group of five bits of `input`, where bit `k` of
/// `input` is bit `k mod 8` of its byte `k div 8`: the low five bits of the
/// sixteen-bit window that starts at the byte holding the group's first bit,
/// shifted down to that bit.
pub open spec fn group(input: Seq<u8>, n: int) -> u8 {
    let i = (5 * n) / 8;
    let j = ((5 * n) % 8) as u16;
    let window: u16 = (byte_at(input, i) as u16) | ((byte_at(input, i + 1) as u16) << 8u16);
    ((window >> j) & 0x1f) as u8
}

/// The number of symbols that encode `len` bytes: a fifth of their bits,
/// rounded up.
pub open spec fn encoded_len(len: nat) -> nat {
    ((len * 8 + 4) / 5) as nat
}

/// The notation of `input`: one symbol for each group of five bits, the
/// group of the highest bits first.
pub open spec fn encoding(input: Seq<u8>) -> Seq<char> {
    Seq::new(
        encoded_len(input.len()),
        |k: int| NIX_BASE32_ALPHABET@[group(input, encoded_len(input.len()) - 1 - k) as int],
    )
}

/// A group read from a window of two bytes, as the encoder reads it.
proof fn lemma_group_bits(low: u8, high: u8, j: u8)
    by (bit_vector)
    requires
        j < 8,
    ensures
        ((((low as u16) | ((high as u16) << 8u16)) >> (j as u16)) & 0x1f) as u8 == (if j > 3 {
            ((low >> j) | (high << ((8 - j) as u8))) & 0x1f
        } else {
            (low >> j) & 0x1f
        }),
        ((((low as u16) | ((high as u16) << 8u16)) >> (j as u16)) & 0x1f) < 32,
{
}

/// The alphabet has thirty-two symbols, all of them ASCII.
proof fn lemma_alphabet()
    ensures
        NIX_BASE32_ALPHABET@.len() == 32,
        NIX_BASE32_ALPHABET.is_ascii(),
{
    reveal_strlit("0123456789abcdfghijklmnpqrsvwxyz");
    assert forall|i: int| 0 <= i < NIX_BASE32_ALPHABET@.len() implies '\0'
        <= #[trigger] NIX_BASE32_ALPHABET@[i] <= '\u{7f}' by {
    }
}

/// `input` in base-32 notation. No input is refused; the empty input gives
/// the empty string.
pub fn encode(input: &[u8]) -> (text: String)
    requires
        input@.len() * 8 + 4 <= usize::MAX,
    ensures
        text@ == encoding(input@),
        text@.len() == encoded_len(input@.len()),
{
    let len: usize = (input.len() * 8 + 4) / 5;
    let mut text = String::new();
    let mut n: usize = len;
    proof {
        lemma_alphabet();
    }
    while n > 0
        invariant
            n <= len,
            len == encoded_len(input@.len()),
            input@.len() * 8 + 4 <= usize::MAX,
            NIX_BASE32_ALPHABET@.len() == 32,
            NIX_BASE32_ALPHABET.is_ascii(),
            text@.len() == len - n,
            forall|k: int|
                0 <= k < len - n ==> text@[k] == NIX_BASE32_ALPHABET@[group(
                    input@,
                    len - 1 - k,
                ) as int],
        decreases n,
    {
        n = n - 1;
        let b: usize = n * 5;
        let i: usize = b / 8;
        let j: u8 = (b % 8) as u8;
        let low: u8 = input[i];
        let high: u8 = if i + 1 < input.len() {
            input[i + 1]
        } else {
            0
        };
        let mut c: u8 = low >> j;
        if j > 3 {
            c = c | (high << (8 - j));
        }
        let value: usize = (c & 0x1f) as usize;
        proof {
            lemma_group_bits(low, high, j);
            assert(i == (5 * n) / 8 && j == (5 * n) % 8);
            assert(byte_at(input@, i as int) == low && byte_at(input@, i + 1) == high);
            assert(value == group(input@, n as int));
        }
        let ghost before = text@;
        text.append(NIX_BASE32_ALPHABET.substring_ascii(value, value + 1));
        assert(text@ =~= before.push(NIX_BASE32_ALPHABET@[value as int]));
    }
    assert(text@ =~= encoding(input@));
    text
}

/// A digest with the name of its algorithm before it.
pub open spec fn nix_string(algo: Seq<char>, hash: Seq<u8>) -> Seq<char> {
    algo + seq![':'] + encoding(hash)
}

/// The name of the algorithm, a colon, and the digest in base-32 notation.
pub fn hash_to_nix_string(algo: &str, hash: &[u8]) -> (text: String)
    requires
        hash@.len() * 8 + 4 <= usize::MAX,
    ensures
        text@ == nix_string(algo@, hash@),
{
    let mut text = String::from_str(algo);
    proof {
        reveal_strlit(":");
        assert(":"@ =~= seq![':']);
    }
    text.append(":");
    let digits = encode(hash);
    text.append(digits.as_str());
    text
}

} // verus!
