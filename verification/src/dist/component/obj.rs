//! Installation objects and their identifiers.
pub mod lock;

use vstd::prelude::*;

use crate::path::push_char;
use vstd::arithmetic::power2::{
    lemma2_to64, lemma_pow2_adds, lemma_pow2_pos, lemma_pow2_strictly_increases, pow2,
};

verus! {

/// The number that the bytes of `bytes` spell, most significant first.
pub open spec fn be_value(bytes: Seq<u8>) -> nat
    decreases bytes.len(),
{
    if bytes.len() == 0 {
        0
    } else {
        be_value(bytes.drop_last()) * 256 + bytes.last() as nat
    }
}

/// The digits of `n` in `base`, most significant first, without leading zeros
/// (zero has the one digit 0).
pub open spec fn base_digits(n: nat, base: nat) -> Seq<nat>
    decreases n,
{
    if base < 2 || n < base {
        seq![n]
    } else {
        proof {
            vstd::arithmetic::div_mod::lemma_div_decreases(n as int, base as int);
        }
        base_digits(n / base, base).push(n % base)
    }
}

/// How many bytes at the start of `s` are zero.
pub open spec fn zero_prefix_len(s: Seq<u8>) -> nat
    decreases s.len(),
{
    if s.len() == 0 || s[0] != 0 {
        0
    } else {
        1 + zero_prefix_len(s.skip(1))
    }
}

/// What `base_x::encode` gives for `input` with the ASCII alphabet `alphabet`:
/// one first letter of the alphabet for each zero byte that starts the input
/// (its last byte apart), then the digits of the number that the input spells
/// in the base of the alphabet's length; nothing for an empty input.
pub open spec fn base_x_encoding(alphabet: Seq<u8>, input: Seq<u8>) -> Seq<char> {
    if input.len() == 0 {
        Seq::empty()
    } else {
        Seq::new(zero_prefix_len(input.drop_last()), |_i: int| alphabet[0] as char) + base_digits(
            be_value(input),
            alphabet.len() as nat,
        ).map_values(|d: nat| alphabet[d as int] as char)
    }
}

/// `s` with `c` added at its front until it is `width` long.
pub open spec fn pad_left(s: Seq<char>, c: char, width: nat) -> Seq<char> {
    if s.len() >= width {
        s
    } else {
        Seq::new((width - s.len()) as nat, |_i: int| c) + s
    }
}

/// The bytes of `h`, most significant first.
pub open spec fn be_bytes(h: u64) -> Seq<u8> {
    seq![
        (h >> 56u64) as u8,
        (h >> 48u64) as u8,
        (h >> 40u64) as u8,
        (h >> 32u64) as u8,
        (h >> 24u64) as u8,
        (h >> 16u64) as u8,
        (h >> 8u64) as u8,
        h as u8,
    ]
}

/// Encodes `input` with `alphabet`, by `base_x::encode`.
#[verifier::external_body]
fn base_x_encode(alphabet: &[u8], input: &[u8]) -> (r: String)
    requires
        2 <= alphabet@.len() <= 256,
        forall|i: int| 0 <= i < alphabet@.len() ==> alphabet@[i] < 128,
    ensures
        r@ == base_x_encoding(alphabet@, input@),
{
    base_x::encode(alphabet, input)
}

/// The letters of object identifiers.
pub open spec fn hash_alphabet() -> Seq<u8> {
    seq![
        48u8, 49u8, 50u8, 51u8, 52u8, 53u8, 54u8, 55u8, 56u8, 57u8, 97u8, 98u8,
        99u8, 100u8, 101u8, 102u8, 104u8, 106u8, 107u8, 109u8, 110u8, 113u8, 112u8, 114u8,
        115u8, 116u8, 117u8, 118u8, 119u8, 120u8, 121u8, 122u8,
    ]
}

/// How many letters an object identifier has: a 64-bit hash in base 32.
pub const ENCODED_WIDTH: usize = 13;

/// The object identifier of `hash`.
pub open spec fn spec_encode(hash: u64) -> Seq<char> {
    pad_left(base_x_encoding(hash_alphabet(), be_bytes(hash)), '0', ENCODED_WIDTH as nat)
}

/// Turns hashes into object identifiers.
pub struct HashEncoder;

impl HashEncoder {
    /// The letters of object identifiers.
    pub const ALPHABET: [u8; 32] = [
        48u8, 49u8, 50u8, 51u8, 52u8, 53u8, 54u8, 55u8, 56u8, 57u8, 97u8, 98u8,
        99u8, 100u8, 101u8, 102u8, 104u8, 106u8, 107u8, 109u8, 110u8, 113u8, 112u8, 114u8,
        115u8, 116u8, 117u8, 118u8, 119u8, 120u8, 121u8, 122u8,
    ];

    /// The identifier of `hash`: its bytes, most significant first, encoded in
    /// base 32 with `ALPHABET`, padded with `0` at the front to 13 letters.
    pub fn encode(hash: u64) -> (r: String)
        ensures
            r@ == spec_encode(hash),
    {
        let bytes: [u8; 8] = [
            (hash >> 56u64) as u8,
            (hash >> 48u64) as u8,
            (hash >> 40u64) as u8,
            (hash >> 32u64) as u8,
            (hash >> 24u64) as u8,
            (hash >> 16u64) as u8,
            (hash >> 8u64) as u8,
            hash as u8,
        ];
        let alphabet = Self::ALPHABET;
        assert(alphabet@ =~= hash_alphabet());
        assert(bytes@ =~= be_bytes(hash));
        let raw = base_x_encode(alphabet.as_slice(), bytes.as_slice());
        let len = raw.unicode_len();
        let mut out = String::new();
        let mut i: usize = len;
        while i < ENCODED_WIDTH
            invariant
                len == raw@.len(),
                len <= i <= ENCODED_WIDTH || (len > ENCODED_WIDTH && i == len),
                out@ == Seq::new((i - len) as nat, |_i: int| '0'),
            decreases ENCODED_WIDTH - i,
        {
            push_char(&mut out, '0');
            assert(out@ =~= Seq::new((i + 1 - len) as nat, |_i: int| '0'));
            i = i + 1;
        }
        let ghost pad = out@;
        out.append(raw.as_str());
        assert(out@ =~= pad_left(raw@, '0', ENCODED_WIDTH as nat));
        out
    }
}

/// The 13-letter base-32 numeral of `h` in the letters of `ALPHABET`, most
/// significant letter first.
pub open spec fn base32_numeral(h: u64) -> Seq<char> {
    Seq::new(
        ENCODED_WIDTH as nat,
        |i: int| hash_alphabet()[((h as nat / pow2((5 * (12 - i)) as nat)) % 32) as int] as char,
    )
}

/// An object identifier is the 13-letter base-32 numeral of the hash: every
/// identifier has 13 letters, and a letter stands for the hash's base-32 digit
/// at its place.
pub proof fn lemma_encode_is_base32_numeral(h: u64)
    ensures
        spec_encode(h) == base32_numeral(h),
        spec_encode(h).len() == ENCODED_WIDTH,
{
    let bytes = be_bytes(h);
    let n = be_value(bytes);
    lemma_be_bytes_value(h);
    let d = base_digits(n, 32);
    let k = d.len();
    lemma_digits_base32(n);
    let z = zero_prefix_len(bytes.drop_last());
    lemma_zero_prefix(bytes.drop_last());
    assert forall|i: int| 0 <= i < z implies bytes[i] == 0 by {
        assert(bytes[i] == bytes.drop_last()[i]);
    }
    lemma_be_value_bound(bytes, z);
    // the numeral and the zeros before it fit in 13 letters
    assert(z + k <= 13) by {
        lemma2_to64();
        if k >= 2 {
            if 5 * (k - 1) >= 8 * (8 - z) {
                if 5 * (k - 1) > 8 * (8 - z) {
                    lemma_pow2_strictly_increases((8 * (8 - z)) as nat, (5 * (k - 1)) as nat);
                }
            }
        }
    }
    let alpha = hash_alphabet();
    let raw = base_x_encoding(alpha, bytes);
    assert(raw == Seq::new(z, |_i: int| alpha[0] as char) + d.map_values(
        |x: nat| alpha[x as int] as char,
    ));
    let out = spec_encode(h);
    assert(out =~= base32_numeral(h)) by {
        assert forall|i: int| 0 <= i < 13 implies out[i] == base32_numeral(h)[i] by {
            let e = (5 * (12 - i)) as nat;
            if i < 13 - k {
                // a place above the numeral's highest digit
                if e > 5 * k {
                    lemma_pow2_strictly_increases(5 * k, e);
                }
                vstd::arithmetic::div_mod::lemma_basic_div(n as int, pow2(e) as int);
                assert(alpha[0] as char == '0');
            } else {
                let j = i - (13 - k);
                assert(e == 5 * (k - 1 - j));
            }
        }
    }
}

/// The position of the letter `c` in `letters`, counted from 0; the length of
/// `letters` when `c` is not among them.
pub open spec fn letter_position(letters: Seq<u8>, c: char) -> nat
    decreases letters.len(),
{
    if letters.len() == 0 || letters[0] as char == c {
        0
    } else {
        1 + letter_position(letters.drop_first(), c)
    }
}

/// The number that the identifier letters `s` spell in base 32, most
/// significant first, each letter standing for its position in `ALPHABET`.
pub open spec fn numeral_value(s: Seq<char>) -> nat
    decreases s.len(),
{
    if s.len() == 0 {
        0
    } else {
        numeral_value(s.drop_last()) * 32 + letter_position(hash_alphabet(), s.last())
    }
}

/// The letters of `ALPHABET` differ from each other.
proof fn lemma_alphabet_distinct()
    ensures
        forall|i: int, j: int|
            0 <= i < j < 32 ==> #[trigger] hash_alphabet()[i] != #[trigger] hash_alphabet()[j],
{
}

/// A letter that differs from all letters before it stands at its own position.
proof fn lemma_position_of_first(letters: Seq<u8>, d: int)
    requires
        0 <= d < letters.len(),
        forall|j: int| 0 <= j < d ==> #[trigger] letters[j] != letters[d],
    ensures
        letter_position(letters, letters[d] as char) == d,
    decreases d,
{
    if d > 0 {
        let rest = letters.drop_first();
        assert(letters[0] as char != letters[d] as char) by {
            assert(letters[0] != letters[d]);
        }
        assert forall|j: int| 0 <= j < d - 1 implies #[trigger] rest[j] != rest[d - 1] by {
            assert(rest[j] == letters[j + 1]);
        }
        lemma_position_of_first(rest, d - 1);
        assert(rest[d - 1] == letters[d]);
    }
}

/// Each letter of `ALPHABET` stands at its own position.
proof fn lemma_letter_positions(d: int)
    requires
        0 <= d < 32,
    ensures
        letter_position(hash_alphabet(), hash_alphabet()[d] as char) == d,
{
    lemma_alphabet_distinct();
    lemma_position_of_first(hash_alphabet(), d);
}

/// The first `k` letters of the numeral of `h` spell `h` without its last
/// `13 - k` base-32 digits.
proof fn lemma_numeral_prefix_value(h: u64, k: nat)
    requires
        k <= ENCODED_WIDTH,
    ensures
        numeral_value(base32_numeral(h).take(k as int)) == h as nat / pow2(
            (5 * (ENCODED_WIDTH - k)) as nat,
        ),
    decreases k,
{
    lemma2_to64();
    let s = base32_numeral(h);
    if k == 0 {
        assert(s.take(0) =~= Seq::<char>::empty());
        lemma_pow2_strictly_increases(64, 65);
        vstd::arithmetic::div_mod::lemma_basic_div(h as int, pow2(65) as int);
    } else {
        lemma_numeral_prefix_value(h, (k - 1) as nat);
        let e = (5 * (ENCODED_WIDTH - k)) as nat;
        assert(s.take(k as int).drop_last() =~= s.take(k - 1));
        let q = h as nat / pow2(e);
        lemma_pow2_pos(e);
        let d = (q % 32) as int;
        assert(s.take(k as int).last() == hash_alphabet()[d] as char);
        lemma_letter_positions(d);
        lemma_pow2_adds(e, 5);
        assert((5 * (ENCODED_WIDTH - (k - 1))) as nat == e + 5);
        vstd::arithmetic::div_mod::lemma_div_denominator(h as int, pow2(e) as int, 32);
        assert(pow2(e) * 32 == pow2(e + 5));
        vstd::arithmetic::div_mod::lemma_fundamental_div_mod(q as int, 32);
    }
}

/// An identifier can be read back: reading its letters as base-32 digits, by
/// their positions in `ALPHABET`, gives the hash it was made from.
pub proof fn lemma_encode_decodes(h: u64)
    ensures
        numeral_value(spec_encode(h)) == h,
{
    lemma_encode_is_base32_numeral(h);
    lemma_numeral_prefix_value(h, ENCODED_WIDTH as nat);
    assert(base32_numeral(h).take(13) =~= base32_numeral(h));
    assert((5 * (ENCODED_WIDTH - ENCODED_WIDTH as nat)) as nat == 0);
    assert(pow2(0) == 1) by {
        lemma2_to64();
    }
    assert(h as nat / 1 == h);
}

/// Identifiers are written in the letters of the published `HashEncoder::ALPHABET`,
/// which spells `0123456789abcdefhjkmnqprstuvwxyz`: reading any identifier's
/// letters back by their positions in `ALPHABET` gives the hash it was made from.
pub proof fn lemma_encode_uses_published_alphabet(h: u64)
    ensures
        hash_alphabet() == HashEncoder::ALPHABET@,
        HashEncoder::ALPHABET@.map_values(|b: u8| b as char)
            == "0123456789abcdefhjkmnqprstuvwxyz"@,
        numeral_value(spec_encode(h)) == h,
        forall|i: int|
            0 <= i < ENCODED_WIDTH ==> (#[trigger] spec_encode(h)[i]) == HashEncoder::ALPHABET@[
                ((h as nat / pow2((5 * (12 - i)) as nat)) % 32) as int] as char,
{
    reveal_strlit("0123456789abcdefhjkmnqprstuvwxyz");
    assert(hash_alphabet() =~= HashEncoder::ALPHABET@);
    assert(HashEncoder::ALPHABET@.map_values(|b: u8| b as char)
        =~= "0123456789abcdefhjkmnqprstuvwxyz"@);
    lemma_encode_decodes(h);
    lemma_encode_is_base32_numeral(h);
}

/// Different hashes have different identifiers.
pub proof fn lemma_encode_injective(a: u64, b: u64)
    requires
        spec_encode(a) == spec_encode(b),
    ensures
        a == b,
{
    lemma_encode_decodes(a);
    lemma_encode_decodes(b);
}

/// The digits of `n` in base 32: at least one, no more than the numeral
/// needs, and each is the base-32 digit of `n` at its place.
proof fn lemma_digits_base32(n: nat)
    ensures
        base_digits(n, 32).len() >= 1,
        n < pow2(5 * base_digits(n, 32).len()),
        base_digits(n, 32).len() >= 2 ==> pow2((5 * (base_digits(n, 32).len() - 1)) as nat) <= n,
        forall|j: int|
            0 <= j < base_digits(n, 32).len() ==> #[trigger] base_digits(n, 32)[j] == (n / pow2(
                (5 * (base_digits(n, 32).len() - 1 - j)) as nat,
            )) % 32,
    decreases n,
{
    lemma2_to64();
    let d = base_digits(n, 32);
    if n < 32 {
        assert(d == seq![n]);
        assert(pow2(0) == 1);
        assert(n / 1 == n);
        assert(n % 32 == n);
        assert(d[0] == (n / pow2((5 * (d.len() - 1 - 0)) as nat)) % 32);
    } else {
        let q = n / 32;
        let r = n % 32;
        vstd::arithmetic::div_mod::lemma_div_decreases(n as int, 32);
        lemma_digits_base32(q);
        let dq = base_digits(q, 32);
        let kq = dq.len();
        assert(d == dq.push(r));
        let k = d.len();
        assert(k == kq + 1);
        vstd::arithmetic::div_mod::lemma_fundamental_div_mod(n as int, 32);
        lemma_pow2_adds(5 * kq, 5);
        assert(5 * k == 5 * kq + 5);
        if kq >= 2 {
            lemma_pow2_adds((5 * (kq - 1)) as nat, 5);
            assert((5 * (k - 1)) as nat == (5 * (kq - 1)) as nat + 5);
        }
        assert forall|j: int| 0 <= j < k implies #[trigger] d[j] == (n / pow2(
            (5 * (k - 1 - j)) as nat,
        )) % 32 by {
            if j < kq {
                let e = (5 * (kq - 1 - j)) as nat;
                lemma_pow2_adds(e, 5);
                lemma_pow2_pos(e);
                assert((5 * (k - 1 - j)) as nat == e + 5);
                vstd::arithmetic::div_mod::lemma_div_denominator(n as int, 32, pow2(e) as int);
                assert(pow2(e + 5) == 32 * pow2(e));
                assert(n / pow2(e + 5) == q / pow2(e));
                assert(dq[j] == (q / pow2(e)) % 32);
                assert(d[j] == dq[j]);
            } else {
                assert(j == kq);
                assert((5 * (k - 1 - j)) as nat == 0);
                assert(n / pow2(0) == n);
                assert(d[j] == r);
            }
        }
    }
}

/// The bytes of `h`, most significant first, spell `h`.
proof fn lemma_be_bytes_value(h: u64)
    ensures
        be_value(be_bytes(h)) == h,
{
    let b = be_bytes(h);
    reveal_with_fuel(be_value, 9);
    assert(b.drop_last().drop_last().drop_last().drop_last().drop_last().drop_last().drop_last().drop_last()
        =~= Seq::<u8>::empty());
    let b0 = (h >> 56u64) as u8;
    let b1 = (h >> 48u64) as u8;
    let b2 = (h >> 40u64) as u8;
    let b3 = (h >> 32u64) as u8;
    let b4 = (h >> 24u64) as u8;
    let b5 = (h >> 16u64) as u8;
    let b6 = (h >> 8u64) as u8;
    let b7 = h as u8;
    assert(h == b0 as u64 * 0x100000000000000 + b1 as u64 * 0x1000000000000 + b2 as u64
        * 0x10000000000 + b3 as u64 * 0x100000000 + b4 as u64 * 0x1000000 + b5 as u64 * 0x10000
        + b6 as u64 * 0x100 + b7 as u64) by (bit_vector)
        requires
            b0 == (h >> 56u64) as u8,
            b1 == (h >> 48u64) as u8,
            b2 == (h >> 40u64) as u8,
            b3 == (h >> 32u64) as u8,
            b4 == (h >> 24u64) as u8,
            b5 == (h >> 16u64) as u8,
            b6 == (h >> 8u64) as u8,
            b7 == h as u8,
    ;
}

/// `zero_prefix_len(s)` counts zero bytes at the start of `s`.
proof fn lemma_zero_prefix(s: Seq<u8>)
    ensures
        zero_prefix_len(s) <= s.len(),
        forall|i: int| 0 <= i < zero_prefix_len(s) ==> s[i] == 0,
    decreases s.len(),
{
    if s.len() > 0 && s[0] == 0 {
        lemma_zero_prefix(s.skip(1));
        assert forall|i: int| 0 <= i < zero_prefix_len(s) implies s[i] == 0 by {
            if i > 0 {
                assert(s[i] == s.skip(1)[i - 1]);
            }
        }
    }
}

/// Bytes that are all zero spell zero.
proof fn lemma_be_value_zeros(s: Seq<u8>)
    requires
        forall|i: int| 0 <= i < s.len() ==> s[i] == 0,
    ensures
        be_value(s) == 0,
    decreases s.len(),
{
    if s.len() > 0 {
        lemma_be_value_zeros(s.drop_last());
    }
}

/// Bytes whose first `z` are zero spell a number below 256 to the power of the
/// number of the others.
proof fn lemma_be_value_bound(s: Seq<u8>, z: nat)
    requires
        z <= s.len(),
        forall|i: int| 0 <= i < z ==> s[i] == 0,
    ensures
        be_value(s) < pow2((8 * (s.len() - z)) as nat),
    decreases s.len(),
{
    lemma2_to64();
    if s.len() == z {
        lemma_be_value_zeros(s);
    } else {
        let t = s.drop_last();
        lemma_be_value_bound(t, z);
        let e = (8 * (t.len() - z)) as nat;
        lemma_pow2_adds(e, 8);
        assert((8 * (s.len() - z)) as nat == e + 8);
    }
}

} // verus!
