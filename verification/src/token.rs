//! The PhaseToken that seals a discovery: SHA3-512 of the session id and
//! the timestamp, and SHA3-512 of the decimal form of the prime, both as
//! lowercase hex.
use crate::bignat::{limbs_value, BigNat};
use crate::text::{decimal, digit_char, int_decimal, lemma_decimal_ascii, push_char};
use num_bigint::BigUint;
use sha3::{Digest, Sha3_512};
use vstd::prelude::*;
use vstd::string::StringSliceAdditionalSpecFns;

verus! {

// ---------------------------------------------------------------------------
// Outside items
// ---------------------------------------------------------------------------
/// The SHA3-512 digest of a byte string, as `sha3` computes it.
pub uninterp spec fn sha3_512_digest(data: Seq<u8>) -> Seq<u8>;

/// `sha3::Sha3_512::digest`: the SHA3-512 digest of `data`, named
/// `sha3_512_digest`; its output size is 64 bytes.  Nothing else about the
/// digest is stated.
#[verifier::external_body]
fn sha3_512(data: &[u8]) -> (h: Vec<u8>)
    ensures
        h@ == sha3_512_digest(data@),
        h@.len() == 64,
{
    Sha3_512::digest(data).to_vec()
}

/// `num_bigint::BigUint::to_str_radix` with radix 10 on little-endian
/// base-2^32 limbs: the decimal digits of the number, without leading
/// zeros ("0" for zero).
#[verifier::external_body]
fn decimal_of_limbs(limbs: &[u32]) -> (s: String)
    ensures
        s@ == decimal(limbs_value(limbs@)),
{
    BigUint::from_slice(limbs).to_str_radix(10)
}

// ---------------------------------------------------------------------------
// The model
// ---------------------------------------------------------------------------
/// The lowercase hex character of a value below 16.
pub open spec fn hex_char(v: nat) -> char {
    if v < 10 {
        (48 + v) as char
    } else {
        (87 + v) as char
    }
}

/// Lowercase hex of a byte string, two characters per byte.
pub open spec fn hex_lower(bytes: Seq<u8>) -> Seq<char>
    decreases bytes.len(),
{
    if bytes.len() == 0 {
        Seq::empty()
    } else {
        hex_lower(bytes.drop_last()) + seq![
            hex_char((bytes.last() / 16) as nat),
            hex_char((bytes.last() % 16) as nat),
        ]
    }
}

/// Whether every character is a lowercase hex digit.
pub open spec fn is_lower_hex(s: Seq<char>) -> bool {
    forall|j: int| 0 <= j < s.len() ==> ('0' <= #[trigger] s[j] <= '9' || 'a' <= s[j] <= 'f')
}

/// `256^k`.
pub open spec fn pow256(k: nat) -> nat
    decreases k,
{
    if k == 0 {
        1
    } else {
        256 * pow256((k - 1) as nat)
    }
}

/// The eight big-endian bytes of a 64-bit two's-complement integer.
pub open spec fn be_bytes(t: i64) -> Seq<u8> {
    Seq::new(8, |k: int| (((t as u64) as nat / pow256((7 - k) as nat)) % 256) as u8)
}

/// The session hash: hex of SHA3-512 over the UTF-8 bytes of the session
/// id followed by the big-endian bytes of the timestamp.
pub open spec fn session_hash_of(session_id: Seq<u8>, timestamp: i64) -> Seq<char> {
    hex_lower(sha3_512_digest(session_id + be_bytes(timestamp)))
}

/// The result hash: hex of SHA3-512 over the decimal digits of the prime.
pub open spec fn result_hash_of(value: nat) -> Seq<char> {
    hex_lower(sha3_512_digest(decimal(value).map_values(|c: char| c as u8)))
}

// ---------------------------------------------------------------------------
// Formatting
// ---------------------------------------------------------------------------
/// The decimal form of a number.
pub fn to_decimal_string(n: &BigNat) -> (s: String)
    ensures
        s@ == decimal(n@),
{
    decimal_of_limbs(n.limbs())
}

/// Appends the decimal digits of `u`.
pub fn push_decimal(s: &mut String, u: u64)
    ensures
        final(s)@ == old(s)@ + decimal(u as nat),
    decreases u,
{
    if u < 10 {
        push_char(s, ((48 + u) as u8) as char);
        proof {
            assert(old(s)@.push(digit_char(u as nat)) =~= old(s)@ + seq![digit_char(u as nat)]);
        }
    } else {
        push_decimal(s, u / 10);
        let d = u % 10;
        push_char(s, ((48 + d) as u8) as char);
        proof {
            assert(decimal(u as nat) == decimal((u / 10) as nat).push(digit_char((u % 10) as nat)));
            assert((old(s)@ + decimal((u / 10) as nat)).push(digit_char(d as nat)) =~= old(s)@
                + decimal((u / 10) as nat).push(digit_char(d as nat)));
        }
    }
}

/// Appends the decimal form of a signed integer.
pub fn push_i64(s: &mut String, t: i64)
    ensures
        final(s)@ == old(s)@ + int_decimal(t as int),
{
    if t < 0 {
        push_char(s, '-');
        let m: u64 = (-(t as i128)) as u64;
        let ghost mid = s@;
        push_decimal(s, m);
        proof {
            assert(mid == old(s)@.push('-'));
            assert(old(s)@.push('-') + decimal(m as nat) =~= old(s)@ + (seq!['-'] + decimal(
                m as nat,
            )));
        }
    } else {
        push_decimal(s, t as u64);
    }
}

/// The lowercase hex character of a value below 16.
pub fn hex_digit(v: u8) -> (c: char)
    requires
        v < 16,
    ensures
        c == hex_char(v as nat),
{
    if v < 10 {
        (48 + v) as char
    } else {
        (87 + v) as char
    }
}

/// Lowercase hex of a byte string.
pub fn to_hex_lower(bytes: &[u8]) -> (s: String)
    ensures
        s@ == hex_lower(bytes@),
{
    let mut s = String::new();
    let n = bytes.len();
    let mut i: usize = 0;
    proof {
        assert(bytes@.take(0) =~= Seq::<u8>::empty());
        assert(hex_lower(Seq::<u8>::empty()) =~= Seq::<char>::empty());
    }
    while i < n
        invariant
            n == bytes@.len(),
            i <= n,
            s@ == hex_lower(bytes@.take(i as int)),
        decreases n - i,
    {
        let b = bytes[i];
        let ghost before = s@;
        push_char(&mut s, hex_digit(b / 16));
        push_char(&mut s, hex_digit(b % 16));
        proof {
            let t = bytes@.take(i + 1);
            assert(t.drop_last() =~= bytes@.take(i as int));
            assert(t.last() == b);
            assert(s@ =~= before + seq![hex_char((b / 16) as nat), hex_char((b % 16) as nat)]);
        }
        i = i + 1;
    }
    proof {
        assert(bytes@.take(n as int) =~= bytes@);
    }
    s
}

/// Appends the eight big-endian bytes of a timestamp.
pub fn push_be_bytes(buf: &mut Vec<u8>, t: i64)
    ensures
        final(buf)@ == old(buf)@ + be_bytes(t),
{
    let u: u64 = #[verifier::truncate] (t as u64);
    let mut div: u64 = 0x0100_0000_0000_0000;
    let mut k: usize = 0;
    proof {
        lemma_pow256_seven();
    }
    while k < 8
        invariant
            k <= 8,
            u == #[verifier::truncate] (t as u64),
            old(buf)@.len() + k == buf@.len(),
            buf@.take(old(buf)@.len() as int) == old(buf)@,
            forall|q: int| 0 <= q < k ==> buf@[old(buf)@.len() + q] == be_bytes(t)[q],
            k < 8 ==> div == pow256((7 - k) as nat),
            div > 0,
        decreases 8 - k,
    {
        let b = ((u / div) % 256) as u8;
        proof {
            assert(b == be_bytes(t)[k as int]);
        }
        let ghost before = buf@;
        buf.push(b);
        proof {
            assert(buf@.take(old(buf)@.len() as int) =~= before.take(old(buf)@.len() as int));
            assert forall|q: int| 0 <= q < k + 1 implies buf@[old(buf)@.len() + q] == be_bytes(
                t,
            )[q] by {
                if q < k {
                    assert(buf@[old(buf)@.len() + q] == before[old(buf)@.len() + q]);
                }
            }
            if k + 1 < 8 {
                assert(pow256((7 - k) as nat) == 256 * pow256((7 - (k + 1)) as nat));
                lemma_pow256_pos((7 - (k + 1)) as nat);
            }
        }
        if k < 7 {
            div = div / 256;
        }
        k = k + 1;
    }
    proof {
        assert(buf@ =~= old(buf)@ + be_bytes(t));
    }
}

// ---------------------------------------------------------------------------
// The token
// ---------------------------------------------------------------------------
/// Proof of a search session: when it ended, which session it was and
/// which number it produced.
pub struct PhaseToken {
    pub timestamp: i64,
    pub session_hash: String,
    pub result_hash: String,
}

impl PhaseToken {
    /// Seals `result` for the session `session_id` at `timestamp`
    /// (milliseconds since the epoch).
    pub fn new(session_id: &str, timestamp: i64, result: &BigNat) -> (tok: PhaseToken)
        ensures
            tok.timestamp == timestamp,
            tok.session_hash@ == session_hash_of(session_id.spec_bytes(), timestamp),
            tok.result_hash@ == result_hash_of(result@),
            tok.result_hash@ == hex_lower(
                sha3_512_digest(decimal(result@).map_values(|c: char| c as u8)),
            ),
            tok.session_hash@ == hex_lower(
                sha3_512_digest(session_id.spec_bytes() + be_bytes(timestamp)),
            ),
            tok.session_hash@.len() == 128,
            tok.result_hash@.len() == 128,
            is_lower_hex(tok.session_hash@),
            is_lower_hex(tok.result_hash@),
    {
        let id_bytes = session_id.as_bytes();
        let mut buf: Vec<u8> = Vec::new();
        let n = id_bytes.len();
        let mut i: usize = 0;
        while i < n
            invariant
                n == id_bytes@.len(),
                i <= n,
                buf@ == id_bytes@.take(i as int),
            decreases n - i,
        {
            buf.push(id_bytes[i]);
            proof {
                assert(buf@ =~= id_bytes@.take(i + 1));
            }
            i = i + 1;
        }
        proof {
            assert(id_bytes@.take(n as int) =~= id_bytes@);
        }
        push_be_bytes(&mut buf, timestamp);
        let session_digest = sha3_512(buf.as_slice());
        let session_hash = to_hex_lower(session_digest.as_slice());
        let digits = to_decimal_string(result);
        let digits_str = digits.as_str();
        let digit_bytes = digits_str.as_bytes();
        let result_digest = sha3_512(digit_bytes);
        let result_hash = to_hex_lower(result_digest.as_slice());
        proof {
            lemma_hex_lower_shape(session_digest@);
            lemma_hex_lower_shape(result_digest@);
            lemma_decimal_ascii(result@);
            vstd::string::is_ascii_spec_bytes(digits_str);
            assert(digit_bytes@ =~= decimal(result@).map_values(|c: char| c as u8));
        }
        PhaseToken { timestamp, session_hash, result_hash }
    }

    /// The token as a text block: a title line, a rule, then the timestamp
    /// and both hashes, each on its own line.
    pub fn to_string_full(&self) -> (s: String)
        ensures
            s@ == "PhaseToken\n==========\nTimestamp: "@ + int_decimal(self.timestamp as int)
                + "\nSession Hash: "@ + self.session_hash@ + "\nResult Hash: "@
                + self.result_hash@ + "\n"@,
    {
        let mut s = String::new();
        s.append("PhaseToken\n==========\nTimestamp: ");
        push_i64(&mut s, self.timestamp);
        s.append("\nSession Hash: ");
        s.append(self.session_hash.as_str());
        s.append("\nResult Hash: ");
        s.append(self.result_hash.as_str());
        s.append("\n");
        s
    }
}

/// The result hash is taken over every decimal digit of the number, as
/// ASCII bytes.
pub proof fn lemma_result_hash_covers_all_digits(v: nat)
    ensures
        result_hash_of(v) == hex_lower(sha3_512_digest(decimal(v).map_values(|c: char| c as u8))),
        decimal(v).map_values(|c: char| c as u8).len() == decimal(v).len(),
{
}

/// Hex has two lowercase hex digits per byte.
pub proof fn lemma_hex_lower_shape(bytes: Seq<u8>)
    ensures
        hex_lower(bytes).len() == 2 * bytes.len(),
        is_lower_hex(hex_lower(bytes)),
    decreases bytes.len(),
{
    if bytes.len() > 0 {
        let a = hex_lower(bytes.drop_last());
        let hi = (bytes.last() / 16) as nat;
        let lo = (bytes.last() % 16) as nat;
        lemma_hex_lower_shape(bytes.drop_last());
        let t = hex_lower(bytes);
        assert(t == a + seq![hex_char(hi), hex_char(lo)]);
        assert forall|j: int| 0 <= j < t.len() implies ('0' <= #[trigger] t[j] <= '9' || 'a' <= t[j]
            <= 'f') by {
            if j < a.len() {
                assert(t[j] == a[j]);
            } else if j == a.len() {
                assert(t[j] == hex_char(hi));
            } else {
                assert(t[j] == hex_char(lo));
            }
        }
    }
}

/// The value of a lowercase hex digit.
pub open spec fn hex_value(c: char) -> nat {
    if '0' <= c <= '9' {
        (c as nat - 48) as nat
    } else {
        (c as nat - 87) as nat
    }
}

/// Hex reads back: the two characters of byte `j`, high digit first,
/// give its value.
pub proof fn lemma_hex_lower_decodes(bytes: Seq<u8>)
    ensures
        hex_lower(bytes).len() == 2 * bytes.len(),
        forall|j: int|
            0 <= j < bytes.len() ==> hex_value(#[trigger] hex_lower(bytes)[2 * j]) * 16 + hex_value(
                hex_lower(bytes)[2 * j + 1],
            ) == bytes[j],
    decreases bytes.len(),
{
    lemma_hex_lower_shape(bytes);
    if bytes.len() > 0 {
        let p = bytes.drop_last();
        lemma_hex_lower_decodes(p);
        let a = hex_lower(p);
        let b = bytes.last();
        let hi = (b / 16) as nat;
        let lo = (b % 16) as nat;
        let h = hex_lower(bytes);
        assert(h == a + seq![hex_char(hi), hex_char(lo)]);
        assert(hex_value(hex_char(hi)) == hi);
        assert(hex_value(hex_char(lo)) == lo);
        assert forall|j: int| 0 <= j < bytes.len() implies hex_value(#[trigger] h[2 * j]) * 16
            + hex_value(h[2 * j + 1]) == bytes[j] by {
            if j < p.len() {
                assert(h[2 * j] == a[2 * j]);
                assert(h[2 * j + 1] == a[2 * j + 1]);
                assert(a[2 * j] == hex_lower(p)[2 * j]);
                assert(p[j] == bytes[j]);
            } else {
                assert(h[2 * j] == hex_char(hi));
                assert(h[2 * j + 1] == hex_char(lo));
                assert(hi * 16 + lo == b);
            }
        }
    }
}

/// The number that big-endian bytes stand for.
pub open spec fn be_value(b: Seq<u8>) -> nat
    decreases b.len(),
{
    if b.len() == 0 {
        0
    } else {
        (be_value(b.drop_last()) * 256 + b.last()) as nat
    }
}

/// The first `k` bytes of a timestamp give its value divided by
/// `256^(8 - k)`.
proof fn lemma_be_prefix(t: i64, k: nat)
    requires
        k <= 8,
    ensures
        be_value(be_bytes(t).take(k as int)) == ((t as u64) as nat) / pow256((8 - k) as nat),
    decreases k,
{
    let u = (t as u64) as nat;
    let b = be_bytes(t);
    lemma_pow256_seven();
    if k == 0 {
        assert(b.take(0) =~= Seq::<u8>::empty());
        assert(pow256(8) == 256 * pow256(7));
        lemma_pow256_pos(8);
        vstd::arithmetic::div_mod::lemma_basic_div(u as int, pow256(8) as int);
    } else {
        let j = (k - 1) as nat;
        lemma_be_prefix(t, j);
        let x = u / pow256((7 - j) as nat);
        lemma_pow256_pos((7 - j) as nat);
        assert(pow256((8 - j) as nat) == 256 * pow256((7 - j) as nat));
        vstd::arithmetic::div_mod::lemma_div_denominator(
            u as int,
            pow256((7 - j) as nat) as int,
            256,
        );
        vstd::arithmetic::mul::lemma_mul_is_commutative(pow256((7 - j) as nat) as int, 256);
        vstd::arithmetic::div_mod::lemma_fundamental_div_mod(x as int, 256);
        assert(b.take(k as int).drop_last() =~= b.take(j as int));
        assert(b.take(k as int).last() == b[j as int]);
        assert(b[j as int] == x % 256);
    }
}

/// The timestamp's bytes are its eight big-endian bytes: read back, they
/// give the timestamp as an unsigned 64-bit number.
pub proof fn lemma_be_bytes_decode(t: i64)
    ensures
        be_bytes(t).len() == 8,
        be_value(be_bytes(t)) == (t as u64) as nat,
{
    lemma_be_prefix(t, 8);
    assert(be_bytes(t).take(8) =~= be_bytes(t));
    assert(pow256(0) == 1);
    let u = (t as u64) as nat;
    vstd::arithmetic::div_mod::lemma_div_basics(u as int);
    assert(pow256((8 - 8) as nat) == 1);
}

/// `256^7 = 2^56`.
pub proof fn lemma_pow256_seven()
    ensures
        pow256(7) == 0x0100_0000_0000_0000,
{
    assert(pow256(0) == 1);
    assert(pow256(1) == 0x100);
    assert(pow256(2) == 0x1_0000);
    assert(pow256(3) == 0x100_0000);
    assert(pow256(4) == 0x1_0000_0000);
    assert(pow256(5) == 0x100_0000_0000);
    assert(pow256(6) == 0x1_0000_0000_0000);
}

/// `256^k` is positive.
pub proof fn lemma_pow256_pos(k: nat)
    ensures
        pow256(k) > 0,
    decreases k,
{
    if k > 0 {
        lemma_pow256_pos((k - 1) as nat);
    }
}

} // verus!
