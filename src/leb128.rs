use vstd::prelude::*;

use crate::error::Error;

verus! {

/// The longest encoding read for a 64-bit integer: `ceil(64 / 7)` bytes.
pub const LEB128_MAX_BYTES: usize = 10;

/// `128` to the power `n`.
pub open spec fn pow128(n: nat) -> nat
    decreases n,
{
    if n == 0 {
        1
    } else {
        128 * pow128((n - 1) as nat)
    }
}

/// The length of the encoding that starts at the front of `s`, when a byte
/// without the continuation bit comes at index `i` or later and within the
/// first `LEB128_MAX_BYTES` bytes.
pub open spec fn leb_length_from(s: Seq<u8>, i: nat) -> Option<nat>
    decreases LEB128_MAX_BYTES - i,
{
    if i >= LEB128_MAX_BYTES || i >= s.len() {
        None
    } else if s[i as int] < 128 {
        Some(i + 1)
    } else {
        leb_length_from(s, i + 1)
    }
}

/// The 7-bit groups of the `n` bytes from index `i`, little-endian.
pub open spec fn leb_groups(s: Seq<u8>, i: int, n: nat) -> nat
    decreases n,
{
    if n == 0 {
        0
    } else {
        ((s[i] % 128) + 128 * leb_groups(s, i + 1, (n - 1) as nat)) as nat
    }
}

/// The signed value of an encoding of `n` bytes: the groups, sign-extended
/// from bit 6 of the last one.
pub open spec fn sleb_value(s: Seq<u8>, n: nat) -> int {
    if n > 0 && s[n - 1] % 128 >= 64 {
        leb_groups(s, 0, n) - pow128(n)
    } else {
        leb_groups(s, 0, n) as int
    }
}

/// The error for bytes at the front of `s` that hold no complete encoding.
pub open spec fn leb_unterminated_error(s: Seq<u8>) -> Error {
    if s.len() < LEB128_MAX_BYTES {
        Error::EndOfData
    } else {
        Error::IntSizeViolation
    }
}

/// Unsigned LEB128 at the front of `s`: the value and the number of bytes.
pub open spec fn uleb_decode(s: Seq<u8>) -> Result<(u64, nat), Error> {
    match leb_length_from(s, 0) {
        Some(n) => if leb_groups(s, 0, n) <= u64::MAX {
            Ok((leb_groups(s, 0, n) as u64, n))
        } else {
            Err(Error::IntSizeViolation)
        },
        None => Err(leb_unterminated_error(s)),
    }
}

/// Signed LEB128 at the front of `s`: the value and the number of bytes.
pub open spec fn sleb_decode(s: Seq<u8>) -> Result<(i64, nat), Error> {
    match leb_length_from(s, 0) {
        Some(n) => if i64::MIN <= sleb_value(s, n) <= i64::MAX {
            Ok((sleb_value(s, n) as i64, n))
        } else {
            Err(Error::IntSizeViolation)
        },
        None => Err(leb_unterminated_error(s)),
    }
}

/// An encoding found at the front of `s` lies within `s`.
pub proof fn lemma_uleb_length_in(s: Seq<u8>)
    ensures
        leb_length_from(s, 0) matches Some(n) ==> 1 <= n <= s.len() && n <= LEB128_MAX_BYTES,
{
    lemma_leb_length_from_in(s, 0);
}

proof fn lemma_leb_length_from_in(s: Seq<u8>, i: nat)
    ensures
        leb_length_from(s, i) matches Some(n) ==> i < n <= s.len() && n <= LEB128_MAX_BYTES,
    decreases LEB128_MAX_BYTES - i,
{
    if i < LEB128_MAX_BYTES && i < s.len() && s[i as int] >= 128 {
        lemma_leb_length_from_in(s, i + 1);
    }
}

proof fn lemma_pow128_monotone(i: nat, j: nat)
    requires
        i <= j,
    ensures
        1 <= pow128(i) <= pow128(j),
    decreases j,
{
    if i < j {
        lemma_pow128_monotone(i, (j - 1) as nat);
    } else if j > 0 {
        lemma_pow128_monotone(0, (j - 1) as nat);
    }
}

proof fn lemma_leb_groups_bound(s: Seq<u8>, i: int, n: nat)
    ensures
        leb_groups(s, i, n) < pow128(n),
    decreases n,
{
    if n > 0 {
        lemma_leb_groups_bound(s, i + 1, (n - 1) as nat);
    }
}

/// Finds the length of the encoding at the front of `bytes`.
fn leb_length(bytes: &[u8]) -> (r: Option<usize>)
    ensures
        match r {
            Some(n) => leb_length_from(bytes@, 0) == Some(n as nat),
            None => leb_length_from(bytes@, 0) is None,
        },
        r is Some ==> 1 <= r->0 <= LEB128_MAX_BYTES && r->0 <= bytes@.len(),
{
    let mut i: usize = 0;
    while i < bytes.len() && i < LEB128_MAX_BYTES && bytes[i] >= 128
        invariant
            i <= LEB128_MAX_BYTES,
            i <= bytes@.len(),
            leb_length_from(bytes@, 0) == leb_length_from(bytes@, i as nat),
        decreases LEB128_MAX_BYTES - i,
    {
        i = i + 1;
    }
    if i < bytes.len() && i < LEB128_MAX_BYTES {
        Some(i + 1)
    } else {
        None
    }
}

/// The 7-bit groups of the first `n` bytes, little-endian.
fn groups_value(bytes: &[u8], n: usize) -> (r: u128)
    requires
        n <= LEB128_MAX_BYTES,
        n <= bytes@.len(),
    ensures
        r == leb_groups(bytes@, 0, n as nat),
        r < pow128(n as nat),
{
    let mut acc: u128 = 0;
    let mut k: usize = n;
    while k > 0
        invariant
            k <= n,
            n <= LEB128_MAX_BYTES,
            n <= bytes@.len(),
            acc == leb_groups(bytes@, k as int, (n - k) as nat),
            acc < pow128((n - k) as nat),
        decreases k,
    {
        proof {
            lemma_pow128_monotone((n - k) as nat, 9);
            reveal_with_fuel(pow128, 10);
        }
        k = k - 1;
        acc = acc * 128 + (bytes[k] % 128) as u128;
    }
    proof {
        lemma_leb_groups_bound(bytes@, 0, n as nat);
    }
    acc
}

/// Reads an unsigned LEB128 integer at the front of `bytes`: its value and
/// the number of bytes it takes.
pub fn parse_unsigned_leb128(bytes: &[u8]) -> (r: Result<(u64, usize), Error>)
    ensures
        match r {
            Ok((v, n)) => uleb_decode(bytes@) == Ok::<(u64, nat), Error>((v, n as nat)),
            Err(e) => uleb_decode(bytes@) == Err::<(u64, nat), Error>(e),
        },
{
    match leb_length(bytes) {
        None => {
            if bytes.len() < LEB128_MAX_BYTES {
                Err(Error::EndOfData)
            } else {
                Err(Error::IntSizeViolation)
            }
        },
        Some(n) => {
            let groups = groups_value(bytes, n);
            if groups <= u64::MAX as u128 {
                Ok((groups as u64, n))
            } else {
                Err(Error::IntSizeViolation)
            }
        },
    }
}

/// Reads a signed LEB128 integer at the front of `bytes`: its value and the
/// number of bytes it takes.
pub fn parse_signed_leb128(bytes: &[u8]) -> (r: Result<(i64, usize), Error>)
    ensures
        match r {
            Ok((v, n)) => sleb_decode(bytes@) == Ok::<(i64, nat), Error>((v, n as nat)),
            Err(e) => sleb_decode(bytes@) == Err::<(i64, nat), Error>(e),
        },
{
    match leb_length(bytes) {
        None => {
            if bytes.len() < LEB128_MAX_BYTES {
                Err(Error::EndOfData)
            } else {
                Err(Error::IntSizeViolation)
            }
        },
        Some(n) => {
            let groups = groups_value(bytes, n);
            proof {
                lemma_pow128_monotone(n as nat, 10);
                reveal_with_fuel(pow128, 11);
            }
            let value: i128 = if bytes[n - 1] % 128 >= 64 {
                let mut p: u128 = 1;
                let mut k: usize = 0;
                while k < n
                    invariant
                        k <= n,
                        n <= LEB128_MAX_BYTES,
                        p == pow128(k as nat),
                    decreases n - k,
                {
                    proof {
                        lemma_pow128_monotone(k as nat, 9);
                        reveal_with_fuel(pow128, 10);
                    }
                    p = p * 128;
                    k = k + 1;
                }
                groups as i128 - p as i128
            } else {
                groups as i128
            };
            if i64::MIN as i128 <= value && value <= i64::MAX as i128 {
                Ok((value as i64, n))
            } else {
                Err(Error::IntSizeViolation)
            }
        },
    }
}

// ---------------------------------------------------------------------------
// Encoding, and the round trip
// ---------------------------------------------------------------------------

/// The shortest unsigned LEB128 encoding of `v`.
pub open spec fn uleb_encode(v: nat) -> Seq<u8>
    decreases v,
{
    if v < 128 {
        seq![v as u8]
    } else {
        seq![(v % 128 + 128) as u8] + uleb_encode(v / 128)
    }
}

/// The shortest signed LEB128 encoding of `v`.
pub open spec fn sleb_encode(v: int) -> Seq<u8>
    decreases vstd::math::abs(v),
{
    if -64 <= v < 64 {
        seq![(v % 128) as u8]
    } else {
        seq![(v % 128 + 128) as u8] + sleb_encode(v / 128)
    }
}

/// Whether every byte of `e` but the last carries the continuation bit and
/// the last does not.
pub open spec fn continuation_shape(e: Seq<u8>) -> bool {
    &&& e.len() >= 1
    &&& e[e.len() - 1] < 128
    &&& forall|j: int| 0 <= j < e.len() - 1 ==> e[j] >= 128
}

proof fn lemma_groups_shift(b: u8, t: Seq<u8>, i: int, n: nat)
    requires
        0 <= i,
        i + n <= t.len(),
    ensures
        leb_groups(seq![b] + t, i + 1, n) == leb_groups(t, i, n),
    decreases n,
{
    if n > 0 {
        lemma_groups_shift(b, t, i + 1, (n - 1) as nat);
        assert((seq![b] + t)[i + 1] == t[i]);
    }
}

proof fn lemma_length_from_shape(e: Seq<u8>, i: nat)
    requires
        continuation_shape(e),
        e.len() <= LEB128_MAX_BYTES,
        i < e.len(),
    ensures
        leb_length_from(e, i) == Some(e.len()),
    decreases e.len() - i,
{
    if i + 1 < e.len() {
        lemma_length_from_shape(e, i + 1);
    }
}

proof fn lemma_shape_prepend(b: u8, t: Seq<u8>)
    requires
        continuation_shape(t),
        b >= 128,
    ensures
        continuation_shape(seq![b] + t),
{
    let e = seq![b] + t;
    assert forall|j: int| 0 <= j < e.len() - 1 implies e[j] >= 128 by {
        if j > 0 {
            assert(e[j] == t[j - 1]);
        }
    }
}

proof fn lemma_uleb_encode_facts(v: nat, k: nat)
    requires
        k >= 1,
        v < pow128(k),
    ensures
        continuation_shape(uleb_encode(v)),
        uleb_encode(v).len() <= k,
        leb_groups(uleb_encode(v), 0, uleb_encode(v).len()) == v,
    decreases v,
{
    let e = uleb_encode(v);
    if v < 128 {
        assert(leb_groups(e, 1, 0) == 0);
    } else {
        let t = uleb_encode(v / 128);
        let b = (v % 128 + 128) as u8;
        assert(pow128(k) == 128 * pow128((k - 1) as nat));
        assert(v / 128 < pow128((k - 1) as nat)) by (nonlinear_arith)
            requires
                v < 128 * pow128((k - 1) as nat),
        ;
        if k == 1 {
            assert(pow128(0) == 1);
        }
        lemma_uleb_encode_facts(v / 128, (k - 1) as nat);
        lemma_shape_prepend(b, t);
        lemma_groups_shift(b, t, 0, t.len());
        assert(e == seq![b] + t);
        assert(e[0] == b);
    }
}

proof fn lemma_sleb_encode_facts(v: int, k: nat)
    requires
        k >= 1,
        -64 * pow128((k - 1) as nat) <= v < 64 * pow128((k - 1) as nat),
    ensures
        continuation_shape(sleb_encode(v)),
        sleb_encode(v).len() <= k,
        leb_groups(sleb_encode(v), 0, sleb_encode(v).len()) == v + if v < 0 {
            pow128(sleb_encode(v).len())
        } else {
            0
        },
        (sleb_encode(v)[sleb_encode(v).len() - 1] % 128 >= 64) == (v < 0),
    decreases vstd::math::abs(v),
{
    let e = sleb_encode(v);
    if -64 <= v < 64 {
        assert(leb_groups(e, 1, 0) == 0);
        reveal_with_fuel(pow128, 2);
    } else {
        let w = v / 128;
        let t = sleb_encode(w);
        let b = (v % 128 + 128) as u8;
        let p = pow128((k - 2) as nat);
        if k == 1 {
            assert(pow128(0) == 1);
            assert(false);
        }
        assert(pow128((k - 1) as nat) == 128 * p);
        vstd::arithmetic::div_mod::lemma_fundamental_div_mod(v, 128);
        assert(-64 * p <= w < 64 * p) by (nonlinear_arith)
            requires
                -64 * (128 * p) <= v < 64 * (128 * p),
                v == 128 * w + v % 128,
                0 <= v % 128 < 128,
        ;
        assert(vstd::math::abs(w) < vstd::math::abs(v)) by (nonlinear_arith)
            requires
                v == 128 * w + v % 128,
                0 <= v % 128 < 128,
                v < -64 || v >= 64,
        ;
        lemma_sleb_encode_facts(w, (k - 1) as nat);
        lemma_shape_prepend(b, t);
        lemma_groups_shift(b, t, 0, t.len());
        assert(e == seq![b] + t);
        assert(e[0] == b);
        assert(e[e.len() - 1] == t[t.len() - 1]);
        assert((w < 0) == (v < 0)) by (nonlinear_arith)
            requires
                v == 128 * w + v % 128,
                0 <= v % 128 < 128,
        ;
        assert(pow128(e.len()) == 128 * pow128(t.len()));
    }
}

/// Decoding the unsigned LEB128 encoding of any 64-bit value gives back the
/// value, and reads the whole encoding.
pub proof fn lemma_uleb_round_trip(v: u64)
    ensures
        uleb_decode(uleb_encode(v as nat)) == Ok::<(u64, nat), Error>(
            (v, uleb_encode(v as nat).len()),
        ),
{
    reveal_with_fuel(pow128, 11);
    lemma_uleb_encode_facts(v as nat, 10);
    lemma_length_from_shape(uleb_encode(v as nat), 0);
}

/// Decoding the signed LEB128 encoding of any 64-bit value gives back the
/// value, and reads the whole encoding.
pub proof fn lemma_sleb_round_trip(v: i64)
    ensures
        sleb_decode(sleb_encode(v as int)) == Ok::<(i64, nat), Error>(
            (v, sleb_encode(v as int).len()),
        ),
{
    reveal_with_fuel(pow128, 11);
    lemma_sleb_encode_facts(v as int, 10);
    lemma_length_from_shape(sleb_encode(v as int), 0);
}

} // verus!
