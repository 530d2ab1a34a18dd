//! Integers as byte strings: the form in which identities, versions, keys,
//! descriptors and statuses travel in an event's `data` and `meta`. All of
//! them are little-endian.
use vstd::prelude::*;

verus! {

/// The value of a little-endian byte string.
pub open spec fn le_value(s: Seq<u8>) -> nat
    decreases s.len(),
{
    if s.len() == 0 {
        0
    } else {
        s[0] as nat + 256 * le_value(s.skip(1))
    }
}

/// The `n` low bytes of `v`, least significant first.
pub open spec fn le_bytes(v: nat, n: nat) -> Seq<u8>
    decreases n,
{
    if n == 0 {
        Seq::empty()
    } else {
        seq![(v % 256) as u8] + le_bytes(v / 256, (n - 1) as nat)
    }
}

/// 256 to the power `n`.
pub open spec fn pow256(n: nat) -> nat
    decreases n,
{
    if n == 0 {
        1
    } else {
        256 * pow256((n - 1) as nat)
    }
}

/// The unsigned 32-bit pattern of an `i32`.
pub open spec fn i32_bits(x: i32) -> nat {
    if x >= 0 {
        x as nat
    } else {
        (x + 0x1_0000_0000) as nat
    }
}

/// The `i32` whose bit pattern is the given 32-bit value.
pub open spec fn i32_of_bits(v: nat) -> int {
    if v >= 0x8000_0000 {
        v - 0x1_0000_0000
    } else {
        v as int
    }
}

/// The four bytes of an `i32`.
pub open spec fn i32_bytes(x: i32) -> Seq<u8> {
    le_bytes(i32_bits(x), 4)
}

/// The sixteen bytes of a `u128`.
pub open spec fn u128_bytes(x: u128) -> Seq<u8> {
    le_bytes(x as nat, 16)
}

/// Reading back the low `n` bytes of a value below `256^n` gives the value.
pub proof fn lemma_le_round_trip(v: nat, n: nat)
    requires
        v < pow256(n),
    ensures
        le_bytes(v, n).len() == n,
        le_value(le_bytes(v, n)) == v,
    decreases n,
{
    if n == 0 {
    } else {
        let p = pow256((n - 1) as nat);
        assert(v / 256 < p) by (nonlinear_arith)
            requires v < 256 * p;
        lemma_le_round_trip(v / 256, (n - 1) as nat);
        let s = le_bytes(v, n);
        assert(s.skip(1) =~= le_bytes(v / 256, (n - 1) as nat));
        assert(v == v % 256 + 256 * (v / 256)) by (nonlinear_arith);
    }
}

/// The integer bytes of `i32` values read back to the values.
pub proof fn lemma_i32_round_trip(x: i32)
    ensures
        i32_bytes(x).len() == 4,
        i32_of_bits(le_value(i32_bytes(x))) == x,
{
    reveal_with_fuel(pow256, 5);
    assert(pow256(4) == 0x1_0000_0000);
    lemma_le_round_trip(i32_bits(x), 4);
}

/// The integer bytes of `u128` values read back to the values.
pub proof fn lemma_u128_round_trip(x: u128)
    ensures
        u128_bytes(x).len() == 16,
        le_value(u128_bytes(x)) == x,
{
    reveal_with_fuel(pow256, 17);
    assert(pow256(16) == 0x1_0000_0000_0000_0000_0000_0000_0000_0000);
    lemma_le_round_trip(x as nat, 16);
}

/// A byte string did not have the length of the integer read from it.
#[derive(Clone, Copy, Debug, PartialEq, Eq, Structural)]
pub struct SliceLenError {
    pub expected: usize,
    pub found: usize,
}

/// `256^k` grows with `k`.
proof fn lemma_pow256_mono(a: nat, b: nat)
    requires
        a <= b,
    ensures
        pow256(a) <= pow256(b),
        pow256(a) >= 1,
    decreases b,
{
    if a == b {
        if b > 0 {
            lemma_pow256_mono((b - 1) as nat, (b - 1) as nat);
        }
    } else {
        lemma_pow256_mono(a, (b - 1) as nat);
    }
}

/// The little-endian value of at most sixteen bytes.
fn le_read(bytes: &[u8]) -> (r: u128)
    requires
        bytes@.len() <= 16,
    ensures
        r as nat == le_value(bytes@),
{
    let n = bytes.len();
    let mut acc: u128 = 0;
    let mut i: usize = n;
    assert(bytes@.skip(n as int) =~= Seq::<u8>::empty());
    while i > 0
        invariant
            i <= n,
            n == bytes@.len(),
            n <= 16,
            acc as nat == le_value(bytes@.skip(i as int)),
            (acc as nat) < pow256((n - i) as nat),
        decreases i,
    {
        let b = bytes[i - 1];
        proof {
            let k = (n - i) as nat;
            lemma_pow256_mono(k + 1, 16);
            reveal_with_fuel(pow256, 17);
            assert(pow256(16) == 0x1_0000_0000_0000_0000_0000_0000_0000_0000);
            assert(pow256(k + 1) == 256 * pow256(k));
            assert((acc as nat) * 256 + (b as nat) < 256 * pow256(k)) by (nonlinear_arith)
                requires
                    (acc as nat) < pow256(k),
                    (b as nat) < 256,
            ;
            assert(bytes@.skip(i - 1).skip(1) =~= bytes@.skip(i as int));
            assert(bytes@.skip(i - 1)[0] == b);
        }
        acc = acc * 256 + b as u128;
        i -= 1;
    }
    assert(bytes@.skip(0) =~= bytes@);
    acc
}

/// The `i32` whose little-endian bytes these are.
fn i32_read(bytes: &[u8]) -> (r: i32)
    requires
        bytes@.len() == 4,
    ensures
        r as int == i32_of_bits(le_value(bytes@)),
{
    let v = le_read(bytes);
    proof {
        reveal_with_fuel(pow256, 5);
        lemma_le_bound(bytes@);
        assert(pow256(4) == 0x1_0000_0000);
    }
    if v >= 0x8000_0000 {
        ((v as i64) - 0x1_0000_0000) as i32
    } else {
        v as i32
    }
}

/// A byte string's value is below `256^length`.
proof fn lemma_le_bound(s: Seq<u8>)
    ensures
        le_value(s) < pow256(s.len()),
    decreases s.len(),
{
    if s.len() > 0 {
        lemma_le_bound(s.skip(1));
        assert(le_value(s) < pow256(s.len())) by (nonlinear_arith)
            requires
                le_value(s) == s[0] as nat + 256 * le_value(s.skip(1)),
                le_value(s.skip(1)) < pow256((s.len() - 1) as nat),
                pow256(s.len()) == 256 * pow256((s.len() - 1) as nat),
                (s[0] as nat) < 256,
        ;
    }
}

/// The `n` low bytes of `x`, least significant first.
fn low_bytes(x: u128, n: usize) -> (r: Vec<u8>)
    requires
        n <= 16,
    ensures
        r@ == le_bytes(x as nat, n as nat),
{
    let mut r: Vec<u8> = Vec::new();
    let mut v: u128 = x;
    let mut i: usize = 0;
    assert(r@ + le_bytes(v as nat, n as nat) =~= le_bytes(x as nat, n as nat));
    while i < n
        invariant
            i <= n,
            r@ + le_bytes(v as nat, (n - i) as nat) == le_bytes(x as nat, n as nat),
        decreases n - i,
    {
        let ghost prev = r@;
        let b: u8 = (v % 256) as u8;
        r.push(b);
        proof {
            let rest = le_bytes((v / 256) as nat, (n - i - 1) as nat);
            assert(le_bytes(v as nat, (n - i) as nat) == seq![((v as nat) % 256) as u8] + rest);
            assert((v / 256) as nat == (v as nat) / 256);
            assert(r@ + rest =~= prev + le_bytes(v as nat, (n - i) as nat));
        }
        v = v / 256;
        i += 1;
    }
    r
}

/// The sixteen bytes of a `u128`, least significant first.
pub fn u128_to_bytes(x: u128) -> (r: Vec<u8>)
    ensures
        r@ == u128_bytes(x),
{
    low_bytes(x, 16)
}

/// The four bytes of an `i32`'s two's complement pattern, least
/// significant first.
pub fn i32_to_bytes(x: i32) -> (r: Vec<u8>)
    ensures
        r@ == i32_bytes(x),
{
    let bits: u128 = if x >= 0 {
        x as u128
    } else {
        ((x as i64) + 0x1_0000_0000) as u128
    };
    assert(bits as nat == i32_bits(x));
    low_bytes(bits, 4)
}

/// Reads a one-byte string.
pub fn u8_from_ne_bytes(bytes: &[u8]) -> (r: Result<u8, SliceLenError>)
    ensures
        bytes@.len() == 1 ==> r == Ok::<u8, SliceLenError>(bytes@[0]),
        bytes@.len() != 1 ==> r == Err::<u8, SliceLenError>(
            SliceLenError { expected: 1, found: bytes@.len() as usize },
        ),
{
    if bytes.len() == 1 {
        Ok(bytes[0])
    } else {
        Err(SliceLenError { expected: 1, found: bytes.len() })
    }
}

/// Reads a sixteen-byte little-endian string.
pub fn u128_from_ne_bytes(bytes: &[u8]) -> (r: Result<u128, SliceLenError>)
    ensures
        bytes@.len() == 16 ==> (r matches Ok(v) && v as nat == le_value(bytes@)),
        bytes@.len() != 16 ==> r == Err::<u128, SliceLenError>(
            SliceLenError { expected: 16, found: bytes@.len() as usize },
        ),
{
    if bytes.len() == 16 {
        Ok(le_read(bytes))
    } else {
        Err(SliceLenError { expected: 16, found: bytes.len() })
    }
}

/// Reads a four-byte little-endian string as an `i32`.
pub fn i32_from_ne_bytes(bytes: &[u8]) -> (r: Result<i32, SliceLenError>)
    ensures
        bytes@.len() == 4 ==> (r matches Ok(v) && v as int == i32_of_bits(le_value(bytes@))),
        bytes@.len() != 4 ==> r == Err::<i32, SliceLenError>(
            SliceLenError { expected: 4, found: bytes@.len() as usize },
        ),
{
    if bytes.len() == 4 {
        Ok(i32_read(bytes))
    } else {
        Err(SliceLenError { expected: 4, found: bytes.len() })
    }
}

/// The `u128` that a byte string holds, if it has sixteen bytes.
pub open spec fn u128_of(s: Seq<u8>) -> Option<u128> {
    if s.len() == 16 {
        Some(le_value(s) as u128)
    } else {
        None
    }
}

/// The `i32` that a byte string holds, if it has four bytes.
pub open spec fn i32_of(s: Seq<u8>) -> Option<i32> {
    if s.len() == 4 {
        Some(i32_of_bits(le_value(s)) as i32)
    } else {
        None
    }
}

/// The bytes of a `u128` read back to it.
pub proof fn lemma_u128_of_bytes(x: u128)
    ensures
        u128_of(u128_bytes(x)) == Some(x),
{
    lemma_u128_round_trip(x);
}

/// The bytes of an `i32` read back to it.
pub proof fn lemma_i32_of_bytes(x: i32)
    ensures
        i32_of(i32_bytes(x)) == Some(x),
{
    lemma_i32_round_trip(x);
}

} // verus!
