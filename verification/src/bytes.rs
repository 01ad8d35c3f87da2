//! Big-endian numbers, as they travel on the wire and as identifiers are ordered.

use vstd::prelude::*;

verus! {

/// The number that a byte string spells in base 256, most significant byte first.
pub open spec fn be_nat(s: Seq<u8>) -> nat
    decreases s.len(),
{
    if s.len() == 0 {
        0
    } else {
        be_nat(s.drop_last()) * 256 + s.last() as nat
    }
}

/// How many numbers fit in `n` bytes.
pub open spec fn radix(n: nat) -> nat
    decreases n,
{
    if n == 0 {
        1
    } else {
        radix((n - 1) as nat) * 256
    }
}

/// The first position at which two byte strings of one length differ decides their
/// order, as it does for Rust's arrays.
pub open spec fn lex_less(a: Seq<u8>, b: Seq<u8>) -> bool {
    exists|i: int|
        0 <= i < a.len() && a[i] < b[i] && forall|j: int| 0 <= j < i ==> a[j] == b[j]
}

proof fn lemma_radix_monotonic(m: nat, n: nat)
    requires
        m <= n,
    ensures
        radix(m) <= radix(n),
    decreases n,
{
    if m < n {
        lemma_radix_monotonic(m, (n - 1) as nat);
    }
}

/// The widths in use: one, four, eight and sixteen bytes.
pub proof fn lemma_radix_values()
    ensures
        radix(1) == 0x100,
        radix(4) == 0x1_0000_0000,
        radix(8) == 0x1_0000_0000_0000_0000,
        radix(16) == 0x1_0000_0000_0000_0000_0000_0000_0000_0000,
{
    reveal_with_fuel(radix, 17);
}

/// A byte string of length `n` spells a number below `radix(n)`.
pub proof fn lemma_be_nat_bound(s: Seq<u8>)
    ensures
        be_nat(s) < radix(s.len()),
    decreases s.len(),
{
    if s.len() > 0 {
        lemma_be_nat_bound(s.drop_last());
    }
}

proof fn lemma_be_nat_prepend(b: u8, s: Seq<u8>)
    ensures
        be_nat(seq![b] + s) == b * radix(s.len()) + be_nat(s),
    decreases s.len(),
{
    let whole = seq![b] + s;
    if s.len() == 0 {
        assert(whole.drop_last() =~= Seq::<u8>::empty());
        assert(be_nat(whole.drop_last()) == 0);
        assert(whole.last() == b);
        assert(radix(s.len()) == 1);
        assert(b * 1 == b);
    } else {
        lemma_be_nat_prepend(b, s.drop_last());
        assert(whole.drop_last() =~= seq![b] + s.drop_last());
        assert(whole.last() == s.last());
        let r = radix((s.len() - 1) as nat);
        let front = be_nat(s.drop_last());
        assert(radix(s.len()) == r * 256);
        assert((b * r + front) * 256 == b * (r * 256) + front * 256) by (nonlinear_arith);
        assert(be_nat(whole.drop_last()) == b * r + front);
    }
}

/// The `width` bytes that spell a number, most significant first. Of a number that
/// does not fit, the leading digits are left out.
pub open spec fn be_bytes(value: nat, width: nat) -> Seq<u8>
    decreases width,
{
    if width == 0 {
        Seq::empty()
    } else {
        be_bytes(value / 256, (width - 1) as nat).push((value % 256) as u8)
    }
}

/// Writing a number and reading it back gives the number.
pub proof fn lemma_be_bytes_read_back(value: nat, width: nat)
    requires
        value < radix(width),
    ensures
        be_bytes(value, width).len() == width,
        be_nat(be_bytes(value, width)) == value,
    decreases width,
{
    if width > 0 {
        let front = be_bytes(value / 256, (width - 1) as nat);
        lemma_be_bytes_read_back(value / 256, (width - 1) as nat);
        assert(be_bytes(value, width).drop_last() =~= front);
    }
}

/// Reading bytes and writing the number back gives the bytes.
pub proof fn lemma_be_nat_write_back(bytes: Seq<u8>)
    ensures
        be_bytes(be_nat(bytes), bytes.len()) == bytes,
{
    lemma_be_nat_bound(bytes);
    lemma_be_bytes_read_back(be_nat(bytes), bytes.len());
    lemma_be_nat_injective(be_bytes(be_nat(bytes), bytes.len()), bytes);
}

/// Two byte strings of one length that spell the same number are the same string.
pub proof fn lemma_be_nat_injective(a: Seq<u8>, b: Seq<u8>)
    requires
        a.len() == b.len(),
        be_nat(a) == be_nat(b),
    ensures
        a == b,
    decreases a.len(),
{
    if a.len() > 0 {
        lemma_be_nat_injective(a.drop_last(), b.drop_last());
        assert forall|i: int| 0 <= i < a.len() implies a[i] == b[i] by {
            if i < a.len() - 1 {
                assert(a.drop_last()[i] == b.drop_last()[i]);
            }
        }
    }
    assert(a =~= b);
}

/// Byte strings of one length are ordered as the numbers that they spell: comparing
/// two of them byte by byte from the front is comparing the numbers.
pub proof fn lemma_be_nat_order(a: Seq<u8>, b: Seq<u8>)
    requires
        a.len() == b.len(),
    ensures
        lex_less(a, b) <==> be_nat(a) < be_nat(b),
    decreases a.len(),
{
    if a.len() > 0 {
        let (x, y) = (a.drop_last(), b.drop_last());
        let last = a.len() - 1;
        lemma_be_nat_order(x, y);
        if lex_less(a, b) {
            let i = choose|i: int|
                0 <= i < a.len() && a[i] < b[i] && forall|j: int| 0 <= j < i ==> a[j] == b[j];
            if i < last {
                assert(x[i] < y[i] && forall|j: int| 0 <= j < i ==> x[j] == y[j]);
                assert(lex_less(x, y));
            } else {
                assert(x =~= y);
            }
        }
        if be_nat(a) < be_nat(b) {
            if be_nat(x) < be_nat(y) {
                let i = choose|i: int|
                    0 <= i < x.len() && x[i] < y[i] && forall|j: int| 0 <= j < i ==> x[j] == y[j];
                assert(a[i] < b[i]);
                assert forall|j: int| 0 <= j < i implies a[j] == b[j] by {
                    assert(x[j] == y[j]);
                }
                assert(lex_less(a, b));
            } else {
                lemma_be_nat_injective(x, y);
                assert forall|j: int| 0 <= j < last implies a[j] == b[j] by {
                    assert(x[j] == y[j]);
                }
                assert(a[last] < b[last]);
                assert(lex_less(a, b));
            }
        }
    }
}

/// Reads a big-endian number of up to sixteen bytes.
pub fn decode_be(bytes: &[u8]) -> (value: u128)
    requires
        bytes@.len() <= 16,
    ensures
        value == be_nat(bytes@),
        value < radix(bytes@.len()),
{
    let mut value: u128 = 0;
    let mut i: usize = 0;
    while i < bytes.len()
        invariant
            i <= bytes@.len() <= 16,
            value == be_nat(bytes@.take(i as int)),
        decreases bytes@.len() - i,
    {
        proof {
            let next = bytes@.take(i + 1);
            assert(next.drop_last() =~= bytes@.take(i as int));
            assert(next.last() == bytes@[i as int]);
            lemma_be_nat_bound(next);
            lemma_radix_monotonic((i + 1) as nat, 16);
            lemma_radix_values();
        }
        value = value * 256 + bytes[i] as u128;
        i = i + 1;
    }
    proof {
        assert(bytes@.take(i as int) =~= bytes@);
        lemma_be_nat_bound(bytes@);
    }
    value
}

/// Writes a number as `width` big-endian bytes.
pub fn encode_be(value: u128, width: usize) -> (bytes: Vec<u8>)
    requires
        width <= 16,
        value < radix(width as nat),
    ensures
        bytes@ == be_bytes(value as nat, width as nat),
        bytes@.len() == width,
        be_nat(bytes@) == value,
{
    let mut bytes: Vec<u8> = Vec::new();
    let mut rest: u128 = value;
    proof {
        assert(radix(0) == 1);
        assert(be_nat(bytes@) == 0);
        assert(value * 1 == value);
    }
    while bytes.len() < width
        invariant
            bytes@.len() <= width <= 16,
            rest < radix((width - bytes@.len()) as nat),
            value == rest * radix(bytes@.len()) + be_nat(bytes@),
        decreases width - bytes@.len(),
    {
        let low: u8 = (rest % 256) as u8;
        let ghost before = bytes@;
        let ghost whole: int = rest as int;
        bytes.insert(0, low);
        rest = rest / 256;
        proof {
            assert(bytes@ =~= seq![low] + before);
            lemma_be_nat_prepend(low, before);
            let r = radix(before.len());
            assert(whole == rest * 256 + low);
            assert((rest * 256 + low) * r == rest * (r * 256) + low * r) by (nonlinear_arith);
            assert(radix(bytes@.len()) == r * 256);
        }
    }
    proof {
        assert(radix(0) == 1);
        assert(rest == 0);
        assert(0 * radix(width as nat) == 0);
        lemma_be_nat_write_back(bytes@);
    }
    bytes
}

/// Writes a 64-bit number as eight big-endian bytes.
pub fn encode_u64(value: u64) -> (bytes: Vec<u8>)
    ensures
        bytes@ == be_bytes(value as nat, 8),
        bytes@.len() == 8,
        be_nat(bytes@) == value,
{
    proof {
        lemma_radix_values();
    }
    encode_be(value as u128, 8)
}

/// Reads a 64-bit number from eight big-endian bytes.
pub fn decode_u64(bytes: &[u8]) -> (value: u64)
    requires
        bytes@.len() == 8,
    ensures
        value == be_nat(bytes@),
{
    proof {
        lemma_radix_values();
    }
    decode_be(bytes) as u64
}

/// Writes a 32-bit number as four big-endian bytes.
pub fn encode_u32(value: u32) -> (bytes: Vec<u8>)
    ensures
        bytes@ == be_bytes(value as nat, 4),
        bytes@.len() == 4,
        be_nat(bytes@) == value,
{
    proof {
        lemma_radix_values();
    }
    encode_be(value as u128, 4)
}

/// Reads a 32-bit number from four big-endian bytes.
pub fn decode_u32(bytes: &[u8]) -> (value: u32)
    requires
        bytes@.len() == 4,
    ensures
        value == be_nat(bytes@),
{
    proof {
        lemma_radix_values();
    }
    decode_be(bytes) as u32
}

} // verus!
