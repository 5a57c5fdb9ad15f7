//! CRC-32C (Castagnoli), reflected, with all-ones on both ends.

use vstd::prelude::*;

verus! {

/// The reflected Castagnoli polynomial.
pub const POLYNOMIAL: u32 = 0x82F6_3B78;

/// One bit of the shift register.
pub open spec fn shift(c: u32) -> u32 {
    if c & 1 == 1 {
        (c >> 1) ^ POLYNOMIAL
    } else {
        c >> 1
    }
}

/// `n` bits of the shift register.
pub open spec fn shifts(c: u32, n: nat) -> u32
    decreases n,
{
    if n == 0 {
        c
    } else {
        shift(shifts(c, (n - 1) as nat))
    }
}

/// The register after `data`, from the register `c`.
pub open spec fn register(c: u32, data: Seq<u8>) -> u32
    decreases data.len(),
{
    if data.len() == 0 {
        c
    } else {
        shifts(register(c, data.drop_last()) ^ (data.last() as u32), 8)
    }
}

/// The checksum of `data` continued from `seed`; a checksum starts at seed 0.
pub open spec fn checksum(seed: u32, data: Seq<u8>) -> u32 {
    !register(!seed, data)
}

/// The register is linear in its bits: shifting is division by the polynomial, bit by bit. An
/// even register is halved, and a last bit of one leaves the polynomial.
pub proof fn lemma_shifting_is_linear(a: u32, b: u32)
    ensures
        shift(a ^ b) == shift(a) ^ shift(b),
        shift(1) == 0x82F6_3B78,
        a % 2 == 0 ==> shift(a) == a / 2,
{
    let p = POLYNOMIAL;
    assert((if (a ^ b) & 1 == 1 {
        ((a ^ b) >> 1) ^ p
    } else {
        (a ^ b) >> 1
    }) == (if a & 1 == 1 {
        (a >> 1) ^ p
    } else {
        a >> 1
    }) ^ (if b & 1 == 1 {
        (b >> 1) ^ p
    } else {
        b >> 1
    })) by (bit_vector);
    assert(1u32 & 1 == 1 && (1u32 >> 1) ^ 0x82F6_3B78 == 0x82F6_3B78) by (bit_vector);
    assert(a % 2 == 0 ==> a & 1 != 1 && a >> 1 == a / 2) by (bit_vector);
}

/// A byte goes through the register bit by bit: eight shifts for each, and one byte after the
/// other.
pub proof fn lemma_a_byte_is_eight_shifts(seed: u32, b: u8)
    ensures
        checksum(seed, seq![b]) == !shift(
            shift(shift(shift(shift(shift(shift(shift(!seed ^ (b as u32)))))))),
        ),
        checksum(seed, Seq::empty()) == seed,
{
    reveal_with_fuel(shifts, 9);
    assert(seq![b].drop_last() =~= Seq::empty());
    assert(register(!seed, Seq::empty()) == !seed);
    assert(!(!seed) == seed) by (bit_vector);
}

/// Feeding one result in as the next seed checksums the concatenation.
pub proof fn lemma_checksum_concatenates(seed: u32, a: Seq<u8>, b: Seq<u8>)
    ensures
        checksum(checksum(seed, a), b) == checksum(seed, a + b),
{
    let r = register(!seed, a);
    assert(!(!r) == r) by (bit_vector);
    lemma_register_concatenates(!seed, a, b);
}

proof fn lemma_register_concatenates(c: u32, a: Seq<u8>, b: Seq<u8>)
    ensures
        register(register(c, a), b) == register(c, a + b),
    decreases b.len(),
{
    if b.len() == 0 {
        assert(a + b =~= a);
    } else {
        lemma_register_concatenates(c, a, b.drop_last());
        assert((a + b).drop_last() =~= a + b.drop_last());
    }
}

proof fn lemma_shifts_injective(x: u32, y: u32, n: nat)
    requires
        shifts(x, n) == shifts(y, n),
    ensures
        x == y,
    decreases n,
{
    if n > 0 {
        let p = shifts(x, (n - 1) as nat);
        let q = shifts(y, (n - 1) as nat);
        assert(p == q) by (bit_vector)
            requires
                (if p & 1 == 1 {
                    (p >> 1) ^ 0x82F6_3B78u32
                } else {
                    p >> 1
                }) == (if q & 1 == 1 {
                    (q >> 1) ^ 0x82F6_3B78u32
                } else {
                    q >> 1
                }),
        ;
        lemma_shifts_injective(x, y, (n - 1) as nat);
    }
}

proof fn lemma_register_injective(x: u32, y: u32, data: Seq<u8>)
    requires
        register(x, data) == register(y, data),
    ensures
        x == y,
    decreases data.len(),
{
    if data.len() > 0 {
        let p = register(x, data.drop_last());
        let q = register(y, data.drop_last());
        let b = data.last() as u32;
        lemma_shifts_injective(p ^ b, q ^ b, 8);
        assert(p == q) by (bit_vector)
            requires
                p ^ b == q ^ b,
        ;
        lemma_register_injective(x, y, data.drop_last());
    }
}

/// Changing exactly one byte always changes the checksum.
pub proof fn lemma_one_changed_byte_is_seen(seed: u32, data: Seq<u8>, at: int, b: u8)
    requires
        0 <= at < data.len(),
        data[at] != b,
    ensures
        checksum(seed, data.update(at, b)) != checksum(seed, data),
{
    let head = data.take(at);
    let tail = data.skip(at + 1);
    let one = seq![data[at]];
    let two = seq![b];
    let r = register(!seed, head);
    assert(data =~= head + one + tail);
    assert(data.update(at, b) =~= head + two + tail);
    lemma_register_concatenates(!seed, head, one);
    lemma_register_concatenates(!seed, head + one, tail);
    lemma_register_concatenates(!seed, head, two);
    lemma_register_concatenates(!seed, head + two, tail);
    let x = register(r, one);
    let y = register(r, two);
    if register(x, tail) == register(y, tail) {
        lemma_register_injective(x, y, tail);
        assert(one.drop_last() =~= Seq::<u8>::empty());
        assert(two.drop_last() =~= Seq::<u8>::empty());
        let p = data[at];
        assert(register(r, one.drop_last()) == r);
        assert(register(r, two.drop_last()) == r);
        lemma_shifts_injective(r ^ (p as u32), r ^ (b as u32), 8);
        assert(p == b) by (bit_vector)
            requires
                r ^ (p as u32) == r ^ (b as u32),
        ;
    }
    let u = register(!seed, data);
    let w = register(!seed, data.update(at, b));
    if !u == !w {
        assert(u == w) by (bit_vector)
            requires
                !u == !w,
        ;
    }
}

/// CRC-32C of `data`, continued from `seed`. A plain checksum takes seed 0.
pub fn crc32c(seed: u32, data: &[u8]) -> (crc: u32)
    ensures
        crc == checksum(seed, data@),
{
    let mut c: u32 = !seed;
    let mut i: usize = 0;
    assert(data@.take(0) =~= Seq::<u8>::empty());
    while i < data.len()
        invariant
            i <= data@.len(),
            c == register(!seed, data@.take(i as int)),
        decreases data@.len() - i,
    {
        let ghost before = c;
        c = c ^ (data[i] as u32);
        let ghost start = c;
        let mut k: u32 = 0;
        while k < 8
            invariant
                k <= 8,
                c == shifts(start, k as nat),
            decreases 8 - k,
        {
            c = if c & 1 == 1 {
                (c >> 1) ^ POLYNOMIAL
            } else {
                c >> 1
            };
            k = k + 1;
        }
        proof {
            let next = data@.take(i + 1);
            assert(next.drop_last() =~= data@.take(i as int));
        }
        i = i + 1;
    }
    assert(data@.take(i as int) =~= data@);
    !c
}

} // verus!
