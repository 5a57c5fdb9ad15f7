//! Canonical variable-length integers, seven bits a byte, low group first.

use vstd::prelude::*;

verus! {

/// Longest encoding of a 32-bit value.
pub const MAX_LEN_32: usize = 5;

/// Longest encoding of a 64-bit value.
pub const MAX_LEN_64: usize = 10;

/// Why bytes are not a canonical varint of the wanted width.
#[derive(Debug, Clone, Copy, PartialEq, Eq, Structural)]
pub enum VarintError {
    /// The bytes end before the last group.
    Truncated,
    /// The value does not fit the width.
    Overflow,
    /// A shorter encoding of the same value exists.
    NonCanonical,
}

/// The one encoding of `v`.
pub open spec fn encode(v: nat) -> Seq<u8>
    decreases v,
{
    if v < 128 {
        seq![v as u8]
    } else {
        seq![(v % 128 + 128) as u8] + encode(v / 128)
    }
}

/// How many bytes at the front of `s` say that another follows.
pub open spec fn continued(s: Seq<u8>) -> nat
    decreases s.len(),
{
    if s.len() == 0 || s[0] < 128 {
        0
    } else {
        1 + continued(s.skip(1))
    }
}

/// The number that the low seven bits of the bytes of `s` spell.
pub open spec fn groups(s: Seq<u8>) -> nat
    decreases s.len(),
{
    if s.len() == 0 {
        0
    } else {
        s[0] as nat % 128 + 128 * groups(s.skip(1))
    }
}

/// What reading a varint of at most `max_len` bytes and at most `max` at the front of `s`
/// gives: the value and its length, or the reason why there is none.
pub open spec fn decode(s: Seq<u8>, max_len: nat, max: nat) -> Result<(nat, nat), VarintError> {
    let k = continued(s);
    if k >= max_len {
        Err(VarintError::Overflow)
    } else if k >= s.len() {
        Err(VarintError::Truncated)
    } else if k > 0 && s[k as int] == 0 {
        Err(VarintError::NonCanonical)
    } else if groups(s.take(k as int + 1)) > max {
        Err(VarintError::Overflow)
    } else {
        Ok((groups(s.take(k as int + 1)), k + 1))
    }
}

/// A varint that holds up to 32 bits.
pub open spec fn decode_32(s: Seq<u8>) -> Result<(nat, nat), VarintError> {
    decode(s, 5, u32::MAX as nat)
}

/// A varint that holds up to 64 bits.
pub open spec fn decode_64(s: Seq<u8>) -> Result<(nat, nat), VarintError> {
    decode(s, 10, u64::MAX as nat)
}

/// `128` to the power `n`.
pub open spec fn span(n: nat) -> nat
    decreases n,
{
    if n == 0 {
        1
    } else {
        128 * span((n - 1) as nat)
    }
}

pub proof fn lemma_encode_shape(v: nat)
    ensures
        encode(v).len() >= 1,
        continued(encode(v)) == encode(v).len() - 1,
        groups(encode(v)) == v,
        encode(v).len() > 1 ==> encode(v).last() != 0,
    decreases v,
{
    if v >= 128 {
        lemma_encode_shape(v / 128);
        let rest = encode(v / 128);
        assert(encode(v).skip(1) =~= rest);
        let low = (v % 128 + 128) as u8;
        assert(encode(v)[0] == low);
        assert(low as nat % 128 == v % 128);
        assert(encode(v).last() == rest.last());
        if rest.len() == 1 {
            assert(rest[0] == (v / 128) as u8);
        }
    } else {
        assert(encode(v).skip(1) =~= Seq::<u8>::empty());
        assert(groups(encode(v).skip(1)) == 0);
    }
}

/// A varint spells a number in base 128, least digit first, in as few bytes as it takes; every
/// byte but the last has its top bit set.
pub proof fn lemma_encode_spells_base_128(v: nat, i: int)
    requires
        0 <= i < encode(v).len(),
    ensures
        encode(v)[i] as int % 128 == (v as int / vstd::arithmetic::power::pow(128, i as nat)) % 128,
        encode(v)[i] >= 128 <==> i < encode(v).len() - 1,
        v < vstd::arithmetic::power::pow(128, encode(v).len()),
        encode(v).len() > 1 ==> v >= vstd::arithmetic::power::pow(128, (encode(v).len() - 1) as nat),
    decreases v,
{
    reveal(vstd::arithmetic::power::pow);
    let n = encode(v).len();
    if v < 128 {
        vstd::arithmetic::power::lemma_pow1(128);
    } else {
        let rest = encode(v / 128);
        lemma_encode_shape(v / 128);
        assert(encode(v).skip(1) =~= rest);
        let low = (v % 128 + 128) as u8;
        assert(encode(v)[0] == low);
        if i > 0 {
            assert(encode(v)[i] == rest[i - 1]);
            lemma_encode_spells_base_128(v / 128, i - 1);
            vstd::arithmetic::power::lemma_pow_positive(128, (i - 1) as nat);
            vstd::arithmetic::div_mod::lemma_div_denominator(v as int, 128, vstd::arithmetic::power::pow(128, (i - 1) as nat));
            assert(vstd::arithmetic::power::pow(128, i as nat) == 128 * vstd::arithmetic::power::pow(128, (i - 1) as nat));
        } else {
            lemma_encode_spells_base_128(v / 128, 0);
            assert(vstd::arithmetic::power::pow(128, 0) == 1);
            assert(v as int / 1 == v);
        }
        assert(vstd::arithmetic::power::pow(128, n) == 128 * vstd::arithmetic::power::pow(128, (n - 1) as nat));
        if n == 2 {
            vstd::arithmetic::power::lemma_pow1(128);
        } else {
            assert(vstd::arithmetic::power::pow(128, (n - 1) as nat) == 128 * vstd::arithmetic::power::pow(128, (n - 2) as nat));
        }
    }
}

pub proof fn lemma_encode_len(v: nat, n: nat)
    requires
        v < span(n),
        n >= 1,
    ensures
        1 <= encode(v).len() <= n,
    decreases n,
{
    if v >= 128 {
        if n == 1 {
            assert(span(0) == 1);
            assert(span(1) == 128);
        } else {
            assert(span(n) == 128 * span((n - 1) as nat));
            lemma_encode_len(v / 128, (n - 1) as nat);
        }
    }
}

pub proof fn lemma_span_values()
    ensures
        span(1) == 0x80,
        span(5) == 0x8_0000_0000,
        span(10) == 0x40_0000_0000_0000_0000,
{
    reveal_with_fuel(span, 11);
}

pub proof fn lemma_encode_len_32(v: nat)
    requires
        v <= u32::MAX,
    ensures
        1 <= encode(v).len() <= 5,
{
    lemma_span_values();
    lemma_encode_len(v, 5);
}

pub proof fn lemma_encode_len_64(v: nat)
    requires
        v <= u64::MAX,
    ensures
        1 <= encode(v).len() <= 10,
{
    lemma_span_values();
    lemma_encode_len(v, 10);
}

proof fn lemma_continued_prefix(s: Seq<u8>, t: Seq<u8>)
    requires
        continued(s) < s.len(),
    ensures
        continued(s + t) == continued(s),
    decreases s.len(),
{
    if s[0] >= 128 {
        assert((s + t).skip(1) =~= s.skip(1) + t);
        lemma_continued_prefix(s.skip(1), t);
    }
}

/// Reading an encoding back, whatever follows it, gives the value and the length.
pub proof fn lemma_decode_of_encode(v: nat, rest: Seq<u8>, max_len: nat, max: nat)
    requires
        v <= max,
        encode(v).len() <= max_len,
    ensures
        decode(encode(v) + rest, max_len, max) == Ok::<(nat, nat), VarintError>(
            (v, encode(v).len()),
        ),
{
    let e = encode(v);
    lemma_encode_shape(v);
    lemma_continued_prefix(e, rest);
    assert((e + rest).take(e.len() as int) =~= e);
}

/// Only the one encoding is accepted: what was read is what would be written.
pub proof fn lemma_decode_is_canonical(s: Seq<u8>, max_len: nat, max: nat)
    requires
        decode(s, max_len, max) is Ok,
    ensures
        ({
            let (v, n) = decode(s, max_len, max)->Ok_0;
            &&& 1 <= n <= s.len()
            &&& n <= max_len
            &&& v <= max
            &&& s.take(n as int) == encode(v)
        }),
{
    lemma_continued_encode(s);
}

/// A varint of which only a part is there is cut short, one that spells too large a number
/// overflows, and nothing else is wrong with either.
pub proof fn lemma_why_a_varint_is_refused(v: nat, n: int, rest: Seq<u8>, max_len: nat, max: nat)
    requires
        encode(v).len() <= max_len,
        0 <= n < encode(v).len(),
    ensures
        decode(encode(v).take(n), max_len, max) == Err::<(nat, nat), VarintError>(
            VarintError::Truncated,
        ),
        v > max ==> decode(encode(v) + rest, max_len, max) == Err::<(nat, nat), VarintError>(
            VarintError::Overflow,
        ),
        v <= max ==> decode(encode(v) + rest, max_len, max) == Ok::<(nat, nat), VarintError>(
            (v, encode(v).len()),
        ),
{
    let s = encode(v);
    lemma_encode_shape(v);
    lemma_continued_prefix(s, rest);
    assert((s + rest).take(s.len() as int) =~= s);
    if s.len() > 1 {
        assert((s + rest)[s.len() - 1] == s.last());
    }
    lemma_continued_of_part(s, n);
}

/// A zero at the end that a shorter spelling would do without is not canonical; and bytes that
/// all say that another follows are too many at the greatest length, and cut short before it.
pub proof fn lemma_which_spellings_are_refused(s: Seq<u8>, k: int, max_len: nat, max: nat)
    requires
        0 < k <= s.len(),
        forall|i: int| 0 <= i < k ==> s[i] >= 128,
    ensures
        k < max_len && k < s.len() && s[k] == 0 ==> decode(s, max_len, max) == Err::<
            (nat, nat),
            VarintError,
        >(VarintError::NonCanonical),
        k >= max_len ==> decode(s, max_len, max) == Err::<(nat, nat), VarintError>(
            VarintError::Overflow,
        ),
        k < max_len && k == s.len() ==> decode(s, max_len, max) == Err::<(nat, nat), VarintError>(
            VarintError::Truncated,
        ),
{
    lemma_continued_at(s, k);
}

proof fn lemma_continued_of_part(s: Seq<u8>, n: int)
    requires
        0 <= n <= continued(s) < s.len(),
    ensures
        continued(s.take(n)) == n,
    decreases n,
{
    if n > 0 {
        lemma_continued_of_part(s.skip(1), n - 1);
        assert(s.take(n).skip(1) =~= s.skip(1).take(n - 1));
        assert(s.take(n)[0] == s[0]);
    }
}

/// A varint is only cut short by an end of the bytes before its greatest length.
pub proof fn lemma_truncated_is_short(s: Seq<u8>, max_len: nat, max: nat)
    ensures
        decode(s, max_len, max) == Err::<(nat, nat), VarintError>(VarintError::Truncated)
            ==> s.len() < max_len,
{
    lemma_continued_grows(s, Seq::empty());
}

/// What a 32-bit varint that was read looks like.
pub proof fn lemma_decode_32_shape(s: Seq<u8>)
    ensures
        decode_32(s) matches Ok((v, n)) ==> 1 <= n <= 5 && n <= s.len() && v <= u32::MAX && s.take(
            n as int,
        ) == encode(v),
{
    if decode_32(s) is Ok {
        lemma_decode_is_canonical(s, 5, u32::MAX as nat);
    }
}

proof fn lemma_continued_encode(s: Seq<u8>)
    requires
        continued(s) < s.len(),
        continued(s) > 0 ==> s[continued(s) as int] != 0,
    ensures
        s.take(continued(s) as int + 1) == encode(groups(s.take(continued(s) as int + 1))),
        continued(s) > 0 ==> groups(s.take(continued(s) as int + 1)) >= 128,
        continued(s) == 0 ==> groups(s.take(1)) == s[0],
    decreases s.len(),
{
    let k = continued(s);
    let t = s.take(k as int + 1);
    if k == 0 {
        assert(t.skip(1) =~= Seq::<u8>::empty());
        assert(groups(t.skip(1)) == 0);
        assert(groups(t) == s[0] as nat);
        assert(t =~= encode(groups(t)));
    } else {
        let u = s.skip(1);
        lemma_continued_encode(u);
        let w = u.take(k as int);
        assert(continued(u) == k - 1);
        assert(t.skip(1) =~= w);
        let high = groups(w);
        assert(u[k as int - 1] == s[k as int]);
        assert(high >= 1);
        let v = groups(t);
        assert(v == s[0] as nat % 128 + 128 * high);
        assert(v / 128 == high);
        assert(v % 128 == s[0] as nat % 128);
        assert(s[0] as nat % 128 + 128 == s[0] as nat);
        assert(t =~= seq![s[0]] + w);
        assert(encode(v) == seq![(v % 128 + 128) as u8] + encode(v / 128));
    }
}

/// More bytes never change a result that did not run out of bytes.
pub proof fn lemma_decode_extends(s: Seq<u8>, t: Seq<u8>, max_len: nat, max: nat)
    requires
        decode(s, max_len, max) !== Err::<(nat, nat), VarintError>(VarintError::Truncated),
    ensures
        decode(s + t, max_len, max) == decode(s, max_len, max),
{
    lemma_continued_grows(s, t);
    let k = continued(s);
    if k < s.len() {
        lemma_continued_prefix(s, t);
        assert((s + t).take(k as int + 1) =~= s.take(k as int + 1));
    }
}

proof fn lemma_continued_grows(s: Seq<u8>, t: Seq<u8>)
    ensures
        continued(s + t) >= continued(s),
        continued(s) <= s.len(),
    decreases s.len(),
{
    if s.len() > 0 && s[0] >= 128 {
        assert((s + t).skip(1) =~= s.skip(1) + t);
        lemma_continued_grows(s.skip(1), t);
    }
}

proof fn lemma_groups_push(s: Seq<u8>, b: u8)
    ensures
        groups(s.push(b)) == groups(s) + (b as nat % 128) * span(s.len()),
        groups(s) < span(s.len()),
    decreases s.len(),
{
    let t = s.push(b);
    if s.len() == 0 {
        assert(t.skip(1) =~= Seq::<u8>::empty());
        assert(groups(t.skip(1)) == 0);
        let m = b as nat % 128;
        assert(m * span(0) == m) by (nonlinear_arith)
            requires
                span(0) == 1,
        ;
    } else {
        assert(t.skip(1) =~= s.skip(1).push(b));
        lemma_groups_push(s.skip(1), b);
        let k = span((s.len() - 1) as nat);
        let m = b as nat % 128;
        assert(128 * (m * k) == m * (128 * k)) by (nonlinear_arith);
    }
}

proof fn lemma_continued_at(s: Seq<u8>, i: int)
    requires
        0 <= i <= s.len(),
        forall|j: int| 0 <= j < i ==> s[j] >= 128,
    ensures
        continued(s) >= i,
        i < s.len() && s[i] < 128 ==> continued(s) == i,
        i == s.len() ==> continued(s) == i,
    decreases i,
{
    if i > 0 {
        lemma_continued_at(s.skip(1), i - 1);
    }
}

/// Reads a varint of at most `max_len` bytes and at most `max` at `from`.
fn read(data: &[u8], from: usize, max_len: usize, max: u64) -> (r: Result<
    (u64, usize),
    VarintError,
>)
    requires
        from <= data@.len(),
        1 <= max_len <= 10,
    ensures
        match r {
            Ok((v, n)) => decode(data@.skip(from as int), max_len as nat, max as nat) == Ok::<
                (nat, nat),
                VarintError,
            >((v as nat, n as nat)),
            Err(e) => decode(data@.skip(from as int), max_len as nat, max as nat) == Err::<
                (nat, nat),
                VarintError,
            >(e),
        },
{
    let ghost s = data@.skip(from as int);
    let len: usize = data.len();
    let mut acc: u128 = 0;
    let mut scale: u128 = 1;
    let mut i: usize = 0;
    assert(s.take(0) =~= Seq::<u8>::empty());
    while i < max_len
        invariant
            i <= max_len <= 10,
            from + i <= len == data@.len(),
            s == data@.skip(from as int),
            acc as nat == groups(s.take(i as int)),
            scale as nat == span(i as nat),
            forall|j: int| 0 <= j < i ==> s[j] >= 128,
        decreases max_len - i,
    {
        if from + i == len {
            proof {
                lemma_continued_at(s, i as int);
            }
            return Err(VarintError::Truncated);
        }
        let b: u8 = data[from + i];
        proof {
            assert(s[i as int] == b);
            assert(s.take(i + 1) =~= s.take(i as int).push(b));
            lemma_groups_push(s.take(i as int), b);
            lemma_groups_push(s.take(i + 1), 0);
            lemma_span_values();
            lemma_span_monotone((i + 1) as nat, 10);
            lemma_continued_at(s, i as int);
        }
        let group: u128 = (b % 128) as u128;
        assert(group * scale == (b as nat % 128) * span(i as nat)) by (nonlinear_arith)
            requires
                group == b as nat % 128,
                scale as nat == span(i as nat),
        ;
        acc = acc + group * scale;
        if b < 128 {
            if i > 0 && b == 0 {
                return Err(VarintError::NonCanonical);
            }
            if acc > max as u128 {
                return Err(VarintError::Overflow);
            }
            return Ok((acc as u64, i + 1));
        }
        scale = scale * 128;
        i = i + 1;
    }
    proof {
        lemma_continued_at(s, i as int);
    }
    Err(VarintError::Overflow)
}

proof fn lemma_span_monotone(a: nat, b: nat)
    requires
        a <= b,
    ensures
        1 <= span(a) <= span(b),
    decreases b,
{
    if a < b {
        lemma_span_monotone(a, (b - 1) as nat);
    } else if b > 0 {
        lemma_span_monotone((a - 1) as nat, (b - 1) as nat);
    }
}

/// Reads a 32-bit varint at `from`: the value and the bytes it took.
pub fn read_32(data: &[u8], from: usize) -> (r: Result<(u32, usize), VarintError>)
    requires
        from <= data@.len(),
    ensures
        match r {
            Ok((v, n)) => decode_32(data@.skip(from as int)) == Ok::<(nat, nat), VarintError>(
                (v as nat, n as nat),
            ),
            Err(e) => decode_32(data@.skip(from as int)) == Err::<(nat, nat), VarintError>(e),
        },
{
    match read(data, from, MAX_LEN_32, u32::MAX as u64) {
        Ok((v, n)) => Ok((v as u32, n)),
        Err(e) => Err(e),
    }
}

/// Reads a 64-bit varint at `from`: the value and the bytes it took.
pub fn read_64(data: &[u8], from: usize) -> (r: Result<(u64, usize), VarintError>)
    requires
        from <= data@.len(),
    ensures
        match r {
            Ok((v, n)) => decode_64(data@.skip(from as int)) == Ok::<(nat, nat), VarintError>(
                (v as nat, n as nat),
            ),
            Err(e) => decode_64(data@.skip(from as int)) == Err::<(nat, nat), VarintError>(e),
        },
{
    read(data, from, MAX_LEN_64, u64::MAX)
}

/// How many bytes `v` takes.
pub fn encoded_len(v: u64) -> (n: usize)
    ensures
        n as nat == encode(v as nat).len(),
        1 <= n <= 10,
        v <= u32::MAX ==> n <= 5,
{
    proof {
        lemma_encode_len_64(v as nat);
        if v <= u32::MAX {
            lemma_encode_len_32(v as nat);
        }
    }
    let mut rest: u64 = v;
    let mut n: usize = 1;
    while rest >= 128
        invariant
            n + encode(rest as nat).len() == encode(v as nat).len() + 1,
            n <= encode(v as nat).len() <= 10,
        decreases rest,
    {
        proof {
            assert(encode(rest as nat).len() == 1 + encode((rest / 128) as nat).len());
            lemma_encode_shape((rest / 128) as nat);
        }
        rest = rest / 128;
        n = n + 1;
    }
    n
}

/// Appends the encoding of `v`.
pub fn push(out: &mut Vec<u8>, v: u64)
    ensures
        final(out)@ == old(out)@ + encode(v as nat),
{
    let mut rest: u64 = v;
    let ghost start = out@;
    while rest >= 128
        invariant
            out@ + encode(rest as nat) == start + encode(v as nat),
        decreases rest,
    {
        let ghost prev = out@;
        out.push((rest % 128 + 128) as u8);
        proof {
            assert(prev + encode(rest as nat) =~= out@ + encode((rest / 128) as nat));
        }
        rest = rest / 128;
    }
    let ghost prev = out@;
    out.push(rest as u8);
    assert(prev + encode(rest as nat) =~= out@);
}

} // verus!
