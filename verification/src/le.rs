//! Little-endian integers of any width.

use vstd::prelude::*;

verus! {

/// The natural number that `s` spells, least significant byte first.
pub open spec fn value(s: Seq<u8>) -> nat
    decreases s.len(),
{
    if s.len() == 0 {
        0
    } else {
        s[0] as nat + 256 * value(s.skip(1))
    }
}

/// The low `n` bytes of `v`, least significant byte first.
pub open spec fn bytes(v: nat, n: nat) -> Seq<u8>
    decreases n,
{
    if n == 0 {
        Seq::empty()
    } else {
        seq![(v % 256) as u8] + bytes(v / 256, (n - 1) as nat)
    }
}

/// `256` to the power `n`: how many values `n` bytes tell apart.
pub open spec fn span(n: nat) -> nat
    decreases n,
{
    if n == 0 {
        1
    } else {
        256 * span((n - 1) as nat)
    }
}

pub proof fn lemma_bytes_len(v: nat, n: nat)
    ensures
        bytes(v, n).len() == n,
    decreases n,
{
    if n > 0 {
        lemma_bytes_len(v / 256, (n - 1) as nat);
    }
}

/// The bytes of a number are its digits in base 256, least digit first.
pub proof fn lemma_bytes_spell_base_256(v: nat, n: nat, i: int)
    requires
        0 <= i < n,
    ensures
        bytes(v, n).len() == n,
        bytes(v, n)[i] as int == (v as int / vstd::arithmetic::power::pow(256, i as nat)) % 256,
    decreases n,
{
    reveal(vstd::arithmetic::power::pow);
    lemma_bytes_len(v, n);
    lemma_bytes_len(v / 256, (n - 1) as nat);
    if i > 0 {
        assert(bytes(v, n)[i] == bytes(v / 256, (n - 1) as nat)[i - 1]);
        lemma_bytes_spell_base_256(v / 256, (n - 1) as nat, i - 1);
        vstd::arithmetic::power::lemma_pow_positive(256, (i - 1) as nat);
        vstd::arithmetic::div_mod::lemma_div_denominator(v as int, 256, vstd::arithmetic::power::pow(256, (i - 1) as nat));
        assert(vstd::arithmetic::power::pow(256, i as nat) == 256 * vstd::arithmetic::power::pow(256, (i - 1) as nat));
    } else {
        assert(vstd::arithmetic::power::pow(256, 0) == 1);
        assert(v as int / 1 == v);
    }
}

/// As many values as `n` bytes can tell apart.
pub proof fn lemma_span_is_a_power(n: nat)
    ensures
        span(n) == vstd::arithmetic::power::pow(256, n),
    decreases n,
{
    reveal(vstd::arithmetic::power::pow);
    if n > 0 {
        lemma_span_is_a_power((n - 1) as nat);
    }
}

pub proof fn lemma_value_bound(s: Seq<u8>)
    ensures
        value(s) < span(s.len()),
    decreases s.len(),
{
    if s.len() > 0 {
        lemma_value_bound(s.skip(1));
    }
}

pub proof fn lemma_span_values()
    ensures
        span(0) == 1,
        span(1) == 0x100,
        span(4) == 0x1_0000_0000,
        span(8) == 0x1_0000_0000_0000_0000,
{
    reveal_with_fuel(span, 9);
}

pub proof fn lemma_span_monotone(a: nat, b: nat)
    requires
        a <= b,
    ensures
        1 <= span(a) <= span(b),
    decreases b,
{
    if a < b {
        lemma_span_monotone(a, (b - 1) as nat);
    } else if b > 0 {
        lemma_span_monotone((a - 1) as nat, (b - 1) as nat);
    }
}

/// Reading what was written gives the value back, when it fits the width.
pub proof fn lemma_value_of_bytes(v: nat, n: nat)
    requires
        v < span(n),
    ensures
        value(bytes(v, n)) == v,
        bytes(v, n).len() == n,
    decreases n,
{
    lemma_bytes_len(v, n);
    if n > 0 {
        lemma_value_of_bytes(v / 256, (n - 1) as nat);
        assert(bytes(v, n).skip(1) =~= bytes(v / 256, (n - 1) as nat));
    }
}

/// Every byte string is the encoding of the value that it spells.
pub proof fn lemma_bytes_of_value(s: Seq<u8>)
    ensures
        bytes(value(s), s.len()) == s,
    decreases s.len(),
{
    if s.len() > 0 {
        let rest = s.skip(1);
        lemma_bytes_of_value(rest);
        assert(value(s) % 256 == s[0] as nat);
        assert(value(s) / 256 == value(rest));
        assert(seq![s[0]] + rest =~= s);
    } else {
        assert(bytes(value(s), 0) =~= s);
    }
}

/// Appending a byte adds it at the top.
pub proof fn lemma_value_push(s: Seq<u8>, b: u8)
    ensures
        value(s.push(b)) == value(s) + b as nat * span(s.len()),
    decreases s.len(),
{
    if s.len() == 0 {
        assert(s.push(b).skip(1) =~= Seq::<u8>::empty());
        assert(value(s.push(b).skip(1)) == 0);
        assert(value(s) == 0);
        assert(b as nat * span(0) == b as nat) by (nonlinear_arith)
            requires
                span(0) == 1,
        ;
    } else {
        let t = s.push(b);
        assert(t.skip(1) =~= s.skip(1).push(b));
        lemma_value_push(s.skip(1), b);
        let k = span((s.len() - 1) as nat);
        assert(256 * (b as nat * k) == b as nat * (256 * k)) by (nonlinear_arith);
    }
}

/// A zero byte on top changes nothing.
pub proof fn lemma_value_zero_extended(s: Seq<u8>, t: Seq<u8>)
    requires
        s.len() <= t.len(),
        t.take(s.len() as int) == s,
        forall|i: int| s.len() <= i < t.len() ==> t[i] == 0,
    ensures
        value(t) == value(s),
    decreases t.len() - s.len(),
{
    if s.len() < t.len() {
        let u = t.drop_last();
        assert(u.take(s.len() as int) =~= s);
        lemma_value_zero_extended(s, u);
        lemma_value_push(u, 0);
        assert(u.push(0) =~= t);
        assert(0 * span(u.len()) == 0) by (nonlinear_arith);
    } else {
        assert(t =~= s);
    }
}

/// The low bytes and the high bytes of a number, added up.
pub proof fn lemma_value_split(s: Seq<u8>, i: int)
    requires
        0 <= i <= s.len(),
    ensures
        value(s) == value(s.take(i)) + span(i as nat) * value(s.skip(i)),
    decreases i,
{
    if i == 0 {
        assert(s.skip(0) =~= s);
        assert(value(s.take(0)) == 0);
        assert(span(0) * value(s) == value(s)) by (nonlinear_arith)
            requires
                span(0) == 1,
        ;
    } else {
        let t = s.skip(1);
        lemma_value_split(t, i - 1);
        assert(s.take(i).skip(1) =~= t.take(i - 1));
        assert(t.skip(i - 1) =~= s.skip(i));
        let k = span((i - 1) as nat);
        let v = value(s.skip(i));
        assert(256 * (k * v) == (256 * k) * v) by (nonlinear_arith);
    }
}

/// The number spelled by the `n` bytes of `data` that start at `from`.
pub fn read(data: &[u8], from: usize, n: usize) -> (v: u64)
    requires
        from + n <= data@.len(),
        n <= 8,
    ensures
        v as nat == value(data@.subrange(from as int, from + n)),
        (v as nat) < span(n as nat),
{
    let ghost part = data@.subrange(from as int, from + n);
    let len: usize = data.len();
    let mut v: u64 = 0;
    let mut i: usize = n;
    proof {
        lemma_value_bound(part);
        assert(part.skip(n as int) =~= Seq::<u8>::empty());
    }
    while i > 0
        invariant
            i <= n <= 8,
            from + n <= len == data@.len(),
            part == data@.subrange(from as int, from + n),
            v as nat == value(part.skip(i as int)),
        decreases i,
    {
        let ghost before = part.skip(i as int);
        i = i - 1;
        let b: u8 = data[from + i];
        proof {
            let now = part.skip(i as int);
            assert(now.skip(1) =~= before);
            assert(now[0] == b);
            lemma_value_bound(now);
            lemma_span_monotone(now.len(), 8);
            lemma_span_values();
        }
        v = v * 256 + b as u64;
    }
    assert(part.skip(0) =~= part);
    v
}

/// Appends the low `n` bytes of `v` to `out`.
pub fn push(out: &mut Vec<u8>, v: u64, n: usize)
    ensures
        final(out)@ == old(out)@ + bytes(v as nat, n as nat),
{
    let mut rest: u64 = v;
    let mut i: usize = 0;
    let ghost start = out@;
    while i < n
        invariant
            i <= n,
            out@ + bytes(rest as nat, (n - i) as nat) == start + bytes(v as nat, n as nat),
        decreases n - i,
    {
        let ghost prev = out@;
        out.push((rest % 256) as u8);
        proof {
            assert(prev + bytes(rest as nat, (n - i) as nat) =~= out@ + bytes(
                (rest / 256) as nat,
                (n - i - 1) as nat,
            ));
        }
        rest = rest / 256;
        i = i + 1;
    }
    assert(out@ + bytes(rest as nat, 0) =~= out@);
}

} // verus!
