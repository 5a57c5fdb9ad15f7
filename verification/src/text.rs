//! Numbers as text, and the order of texts.

use vstd::prelude::*;
use vstd::string::StringExecFns;

verus! {

/// The digit of the value `d`.
pub open spec fn digit(d: nat) -> char {
    if d == 0 {
        '0'
    } else if d == 1 {
        '1'
    } else if d == 2 {
        '2'
    } else if d == 3 {
        '3'
    } else if d == 4 {
        '4'
    } else if d == 5 {
        '5'
    } else if d == 6 {
        '6'
    } else if d == 7 {
        '7'
    } else if d == 8 {
        '8'
    } else if d == 9 {
        '9'
    } else if d == 10 {
        'a'
    } else if d == 11 {
        'b'
    } else if d == 12 {
        'c'
    } else if d == 13 {
        'd'
    } else if d == 14 {
        'e'
    } else {
        'f'
    }
}

/// `n` in decimal, without leading zeros.
pub open spec fn decimal(n: nat) -> Seq<char>
    decreases n,
{
    if n < 10 {
        seq![digit(n)]
    } else {
        decimal(n / 10).push(digit(n % 10))
    }
}

/// The last `n` hexadecimal digits of `v`.
pub open spec fn hex(v: nat, n: nat) -> Seq<char>
    decreases n,
{
    if n == 0 {
        Seq::empty()
    } else {
        hex(v / 16, (n - 1) as nat).push(digit(v % 16))
    }
}

/// The digit of `d`, as text.
pub(crate) fn digit_text(d: u8) -> (s: &'static str)
    requires
        d < 16,
    ensures
        s@ == seq![digit(d as nat)],
{
    proof {
        reveal_strlit("0");
        reveal_strlit("1");
        reveal_strlit("2");
        reveal_strlit("3");
        reveal_strlit("4");
        reveal_strlit("5");
        reveal_strlit("6");
        reveal_strlit("7");
        reveal_strlit("8");
        reveal_strlit("9");
        reveal_strlit("a");
        reveal_strlit("b");
        reveal_strlit("c");
        reveal_strlit("d");
        reveal_strlit("e");
        reveal_strlit("f");
    }
    let s: &'static str = match d {
        0 => "0",
        1 => "1",
        2 => "2",
        3 => "3",
        4 => "4",
        5 => "5",
        6 => "6",
        7 => "7",
        8 => "8",
        9 => "9",
        10 => "a",
        11 => "b",
        12 => "c",
        13 => "d",
        14 => "e",
        _ => "f",
    };
    assert(s@ =~= seq![digit(d as nat)]);
    s
}

/// Appends `n` in decimal.
pub fn push_decimal(out: &mut String, n: u64)
    ensures
        final(out)@ == old(out)@ + decimal(n as nat),
    decreases n,
{
    let ghost start = out@;
    if n >= 10 {
        push_decimal(out, n / 10);
    }
    out.append(digit_text((n % 10) as u8));
    assert(out@ =~= start + decimal(n as nat));
}

/// Appends the last `n` hexadecimal digits of `v`.
pub fn push_hex(out: &mut String, v: u64, n: usize)
    ensures
        final(out)@ == old(out)@ + hex(v as nat, n as nat),
    decreases n,
{
    let ghost start = out@;
    if n > 0 {
        push_hex(out, v / 16, n - 1);
        out.append(digit_text((v % 16) as u8));
    }
    assert(out@ =~= start + hex(v as nat, n as nat));
}

/// `before`, and then `n` in decimal.
pub fn with_decimal(before: &str, n: u64) -> (s: String)
    ensures
        s@ == before@ + decimal(n as nat),
{
    let mut s: String = before.to_owned();
    push_decimal(&mut s, n);
    s
}

/// Whether `a` comes no later than `b`, byte by byte.
pub open spec fn bytes_le(a: Seq<u8>, b: Seq<u8>) -> bool
    decreases a.len(),
{
    a.len() == 0 || b.len() > 0 && (a[0] < b[0] || a[0] == b[0] && bytes_le(a.skip(1), b.skip(1)))
}

/// Whether the text `a` comes no later than `b`: texts are ordered by their bytes.
pub open spec fn text_le(a: Seq<char>, b: Seq<char>) -> bool {
    bytes_le(vstd::utf8::encode_utf8(a), vstd::utf8::encode_utf8(b))
}

/// The first byte in which two differ decides their order, and the shorter of two that do not
/// differ comes first.
pub proof fn lemma_the_first_difference_decides(a: Seq<u8>, b: Seq<u8>, k: int)
    requires
        0 <= k <= a.len(),
        k <= b.len(),
        forall|i: int| 0 <= i < k ==> #[trigger] a[i] == b[i],
    ensures
        k == a.len() ==> bytes_le(a, b),
        k == a.len() && k < b.len() ==> !bytes_le(b, a),
        k < a.len() && k < b.len() && a[k] < b[k] ==> bytes_le(a, b) && !bytes_le(b, a),
    decreases k,
{
    if k > 0 {
        let x = a.skip(1);
        let y = b.skip(1);
        assert forall|i: int| 0 <= i < k - 1 implies #[trigger] x[i] == y[i] by {
            assert(a[i + 1] == b[i + 1]);
        }
        lemma_the_first_difference_decides(x, y, k - 1);
        assert(a[0] == b[0]);
    }
}

/// A number in decimal has a digit for each power of ten up to it, and no zero in front.
pub proof fn lemma_decimal_spells_base_ten(n: nat, i: int)
    requires
        0 <= i < decimal(n).len(),
    ensures
        decimal(n)[decimal(n).len() - 1 - i] as int == 48 + (n as int
            / vstd::arithmetic::power::pow(10, i as nat)) % 10,
        n < vstd::arithmetic::power::pow(10, decimal(n).len()),
        decimal(n).len() > 1 ==> n >= vstd::arithmetic::power::pow(
            10,
            (decimal(n).len() - 1) as nat,
        ),
    decreases n,
{
    reveal(vstd::arithmetic::power::pow);
    let s = decimal(n);
    assert(vstd::arithmetic::power::pow(10, 0) == 1);
    assert(n as int / 1 == n);
    vstd::arithmetic::power::lemma_pow1(10);
    if n >= 10 {
        let head = decimal(n / 10);
        let len = s.len();
        lemma_decimal_spells_base_ten(
            n / 10,
            if i > 0 {
                i - 1
            } else {
                0
            },
        );
        if i > 0 {
            vstd::arithmetic::power::lemma_pow_positive(10, (i - 1) as nat);
            vstd::arithmetic::div_mod::lemma_div_denominator(
                n as int,
                10,
                vstd::arithmetic::power::pow(10, (i - 1) as nat),
            );
            assert(s[len - 1 - i] == head[head.len() - 1 - (i - 1)]);
        }
        assert(vstd::arithmetic::power::pow(10, len) == 10 * vstd::arithmetic::power::pow(
            10,
            (len - 1) as nat,
        ));
        if len > 2 {
            assert(vstd::arithmetic::power::pow(10, (len - 1) as nat) == 10
                * vstd::arithmetic::power::pow(10, (len - 2) as nat));
        }
    }
}

/// A number in hexadecimal has as many digits as are asked for, one for each power of sixteen.
pub proof fn lemma_hex_spells_base_sixteen(v: nat, n: nat, i: int)
    requires
        0 <= i < n,
    ensures
        hex(v, n).len() == n,
        ({
            let d = (v as int / vstd::arithmetic::power::pow(16, i as nat)) % 16;
            hex(v, n)[n - 1 - i] as int == if d < 10 {
                48 + d
            } else {
                87 + d
            }
        }),
    decreases n,
{
    reveal(vstd::arithmetic::power::pow);
    assert(vstd::arithmetic::power::pow(16, 0) == 1);
    assert(v as int / 1 == v);
    if n > 1 {
        lemma_hex_spells_base_sixteen(
            v / 16,
            (n - 1) as nat,
            if i > 0 {
                i - 1
            } else {
                0
            },
        );
        if i > 0 {
            vstd::arithmetic::power::lemma_pow_positive(16, (i - 1) as nat);
            vstd::arithmetic::div_mod::lemma_div_denominator(
                v as int,
                16,
                vstd::arithmetic::power::pow(16, (i - 1) as nat),
            );
        }
    } else {
        assert(hex(v / 16, 0) =~= Seq::empty());
    }
}

pub proof fn lemma_bytes_le_total(a: Seq<u8>, b: Seq<u8>)
    ensures
        bytes_le(a, b) || bytes_le(b, a),
    decreases a.len(),
{
    if a.len() > 0 && b.len() > 0 {
        lemma_bytes_le_total(a.skip(1), b.skip(1));
    }
}

pub proof fn lemma_bytes_le_transitive(a: Seq<u8>, b: Seq<u8>, c: Seq<u8>)
    requires
        bytes_le(a, b),
        bytes_le(b, c),
    ensures
        bytes_le(a, c),
    decreases a.len(),
{
    if a.len() > 0 && a[0] == b[0] && b[0] == c[0] {
        lemma_bytes_le_transitive(a.skip(1), b.skip(1), c.skip(1));
    }
}

/// Whether the text `a` comes no later than `b`.
pub fn is_text_le(a: &str, b: &str) -> (r: bool)
    ensures
        r == text_le(a@, b@),
{
    let x: &[u8] = a.as_bytes();
    let y: &[u8] = b.as_bytes();
    let n: usize = x.len();
    let m: usize = y.len();
    let mut i: usize = 0;
    assert(x@.skip(0) =~= x@);
    assert(y@.skip(0) =~= y@);
    while i < n
        invariant
            i <= n == x@.len(),
            i <= m == y@.len(),
            x@ == vstd::utf8::encode_utf8(a@),
            y@ == vstd::utf8::encode_utf8(b@),
            bytes_le(x@.skip(i as int), y@.skip(i as int)) == bytes_le(x@, y@),
        decreases n - i,
    {
        if i == m {
            return false;
        }
        assert(x@.skip(i as int).skip(1) =~= x@.skip(i + 1));
        assert(y@.skip(i as int).skip(1) =~= y@.skip(i + 1));
        if x[i] != y[i] {
            return x[i] < y[i];
        }
        i = i + 1;
    }
    true
}

} // verus!
