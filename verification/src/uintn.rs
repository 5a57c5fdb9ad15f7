//! Natural numbers of any size, for entry and file ids.

use std::cmp::Ordering;
use vstd::prelude::*;
use vstd::std_specs::cmp::{PartialEqSpecImpl, PartialOrdSpecImpl};
use vstd::std_specs::convert::FromSpecImpl;

use crate::le;

verus! {

/// A number does not fit 64 bits.
#[derive(Debug, Clone, Copy, PartialEq, Eq, Structural)]
pub struct TooWide;

/// A natural number of any size.
#[derive(Debug)]
pub struct UintN {
    /// Least significant byte first, and no zero byte on top.
    digits: Vec<u8>,
}

impl View for UintN {
    type V = nat;

    closed spec fn view(&self) -> nat {
        le::value(self.digits@)
    }
}

/// Whether there is no zero byte on top.
spec fn trimmed(digits: Seq<u8>) -> bool {
    digits.len() > 0 ==> digits.last() != 0
}

proof fn lemma_trimmed_value(digits: Seq<u8>)
    requires
        trimmed(digits),
        digits.len() > 0,
    ensures
        le::value(digits) >= le::span((digits.len() - 1) as nat),
{
    let low = digits.drop_last();
    let top = digits.last();
    le::lemma_value_push(low, top);
    assert(low.push(top) =~= digits);
    let k = le::span(low.len());
    assert(top as nat * k >= k) by (nonlinear_arith)
        requires
            top >= 1,
    ;
}

/// Numbers whose bytes agree above place `i`, and differ there, are ordered by that byte.
proof fn lemma_ordered_at(a: Seq<u8>, b: Seq<u8>, i: int)
    requires
        0 <= i < a.len() == b.len(),
        a.skip(i + 1) == b.skip(i + 1),
        a[i] < b[i],
    ensures
        le::value(a) < le::value(b),
{
    le::lemma_value_split(a, i + 1);
    le::lemma_value_split(b, i + 1);
    le::lemma_value_push(a.take(i), a[i]);
    le::lemma_value_push(b.take(i), b[i]);
    assert(a.take(i).push(a[i]) =~= a.take(i + 1));
    assert(b.take(i).push(b[i]) =~= b.take(i + 1));
    le::lemma_value_bound(a.take(i));
    let k = le::span(i as nat);
    let x = a[i] as nat;
    let y = b[i] as nat;
    assert(x * k + k <= y * k) by (nonlinear_arith)
        requires
            x + 1 <= y,
    ;
}

impl UintN {
    #[verifier::type_invariant]
    spec fn inv(self) -> bool {
        trimmed(self.digits@)
    }

    /// Zero.
    pub fn zero() -> (n: UintN)
        ensures
            n@ == 0,
    {
        UintN { digits: Vec::new() }
    }

    /// The number that `data` spells, least significant byte first.
    pub fn from_le_bytes(data: &[u8]) -> (n: UintN)
        ensures
            n@ == le::value(data@),
    {
        let mut len: usize = data.len();
        while len > 0 && data[len - 1] == 0
            invariant
                len <= data@.len(),
                forall|i: int| len <= i < data@.len() ==> data@[i] == 0,
            decreases len,
        {
            len = len - 1;
        }
        let digits: Vec<u8> = vstd::slice::slice_to_vec(vstd::slice::slice_subrange(data, 0, len));
        proof {
            assert(digits@ =~= data@.take(len as int));
            le::lemma_value_zero_extended(digits@, data@);
        }
        UintN { digits }
    }

    /// The number as 64 bits, where it fits.
    pub fn to_u64(&self) -> (r: Result<u64, TooWide>)
        ensures
            match r {
                Ok(v) => v as nat == self@,
                Err(_) => self@ > u64::MAX,
            },
    {
        proof {
            use_type_invariant(self);
            le::lemma_span_values();
        }
        let n: usize = self.digits.len();
        if n > 8 {
            proof {
                lemma_trimmed_value(self.digits@);
                le::lemma_span_monotone(8, (n - 1) as nat);
            }
            return Err(TooWide);
        }
        let v: u64 = le::read(self.digits.as_slice(), 0, n);
        assert(self.digits@.subrange(0, n as int) =~= self.digits@);
        Ok(v)
    }

    /// The next number.
    pub fn increment(&self) -> (n: UintN)
        ensures
            n@ == self@ + 1,
    {
        proof {
            use_type_invariant(self);
        }
        let ghost all = self.digits@;
        let mut out: Vec<u8> = Vec::new();
        let mut i: usize = 0;
        let len: usize = self.digits.len();
        // Bytes of all ones become zeros and carry into the next.
        while i < len && self.digits[i] == 255
            invariant
                i <= len == all.len(),
                all == self.digits@,
                out@.len() == i,
                forall|k: int| 0 <= k < i ==> all[k] == 255,
                forall|k: int| 0 <= k < i ==> out@[k] == 0,
                le::value(out@) + le::span(i as nat) == le::value(all.take(i as int)) + 1,
            decreases len - i,
        {
            proof {
                le::lemma_value_push(all.take(i as int), 255);
                le::lemma_value_push(out@, 0);
                assert(all.take(i as int).push(255) =~= all.take(i + 1));
                let k = le::span(i as nat);
                assert(0 * k == 0) by (nonlinear_arith);
            }
            out.push(0);
            i = i + 1;
        }
        proof {
            le::lemma_value_split(all, i as int);
        }
        if i == len {
            proof {
                assert(all.skip(i as int) =~= Seq::empty());
                let k = le::span(i as nat);
                assert(k * 0 == 0) by (nonlinear_arith);
                assert(1 * k == k) by (nonlinear_arith);
                assert(all.take(i as int) =~= all);
                le::lemma_value_push(out@, 1);
            }
            out.push(1);
            UintN { digits: out }
        } else {
            let b: u8 = self.digits[i];
            let ghost low = out@;
            out.push(b + 1);
            proof {
                let k = le::span(i as nat);
                le::lemma_value_push(low, (b + 1) as u8);
                le::lemma_value_push(all.take(i as int), b);
                assert(all.take(i as int).push(b) =~= all.take(i + 1));
                assert((b as nat + 1) * k == b as nat * k + k) by (nonlinear_arith);
            }
            let ghost head = out@;
            assert(le::value(head) == le::value(all.take(i + 1)) + 1);
            let rest: &[u8] = vstd::slice::slice_subrange(self.digits.as_slice(), i + 1, len);
            out.extend_from_slice(rest);
            proof {
                assert(rest@ =~= all.skip(i + 1));
                assert(out@ =~= head + rest@);
                le::lemma_value_split(out@, i + 1);
                le::lemma_value_split(all, i + 1);
                assert(out@.take(i + 1) =~= head);
                assert(out@.skip(i + 1) =~= rest@);
                if rest@.len() == 0 {
                    assert(out@.last() == b + 1);
                } else {
                    assert(out@.last() == all.last());
                }
            }
            UintN { digits: out }
        }
    }

    /// Whether the number is less than `other`.
    pub fn is_below(&self, other: &UintN) -> (b: bool)
        ensures
            b == (self@ < other@),
    {
        proof {
            use_type_invariant(self);
            use_type_invariant(other);
            le::lemma_value_bound(self.digits@);
            le::lemma_value_bound(other.digits@);
        }
        let ghost x = self.digits@;
        let ghost y = other.digits@;
        let n: usize = self.digits.len();
        let m: usize = other.digits.len();
        if n < m {
            proof {
                lemma_trimmed_value(y);
                le::lemma_span_monotone(n as nat, (m - 1) as nat);
            }
            return true;
        }
        if n > m {
            proof {
                lemma_trimmed_value(x);
                le::lemma_span_monotone(m as nat, (n - 1) as nat);
            }
            return false;
        }
        let mut i: usize = n;
        assert(x.skip(n as int) =~= y.skip(n as int));
        while i > 0
            invariant
                i <= n,
                n == x.len() == y.len(),
                x == self.digits@,
                y == other.digits@,
                x.skip(i as int) == y.skip(i as int),
            decreases i,
        {
            let j: usize = i - 1;
            if self.digits[j] < other.digits[j] {
                proof {
                    lemma_ordered_at(x, y, j as int);
                }
                return true;
            }
            if self.digits[j] > other.digits[j] {
                proof {
                    lemma_ordered_at(y, x, j as int);
                }
                return false;
            }
            proof {
                assert(x.skip(j as int) =~= seq![x[j as int]] + x.skip(i as int));
                assert(y.skip(j as int) =~= seq![y[j as int]] + y.skip(i as int));
            }
            i = j;
        }
        assert(x.skip(0) =~= x);
        assert(y.skip(0) =~= y);
        false
    }

    /// The number modulo `step`.
    fn modulo(&self, step: u64) -> (r: u64)
        requires
            step > 0,
        ensures
            r as nat == self@ % (step as nat),
    {
        let ghost all = self.digits@;
        let mut r: u64 = 0;
        let mut i: usize = self.digits.len();
        proof {
            assert(all.skip(i as int) =~= Seq::empty());
            vstd::arithmetic::div_mod::lemma_small_mod(0, step as nat);
        }
        while i > 0
            invariant
                i <= all.len(),
                all == self.digits@,
                step > 0,
                r as nat == le::value(all.skip(i as int)) % (step as nat),
            decreases i,
        {
            let ghost high = le::value(all.skip(i as int));
            i = i - 1;
            let d: u8 = self.digits[i];
            proof {
                assert(all.skip(i as int).skip(1) =~= all.skip(i + 1));
                let s = step as int;
                let q = high as int / s;
                vstd::arithmetic::div_mod::lemma_fundamental_div_mod(high as int, s);
                let low = 256 * (r as int) + d;
                assert(256 * (s * q + r as int) + d == s * (256 * q) + low) by (nonlinear_arith)
                    requires
                        low == 256 * (r as int) + d,
                ;
                vstd::arithmetic::div_mod::lemma_mod_multiples_vanish(256 * q, low, s);
            }
            r = ((r as u128 * 256 + d as u128) % (step as u128)) as u64;
        }
        assert(all.skip(0) =~= all);
        r
    }

    /// Whether the distance from `from` is a multiple of `step`.
    pub fn in_step(&self, from: &UintN, step: usize) -> (b: bool)
        requires
            step > 0,
            from@ <= self@,
        ensures
            b == ((self@ - from@) % (step as int) == 0),
    {
        proof {
            let s = step as int;
            let x = self@ as int;
            let y = from@ as int;
            vstd::arithmetic::div_mod::lemma_fundamental_div_mod(x, s);
            vstd::arithmetic::div_mod::lemma_fundamental_div_mod(y, s);
            let d = x % s - y % s;
            let q = x / s - y / s;
            assert(x - y == s * q + d) by (nonlinear_arith)
                requires
                    x == s * (x / s) + x % s,
                    y == s * (y / s) + y % s,
                    d == x % s - y % s,
                    q == x / s - y / s,
            ;
            vstd::arithmetic::div_mod::lemma_mod_multiples_vanish(q, d, s);
            if d > 0 {
                vstd::arithmetic::div_mod::lemma_small_mod(d as nat, s as nat);
            } else if d < 0 {
                vstd::arithmetic::div_mod::lemma_mod_multiples_vanish(1, d, s);
                assert(s * 1 + d == s + d);
                vstd::arithmetic::div_mod::lemma_small_mod((s + d) as nat, s as nat);
            } else {
                vstd::arithmetic::div_mod::lemma_small_mod(0, s as nat);
            }
        }
        self.modulo(step as u64) == from.modulo(step as u64)
    }

    /// Appends the number in `width` bytes, least significant byte first.
    pub fn push_le(&self, out: &mut Vec<u8>, width: usize)
        requires
            self@ < le::span(width as nat),
        ensures
            final(out)@ == old(out)@ + le::bytes(self@, width as nat),
    {
        proof {
            use_type_invariant(self);
        }
        let ghost all = self.digits@;
        let n: usize = self.digits.len();
        proof {
            if n > width {
                lemma_trimmed_value(all);
                le::lemma_span_monotone(width as nat, (n - 1) as nat);
            }
        }
        let ghost start = out@;
        out.extend_from_slice(self.digits.as_slice());
        let mut i: usize = n;
        while i < width
            invariant
                n <= i <= width,
                all.len() == n,
                out@.len() == start.len() + i,
                out@.take((start.len() + n) as int) == start + all,
                forall|k: int| start.len() + n <= k < out@.len() ==> out@[k] == 0,
            decreases width - i,
        {
            let ghost was = out@;
            out.push(0);
            assert(out@.take((start.len() + n) as int) =~= was.take((start.len() + n) as int));
            i = i + 1;
        }
        proof {
            let tail = out@.skip(start.len() as int);
            assert(tail.take(n as int) =~= out@.take((start.len() + n) as int).skip(
                start.len() as int,
            ));
            assert(tail.take(n as int) =~= all);
            le::lemma_value_zero_extended(all, tail);
            le::lemma_bytes_of_value(tail);
            assert(out@ =~= start + tail) by {
                assert((start + all).take(start.len() as int) =~= start);
                assert(out@.take(start.len() as int) =~= out@.take((start.len() + n) as int).take(
                    start.len() as int,
                ));
            }
        }
    }

    /// Whether the number fits `width` bytes.
    pub fn fits(&self, width: usize) -> (b: bool)
        ensures
            b == (self@ < le::span(width as nat)),
    {
        let n: usize = self.byte_len();
        proof {
            if n <= width {
                le::lemma_span_monotone(n as nat, width as nat);
            } else {
                le::lemma_span_monotone(width as nat, (n - 1) as nat);
            }
        }
        n <= width
    }

    /// How many bytes the number needs.
    pub fn byte_len(&self) -> (n: usize)
        ensures
            self@ < le::span(n as nat),
            n > 0 ==> self@ >= le::span((n - 1) as nat),
    {
        proof {
            use_type_invariant(self);
            le::lemma_value_bound(self.digits@);
            if self.digits@.len() > 0 {
                lemma_trimmed_value(self.digits@);
            }
        }
        self.digits.len()
    }
}

/// The bytes of sixteen times a number and a digit, of which `s` are the bytes.
spec fn shifted_up(s: Seq<u8>, digit: u8) -> Seq<u8>
    decreases s.len(),
{
    if s.len() == 0 {
        seq![digit]
    } else {
        seq![(digit + 16 * (s[0] % 16)) as u8] + shifted_up(s.skip(1), s[0] / 16)
    }
}

proof fn lemma_shifted_up(s: Seq<u8>, digit: u8)
    requires
        digit < 16,
    ensures
        le::value(shifted_up(s, digit)) == 16 * le::value(s) + digit,
        shifted_up(s, digit).len() == s.len() + 1,
    decreases s.len(),
{
    let t = shifted_up(s, digit);
    if s.len() == 0 {
        assert(t.skip(1) =~= Seq::empty());
        assert(le::value(t.skip(1)) == 0);
    } else {
        lemma_shifted_up(s.skip(1), s[0] / 16);
        assert(t.skip(1) =~= shifted_up(s.skip(1), s[0] / 16));
    }
}

/// The bytes of a sixteenth of a number, of which `s` are the bytes.
spec fn shifted_down(s: Seq<u8>) -> Seq<u8> {
    Seq::new(
        s.len(),
        |i: int|
            (s[i] / 16 + 16 * (if i + 1 < s.len() {
                s[i + 1] % 16
            } else {
                0
            })) as u8,
    )
}

proof fn lemma_shifted_down(s: Seq<u8>)
    ensures
        le::value(shifted_down(s)) == le::value(s) / 16,
        s.len() > 0 ==> le::value(s) % 16 == s[0] as nat % 16,
    decreases s.len(),
{
    if s.len() > 0 {
        let t = shifted_down(s);
        let rest = s.skip(1);
        lemma_shifted_down(rest);
        assert(t.skip(1) =~= shifted_down(rest)) by {
            assert forall|i: int| 0 <= i < rest.len() implies t.skip(1)[i] == shifted_down(rest)[i] by {}
        }
        let v = le::value(rest);
        if rest.len() == 0 {
            assert(v == 0);
        }
    }
}

impl UintN {
    /// Sixteen times the number and a digit.
    pub fn times_16_plus(&self, digit: u8) -> (n: UintN)
        requires
            digit < 16,
        ensures
            n@ == 16 * self@ + digit,
    {
        let ghost all = self.digits@;
        let len: usize = self.digits.len();
        let mut out: Vec<u8> = Vec::new();
        let mut carry: u8 = digit;
        let mut i: usize = 0;
        proof {
            assert(all.skip(0) =~= all);
            assert(out@ + shifted_up(all, digit) =~= shifted_up(all, digit));
        }
        while i < len
            invariant
                i <= len == all.len(),
                all == self.digits@,
                carry < 16,
                out@ + shifted_up(all.skip(i as int), carry) == shifted_up(all, digit),
            decreases len - i,
        {
            let b: u8 = self.digits[i];
            let ghost rest = all.skip(i as int);
            let ghost was = out@;
            out.push(carry + 16 * (b % 16));
            proof {
                assert(rest.skip(1) =~= all.skip(i + 1));
                assert(was + shifted_up(rest, carry) =~= out@ + shifted_up(
                    all.skip(i + 1),
                    (b / 16) as u8,
                ));
            }
            carry = b / 16;
            i = i + 1;
        }
        out.push(carry);
        proof {
            assert(all.skip(len as int) =~= Seq::empty());
            assert(out@ =~= shifted_up(all, digit));
            lemma_shifted_up(all, digit);
        }
        UintN::from_le_bytes(out.as_slice())
    }

    /// A sixteenth of the number, without the rest.
    pub fn div_16(&self) -> (n: UintN)
        ensures
            n@ == self@ / 16,
    {
        let ghost all = self.digits@;
        let len: usize = self.digits.len();
        let mut out: Vec<u8> = Vec::new();
        let mut i: usize = 0;
        while i < len
            invariant
                i <= len == all.len(),
                all == self.digits@,
                out@ == shifted_down(all).take(i as int),
            decreases len - i,
        {
            let high: u8 = if i + 1 < len {
                self.digits[i + 1] % 16
            } else {
                0
            };
            out.push(self.digits[i] / 16 + 16 * high);
            assert(out@ =~= shifted_down(all).take(i + 1));
            i = i + 1;
        }
        proof {
            assert(out@ =~= shifted_down(all));
            lemma_shifted_down(all);
        }
        UintN::from_le_bytes(out.as_slice())
    }

    /// The number modulo sixteen.
    pub fn low_digit(&self) -> (d: u8)
        ensures
            d as nat == self@ % 16,
    {
        proof {
            lemma_shifted_down(self.digits@);
        }
        if self.digits.len() == 0 {
            0
        } else {
            self.digits[0] % 16
        }
    }

    pub fn is_zero(&self) -> (b: bool)
        ensures
            b == (self@ == 0),
    {
        proof {
            use_type_invariant(self);
            if self.digits@.len() > 0 {
                lemma_trimmed_value(self.digits@);
                le::lemma_span_monotone(0, (self.digits@.len() - 1) as nat);
            }
        }
        self.digits.len() == 0
    }
}

impl Clone for UintN {
    fn clone(&self) -> (n: Self)
        ensures
            n@ == self@,
    {
        proof {
            use_type_invariant(self);
        }
        let digits: Vec<u8> = vstd::slice::slice_to_vec(self.digits.as_slice());
        assert(digits@ =~= self.digits@);
        UintN { digits }
    }
}

impl From<u64> for UintN {
    fn from(v: u64) -> (n: Self)
        ensures
            n@ == v as nat,
    {
        let mut data: Vec<u8> = Vec::new();
        le::push(&mut data, v, 8);
        proof {
            assert(data@ =~= le::bytes(v as nat, 8));
            le::lemma_span_values();
            le::lemma_value_of_bytes(v as nat, 8);
        }
        UintN::from_le_bytes(data.as_slice())
    }
}

impl FromSpecImpl<u64> for UintN {
    open spec fn obeys_from_spec() -> bool {
        false
    }

    open spec fn from_spec(v: u64) -> Self {
        arbitrary()
    }
}

impl Default for UintN {
    fn default() -> (n: Self)
        ensures
            n@ == 0,
    {
        UintN::zero()
    }
}

impl PartialEq for UintN {
    fn eq(&self, other: &Self) -> (b: bool) {
        !self.is_below(other) && !other.is_below(self)
    }
}

impl PartialEqSpecImpl for UintN {
    open spec fn obeys_eq_spec() -> bool {
        true
    }

    open spec fn eq_spec(&self, other: &Self) -> bool {
        self@ == other@
    }
}

impl Eq for UintN {

}

impl PartialOrd for UintN {
    fn partial_cmp(&self, other: &Self) -> (o: Option<Ordering>) {
        if self.is_below(other) {
            Some(Ordering::Less)
        } else if other.is_below(self) {
            Some(Ordering::Greater)
        } else {
            Some(Ordering::Equal)
        }
    }
}

impl PartialOrdSpecImpl for UintN {
    open spec fn obeys_partial_cmp_spec() -> bool {
        true
    }

    open spec fn partial_cmp_spec(&self, other: &Self) -> Option<Ordering> {
        if self@ < other@ {
            Some(Ordering::Less)
        } else if self@ > other@ {
            Some(Ordering::Greater)
        } else {
            Some(Ordering::Equal)
        }
    }
}

} // verus!
