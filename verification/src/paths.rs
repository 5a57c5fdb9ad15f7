//! Files named by id: three hex digits to a name, and a directory for every three above.

use vstd::prelude::*;
use vstd::slice::slice_subrange;

use crate::fs::path;
use crate::fs::path::SLASH;
use crate::uintn::UintN;

verus! {

/// The byte before the extension of a file.
pub const PERIOD: u8 = 46;

/// The hex digit of the value `d`.
pub open spec fn digit(d: nat) -> u8 {
    if d < 10 {
        (48 + d) as u8
    } else {
        (87 + d) as u8
    }
}

/// The value of a hex digit, where it is one.
pub open spec fn digit_value(b: u8) -> Option<nat> {
    if 48 <= b <= 57 {
        Some((b - 48) as nat)
    } else if 97 <= b <= 102 {
        Some((b - 87) as nat)
    } else {
        None
    }
}

/// Three hex digits.
pub open spec fn chunk(v: nat) -> Seq<u8> {
    seq![digit(v / 256 % 16), digit(v / 16 % 16), digit(v % 16)]
}

/// The value of three hex digits, where they are digits.
pub open spec fn chunk_value(s: Seq<u8>) -> Option<nat> {
    match (digit_value(s[0]), digit_value(s[1]), digit_value(s[2])) {
        (Some(a), Some(b), Some(c)) => Some(256 * a + 16 * b + c),
        _ => None,
    }
}

/// The name of the file `id`, without its extension.
pub open spec fn id_path(id: nat) -> Seq<u8>
    decreases id,
{
    if id < 4096 {
        chunk(id)
    } else {
        id_path(id / 4096) + seq![SLASH] + chunk(id % 4096)
    }
}

/// The id that a name without its extension spells, where it does. Zeros in front do not
/// matter.
pub open spec fn path_id(s: Seq<u8>) -> Option<nat>
    decreases s.len(),
{
    let n = s.len() as int;
    if n < 3 {
        None
    } else {
        match chunk_value(s.skip(n - 3)) {
            None => None,
            Some(low) => if n == 3 {
                Some(low)
            } else if s[n - 4] != SLASH {
                None
            } else {
                match path_id(s.take(n - 4)) {
                    Some(high) => Some(4096 * high + low),
                    None => None,
                }
            },
        }
    }
}

/// The name of the file `id` with the extension `ext`.
pub open spec fn file_name(id: nat, ext: Seq<u8>) -> Seq<u8> {
    id_path(id) + seq![PERIOD] + ext
}

/// The id of the file that a name with the extension `ext` stands for.
pub open spec fn file_id(name: Seq<u8>, ext: Seq<u8>) -> Option<nat> {
    let n = name.len() - ext.len() - 1;
    if n >= 0 && name.skip(n) == seq![PERIOD] + ext {
        path_id(name.take(n))
    } else {
        None
    }
}

proof fn lemma_digit(d: nat)
    requires
        d < 16,
    ensures
        digit_value(digit(d)) == Some(d),
{
}

proof fn lemma_chunk(v: nat)
    requires
        v < 4096,
    ensures
        chunk_value(chunk(v)) == Some(v),
{
    lemma_digit(v / 256 % 16);
    lemma_digit(v / 16 % 16);
    lemma_digit(v % 16);
}

/// A name spells the id that it was made from.
pub proof fn lemma_path_id_of_id_path(id: nat)
    ensures
        path_id(id_path(id)) == Some(id),
    decreases id,
{
    let s = id_path(id);
    let n = s.len() as int;
    if id < 4096 {
        assert(s.skip(n - 3) =~= chunk(id));
        lemma_chunk(id);
    } else {
        lemma_path_id_of_id_path(id / 4096);
        let head = id_path(id / 4096);
        lemma_chunk(id % 4096);
        assert(s.skip(n - 3) =~= chunk(id % 4096));
        assert(s.take(n - 4) =~= head);
        lemma_id_path_len(id / 4096);
    }
}

proof fn lemma_id_path_len(id: nat)
    ensures
        id_path(id).len() >= 3,
    decreases id,
{
    if id >= 4096 {
        lemma_id_path_len(id / 4096);
    }
}

/// How many names the path of `id` has.
pub open spec fn names(id: nat) -> nat
    decreases id,
{
    if id < 4096 {
        1
    } else {
        names(id / 4096) + 1
    }
}

/// The path of an id spells it in hexadecimal, three lower-case digits to a name, with slashes
/// between the names and the least digits in the last; it has as few names as it takes.
pub proof fn lemma_an_id_path_spells_its_id(id: nat, c: nat)
    requires
        c < names(id),
    ensures
        ({
            let s = id_path(id);
            let at = s.len() - 3 - 4 * c;
            let part = (id as int / vstd::arithmetic::power::pow(4096, c)) % 4096;
            let hex = |b: u8, d: int|
                b as int == if d < 10 {
                    48 + d
                } else {
                    87 + d
                };
            &&& s.len() == 4 * names(id) - 1
            &&& hex(s[at], part / 256)
            &&& hex(s[at + 1], part / 16 % 16)
            &&& hex(s[at + 2], part % 16)
            &&& c + 1 < names(id) ==> s[at - 1] == SLASH
        }),
        id < vstd::arithmetic::power::pow(4096, names(id)),
        names(id) > 1 ==> id >= vstd::arithmetic::power::pow(4096, (names(id) - 1) as nat),
    decreases id,
{
    reveal(vstd::arithmetic::power::pow);
    let s = id_path(id);
    if id < 4096 {
        vstd::arithmetic::power::lemma_pow1(4096);
        assert(vstd::arithmetic::power::pow(4096, 0) == 1);
        assert(id as int / 1 == id);
    } else {
        let n = names(id);
        let head = id_path(id / 4096);
        if c > 0 {
            lemma_an_id_path_spells_its_id(id / 4096, (c - 1) as nat);
            vstd::arithmetic::power::lemma_pow_positive(4096, (c - 1) as nat);
            vstd::arithmetic::div_mod::lemma_div_denominator(
                id as int,
                4096,
                vstd::arithmetic::power::pow(4096, (c - 1) as nat),
            );
            let at = s.len() - 3 - 4 * c;
            assert(s[at] == head[at]);
            assert(s[at + 1] == head[at + 1]);
            assert(s[at + 2] == head[at + 2]);
            if c + 1 < n {
                assert(s[at - 1] == head[at - 1]);
            }
        } else {
            lemma_an_id_path_spells_its_id(id / 4096, 0);
            assert(vstd::arithmetic::power::pow(4096, 0) == 1);
            assert(id as int / 1 == id);
        }
        assert(vstd::arithmetic::power::pow(4096, n) == 4096 * vstd::arithmetic::power::pow(
            4096,
            (n - 1) as nat,
        ));
        if n == 2 {
            vstd::arithmetic::power::lemma_pow1(4096);
        } else {
            assert(vstd::arithmetic::power::pow(4096, (n - 1) as nat) == 4096
                * vstd::arithmetic::power::pow(4096, (n - 2) as nat));
        }
    }
}

/// A name is the path of its id, a period and the extension, and nothing else.
pub proof fn lemma_a_file_name_ends_in_its_extension(id: nat, ext: Seq<u8>)
    ensures
        file_name(id, ext).len() == id_path(id).len() + 1 + ext.len(),
        file_name(id, ext).take(id_path(id).len() as int) == id_path(id),
        file_name(id, ext)[id_path(id).len() as int] == 46,
        file_name(id, ext).skip(id_path(id).len() as int + 1) == ext,
{
    let n = id_path(id).len() as int;
    assert(file_name(id, ext).take(n) =~= id_path(id));
    assert(file_name(id, ext).skip(n + 1) =~= ext);
}

/// The file of an id is found again by its name.
pub proof fn lemma_file_id_of_file_name(id: nat, ext: Seq<u8>)
    ensures
        file_id(file_name(id, ext), ext) == Some(id),
{
    let name = file_name(id, ext);
    let n = name.len() - ext.len() - 1;
    lemma_path_id_of_id_path(id);
    assert(name.skip(n) =~= seq![PERIOD] + ext);
    assert(name.take(n) =~= id_path(id));
}

/// Only what is made of three lower-case hex digits to a name, with slashes between the names,
/// is read as an id.
pub proof fn lemma_only_hex_names_are_read(s: Seq<u8>, i: int)
    requires
        path_id(s) is Some,
        0 <= i < s.len(),
    ensures
        s.len() % 4 == 3,
        (s.len() - i) % 4 == 0 ==> s[i] == 47,
        (s.len() - i) % 4 != 0 ==> 48 <= s[i] <= 57 || 97 <= s[i] <= 102,
    decreases s.len(),
{
    let n = s.len() as int;
    assert(s.skip(n - 3)[0] == s[n - 3]);
    assert(s.skip(n - 3)[1] == s[n - 2]);
    assert(s.skip(n - 3)[2] == s[n - 1]);
    if n > 3 {
        let head = s.take(n - 4);
        if i < n - 4 {
            lemma_only_hex_names_are_read(head, i);
            assert(head[i] == s[i]);
        } else {
            lemma_path_id_len(head);
            lemma_only_hex_names_are_read(head, 0);
        }
    }
}

proof fn lemma_path_id_len(s: Seq<u8>)
    ensures
        path_id(s) is Some ==> s.len() >= 3,
{
}

/// One name more at the end of a path makes its id 4096 times as large, and adds the number that
/// the name spells; a name alone spells its number.
pub proof fn lemma_a_path_is_read_name_by_name(head: Seq<u8>, name: Seq<u8>, high: nat, low: nat)
    requires
        name.len() == 3,
        path_id(name) == Some(low),
        path_id(head) == Some(high),
    ensures
        path_id(head + seq![SLASH] + name) == Some(4096 * high + low),
        low < 4096,
{
    let s = head + seq![SLASH] + name;
    let n = s.len() as int;
    assert(s.skip(n - 3) =~= name);
    assert(name.skip(0) =~= name);
    assert(s.take(n - 4) =~= head);
}

/// The id of a file is that of its name without the period and the extension; a name with
/// another extension is that of no file.
pub proof fn lemma_which_names_are_files(name: Seq<u8>, ext: Seq<u8>, id: nat)
    requires
        file_id(name, ext) == Some(id),
    ensures
        ({
            let n = name.len() - ext.len() - 1;
            &&& n >= 0
            &&& name == name.take(n) + seq![46u8] + ext
            &&& path_id(name.take(n)) == Some(id)
        }),
{
    let n = name.len() - ext.len() - 1;
    assert(name =~= name.take(n) + name.skip(n));
    assert(name =~= name.take(n) + seq![46u8] + ext);
}

/// Files of different ids have different names.
pub proof fn lemma_file_names_differ(a: nat, b: nat, ext: Seq<u8>)
    requires
        a != b,
    ensures
        file_name(a, ext) != file_name(b, ext),
{
    lemma_file_id_of_file_name(a, ext);
    lemma_file_id_of_file_name(b, ext);
}

fn digit_byte(d: u8) -> (b: u8)
    requires
        d < 16,
    ensures
        b == digit(d as nat),
{
    if d < 10 {
        48 + d
    } else {
        87 + d
    }
}

/// Appends the name of the file `id`, without its extension.
fn push_id_path(out: &mut Vec<u8>, id: &UintN)
    ensures
        final(out)@ == old(out)@ + id_path(id@),
    decreases id@,
{
    let ghost start = out@;
    let c: u8 = id.low_digit();
    let id_b: UintN = id.div_16();
    let b: u8 = id_b.low_digit();
    let id_a: UintN = id_b.div_16();
    let a: u8 = id_a.low_digit();
    let rest: UintN = id_a.div_16();
    proof {
        let v = id@;
        assert(v / 16 / 16 == v / 256) by (nonlinear_arith);
        assert(v / 256 / 16 == v / 4096) by (nonlinear_arith);
        assert(v % 4096 / 256 % 16 == v / 256 % 16) by (nonlinear_arith);
        assert(v % 4096 / 16 % 16 == v / 16 % 16) by (nonlinear_arith);
        assert(v % 4096 % 16 == v % 16) by (nonlinear_arith);
        assert(chunk(v % 4096) =~= chunk(v));
    }
    if !rest.is_zero() {
        push_id_path(out, &rest);
        out.push(SLASH);
    }
    out.push(digit_byte(a));
    out.push(digit_byte(b));
    out.push(digit_byte(c));
    assert(out@ =~= start + id_path(id@));
}

impl UintN {
    /// The path of the file of this id under `base`, with the extension `ext`.
    pub fn to_file_path(&self, base: &[u8], ext: &[u8]) -> (out: Vec<u8>)
        ensures
            out@ == base@ + seq![SLASH] + file_name(self@, ext@),
    {
        let mut out: Vec<u8> = Vec::new();
        out.extend_from_slice(base);
        out.push(SLASH);
        push_id_path(&mut out, self);
        out.push(PERIOD);
        out.extend_from_slice(ext);
        assert(out@ =~= base@ + seq![SLASH] + file_name(self@, ext@));
        out
    }
}

fn read_digit(b: u8) -> (r: Option<u8>)
    ensures
        match r {
            Some(d) => d < 16 && digit_value(b) == Some(d as nat),
            None => digit_value(b) is None,
        },
{
    if b >= 48 && b <= 57 {
        Some(b - 48)
    } else if b >= 97 && b <= 102 {
        Some(b - 87)
    } else {
        None
    }
}

/// The id that a name without its extension spells, where it does.
fn read_path_id(s: &[u8]) -> (r: Option<UintN>)
    ensures
        match r {
            Some(id) => path_id(s@) == Some(id@),
            None => path_id(s@) is None,
        },
    decreases s@.len(),
{
    let n: usize = s.len();
    if n < 3 {
        return None;
    }
    let (a, b, c): (u8, u8, u8) = match (
        read_digit(s[n - 3]),
        read_digit(s[n - 2]),
        read_digit(s[n - 1]),
    ) {
        (Some(a), Some(b), Some(c)) => (a, b, c),
        _ => {
            return None;
        },
    };
    let high: UintN = if n == 3 {
        UintN::zero()
    } else if s[n - 4] != SLASH {
        return None;
    } else {
        let head: &[u8] = slice_subrange(s, 0, n - 4);
        assert(head@ =~= s@.take(n - 4));
        match read_path_id(head) {
            Some(id) => id,
            None => {
                return None;
            },
        }
    };
    let id: UintN = high.times_16_plus(a).times_16_plus(b).times_16_plus(c);
    Some(id)
}

/// The id of the file that a name with the extension `ext` stands for.
pub fn read_file_id(name: &[u8], ext: &[u8]) -> (r: Option<UintN>)
    ensures
        match r {
            Some(id) => file_id(name@, ext@) == Some(id@),
            None => file_id(name@, ext@) is None,
        },
{
    let len: usize = name.len();
    let tail: usize = ext.len();
    if len <= tail {
        return None;
    }
    let n: usize = len - tail - 1;
    let rest: &[u8] = slice_subrange(name, n + 1, len);
    proof {
        let suffix = name@.skip(n as int);
        assert(suffix =~= seq![name@[n as int]] + rest@);
        if suffix == seq![PERIOD] + ext@ {
            assert(suffix[0] == PERIOD);
            assert(suffix.skip(1) =~= ext@);
            assert(suffix.skip(1) =~= rest@);
        }
    }
    if name[n] != PERIOD || !path::same_bytes(rest, ext) {
        return None;
    }
    let stem: &[u8] = slice_subrange(name, 0, n);
    assert(stem@ =~= name@.take(n as int));
    read_path_id(stem)
}

} // verus!
