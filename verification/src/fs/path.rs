//! What a path names, piece by piece.

use vstd::prelude::*;
use vstd::slice::{slice_subrange, slice_to_vec};

verus! {

/// The byte between the pieces of a path.
pub const SLASH: u8 = 47;

/// The byte of the name that means a directory itself.
pub const DOT: u8 = 46;

/// Where the first separator of `s` is; its length if there is none.
pub open spec fn first_slash(s: Seq<u8>) -> nat
    decreases s.len(),
{
    if s.len() == 0 || s[0] == SLASH {
        0
    } else {
        1 + first_slash(s.skip(1))
    }
}

/// Whether a piece of a path says nothing: it is empty, or a dot.
pub open spec fn idle(piece: Seq<u8>) -> bool {
    piece.len() == 0 || piece == seq![DOT]
}

/// The pieces of a path that say something.
pub open spec fn pieces(s: Seq<u8>) -> Seq<Seq<u8>>
    decreases s.len(),
{
    let n = first_slash(s);
    if n > s.len() {
        Seq::empty()
    } else {
        let piece = s.take(n as int);
        let rest = if n < s.len() {
            pieces(s.skip(n as int + 1))
        } else {
            Seq::empty()
        };
        if idle(piece) {
            rest
        } else {
            seq![piece] + rest
        }
    }
}

/// What a path names. Repeated and trailing separators do not matter, and neither does a dot
/// that is not the first piece of a relative path.
#[verifier::ext_equal]
pub struct PathView {
    /// Whether the path starts at the root.
    pub rooted: bool,
    /// Whether the path is relative and starts with a dot.
    pub here: bool,
    pub pieces: Seq<Seq<u8>>,
}

/// What the path `s` names.
pub open spec fn named(s: Seq<u8>) -> PathView {
    PathView {
        rooted: s.len() > 0 && s[0] == SLASH,
        here: s.take(first_slash(s) as int) == seq![DOT],
        pieces: pieces(s),
    }
}

proof fn lemma_first_slash(s: Seq<u8>, n: int)
    requires
        0 <= n <= s.len(),
        forall|i: int| 0 <= i < n ==> s[i] != SLASH,
        n == s.len() || s[n] == SLASH,
    ensures
        first_slash(s) == n,
    decreases n,
{
    if n > 0 {
        lemma_first_slash(s.skip(1), n - 1);
    }
}

proof fn lemma_first_slash_bound(s: Seq<u8>)
    ensures
        first_slash(s) <= s.len(),
    decreases s.len(),
{
    if s.len() > 0 {
        lemma_first_slash_bound(s.skip(1));
    }
}

/// The pieces of two paths with a separator between them are those of the one and then those of
/// the other.
pub proof fn lemma_pieces_join(a: Seq<u8>, b: Seq<u8>)
    ensures
        pieces(a + seq![SLASH] + b) == pieces(a) + pieces(b),
    decreases a.len(),
{
    let s = a + seq![SLASH] + b;
    let n = first_slash(a);
    lemma_first_slash_bound(a);
    lemma_no_slash_before(a);
    assert forall|i: int| 0 <= i < n implies s[i] != SLASH by {
        assert(s[i] == a[i]);
    }
    lemma_first_slash(s, n as int);
    assert(s.take(n as int) =~= a.take(n as int));
    if n < a.len() {
        let rest = a.skip(n as int + 1);
        assert(s.skip(n as int + 1) =~= rest + seq![SLASH] + b);
        lemma_pieces_join(rest, b);
        assert(seq![a.take(n as int)] + (pieces(rest) + pieces(b)) =~= (seq![a.take(n as int)]
            + pieces(rest)) + pieces(b));
    } else {
        assert(s.skip(n as int + 1) =~= b);
        assert(Seq::<Seq<u8>>::empty() + pieces(b) =~= pieces(b));
        assert(seq![a.take(n as int)] + Seq::<Seq<u8>>::empty() =~= seq![a.take(n as int)]);
    }
}

/// A name without separators is one piece, unless it is empty or a dot: those are none.
pub proof fn lemma_a_name_is_one_piece(name: Seq<u8>)
    requires
        forall|i: int| 0 <= i < name.len() ==> name[i] != SLASH,
    ensures
        name.len() > 0 && name != seq![DOT] ==> pieces(name) == seq![name],
        name.len() == 0 || name == seq![DOT] ==> pieces(name).len() == 0,
{
    lemma_first_slash(name, name.len() as int);
    assert(name.take(name.len() as int) =~= name);
    assert(seq![name] + Seq::<Seq<u8>>::empty() =~= seq![name]);
}

/// A path is one from the root if it begins with a slash, and one from here if its first name is
/// a period.
pub proof fn lemma_where_a_path_begins(s: Seq<u8>)
    ensures
        named(s).rooted <==> s.len() > 0 && s[0] == 47,
        named(s).here <==> s == seq![46u8] || s.len() >= 2 && s[0] == 46 && s[1] == 47,
        named(s).pieces == pieces(s),
{
    let n = first_slash(s);
    lemma_first_slash_bound(s);
    lemma_no_slash_before(s);
    let front = s.take(n as int);
    if named(s).here {
        assert(front == seq![DOT]);
        assert(front.len() == 1);
        assert(front[0] == s[0]);
        if s.len() == 1 {
            assert(s =~= seq![46u8]);
        } else if s[1] != 47 {
            lemma_slash_there(s);
        }
    }
    if s == seq![46u8] || s.len() >= 2 && s[0] == 46 && s[1] == 47 {
        lemma_first_slash(s, 1);
        assert(front =~= seq![DOT]);
    }
}

/// The first slash is one.
proof fn lemma_slash_there(s: Seq<u8>)
    ensures
        first_slash(s) < s.len() ==> s[first_slash(s) as int] == SLASH,
    decreases s.len(),
{
    if s.len() > 0 && s[0] != SLASH {
        lemma_slash_there(s.skip(1));
    }
}

proof fn lemma_no_slash_before(s: Seq<u8>)
    ensures
        forall|i: int| 0 <= i < first_slash(s) && i < s.len() ==> s[i] != SLASH,
        first_slash(s) < s.len() ==> s[first_slash(s) as int] == SLASH,
    decreases s.len(),
{
    if s.len() > 0 && s[0] != SLASH {
        let t = s.skip(1);
        lemma_no_slash_before(t);
        lemma_first_slash_bound(t);
        assert forall|i: int| 0 <= i < first_slash(s) && i < s.len() implies s[i] != SLASH by {
            if i > 0 {
                assert(s[i] == t[i - 1]);
            }
        }
        if first_slash(s) < s.len() {
            assert(t[first_slash(t) as int] == s[first_slash(s) as int]);
        }
    }
}

/// Where the first separator of `path` from `from` on is; its length if there is none.
fn next_slash(path: &[u8], from: usize) -> (n: usize)
    requires
        from <= path@.len(),
    ensures
        from <= n <= path@.len(),
        n == from + first_slash(path@.skip(from as int)),
{
    let len: usize = path.len();
    let mut n: usize = from;
    while n < len && path[n] != SLASH
        invariant
            from <= n <= len == path@.len(),
            forall|i: int| from <= i < n ==> path@[i] != SLASH,
        decreases len - n,
    {
        n = n + 1;
    }
    proof {
        lemma_first_slash(path@.skip(from as int), n - from);
    }
    n
}

/// What `parts` hold.
pub open spec fn part_views(parts: Seq<Vec<u8>>) -> Seq<Seq<u8>> {
    Seq::new(parts.len(), |i: int| parts[i]@)
}

/// The pieces of a path that say something.
pub fn split(path: &[u8]) -> (out: Vec<Vec<u8>>)
    ensures
        part_views(out@) == pieces(path@),
{
    let len: usize = path.len();
    let mut out: Vec<Vec<u8>> = Vec::new();
    let mut at: usize = 0;
    let mut going: bool = true;
    proof {
        assert(path@.skip(0) =~= path@);
        assert(part_views(out@) + pieces(path@) =~= pieces(path@));
    }
    while going
        invariant
            at <= len == path@.len(),
            going ==> part_views(out@) + pieces(path@.skip(at as int)) == pieces(path@),
            !going ==> part_views(out@) == pieces(path@),
        decreases len - at + if going {
                1int
            } else {
                0int
            },
    {
        let ghost rest = path@.skip(at as int);
        let ghost was = out@;
        let n: usize = next_slash(path, at);
        let piece: &[u8] = slice_subrange(path, at, n);
        proof {
            lemma_first_slash_bound(rest);
            assert(piece@ =~= rest.take(first_slash(rest) as int));
        }
        let quiet: bool = piece.len() == 0 || piece.len() == 1 && piece[0] == DOT;
        assert(quiet == idle(piece@)) by {
            if piece@.len() == 1 && piece@[0] == DOT {
                assert(piece@ =~= seq![DOT]);
            }
        }
        if !quiet {
            out.push(slice_to_vec(piece));
            assert(part_views(out@) =~= part_views(was).push(piece@));
        }
        if n == len {
            assert(part_views(out@) =~= pieces(path@)) by {
                assert(pieces(rest) =~= if quiet {
                    Seq::empty()
                } else {
                    seq![piece@]
                });
            }
            going = false;
        } else {
            proof {
                assert(rest.skip(first_slash(rest) as int + 1) =~= path@.skip(n + 1));
                let later = pieces(path@.skip(n + 1));
                assert(part_views(out@) + later =~= part_views(was) + pieces(rest));
            }
            at = n + 1;
        }
    }
    out
}

/// Whether two byte strings are the same.
pub fn same_bytes(a: &[u8], b: &[u8]) -> (r: bool)
    ensures
        r == (a@ == b@),
{
    let n: usize = a.len();
    if n != b.len() {
        return false;
    }
    let mut i: usize = 0;
    while i < n
        invariant
            i <= n == a@.len() == b@.len(),
            forall|k: int| 0 <= k < i ==> a@[k] == b@[k],
        decreases n - i,
    {
        if a[i] != b[i] {
            return false;
        }
        i = i + 1;
    }
    assert(a@ =~= b@);
    true
}

/// Whether a path starts with a dot as its first piece.
fn starts_here(path: &[u8]) -> (b: bool)
    ensures
        b == named(path@).here,
{
    assert(path@.skip(0) =~= path@);
    let n: usize = next_slash(path, 0);
    let first: &[u8] = slice_subrange(path, 0, n);
    assert(first@ =~= path@.take(n as int));
    let b: bool = first.len() == 1 && first[0] == DOT;
    assert(b == (first@ == seq![DOT])) by {
        if first@.len() == 1 && first@[0] == DOT {
            assert(first@ =~= seq![DOT]);
        }
    }
    b
}

/// Whether two paths name the same thing.
pub fn same_path(a: &[u8], b: &[u8]) -> (r: bool)
    ensures
        r == (named(a@) == named(b@)),
{
    let a_rooted: bool = a.len() > 0 && a[0] == SLASH;
    let b_rooted: bool = b.len() > 0 && b[0] == SLASH;
    if a_rooted != b_rooted || starts_here(a) != starts_here(b) {
        return false;
    }
    let x: Vec<Vec<u8>> = split(a);
    let y: Vec<Vec<u8>> = split(b);
    let n: usize = x.len();
    if n != y.len() {
        assert(part_views(x@).len() != part_views(y@).len());
        return false;
    }
    let mut i: usize = 0;
    while i < n
        invariant
            i <= n == x@.len() == y@.len(),
            part_views(x@) == pieces(a@),
            part_views(y@) == pieces(b@),
            forall|k: int| 0 <= k < i ==> part_views(x@)[k] == part_views(y@)[k],
        decreases n - i,
    {
        if !same_bytes(x[i].as_slice(), y[i].as_slice()) {
            assert(part_views(x@)[i as int] != part_views(y@)[i as int]);
            return false;
        }
        i = i + 1;
    }
    assert(part_views(x@) =~= part_views(y@));
    true
}

} // verus!
