//! The path-string model.
//!
//! A path is a sequence of characters; `'/'` separates its segments. A
//! position `k` is a *cut* of `p` when the prefix `p.take(k)` ends a whole
//! segment: either `k` is the end of the string or `p[k]` is a separator.
//! The prefixes at cuts are exactly the paths of the nodes that the path
//! contributes to the tree.

use vstd::prelude::*;
use vstd::string::StrSliceExecFns;

verus! {

/// Position `k` ends a whole segment of `p`: the end of the string, or a
/// separator position.
pub open spec fn is_cut(p: Seq<char>, k: int) -> bool {
    0 <= k <= p.len() && (k == p.len() || p[k] == '/')
}

/// No separator occurs in `s`.
pub open spec fn no_slash(s: Seq<char>) -> bool {
    forall|i: int| 0 <= i < s.len() ==> s[i] != '/'
}

/// `q` is a non-empty strict ancestor prefix of some path in `pset`: the
/// membership test of the known-directories set.
pub open spec fn known_dir(pset: Set<Seq<char>>, q: Seq<char>) -> bool {
    exists|p: Seq<char>, k: int|
        pset.contains(p) && #[trigger] is_cut(p, k) && 0 < k < p.len() && q == p.take(k)
}

/// `q` is a cut prefix (the whole path included) of some path in `pset`:
/// exactly the non-root node paths of the tree built from `pset`.
pub open spec fn node_path(pset: Set<Seq<char>>, q: Seq<char>) -> bool {
    exists|p: Seq<char>, k: int| pset.contains(p) && #[trigger] is_cut(p, k) && q == p.take(k)
}

/// The final segment of `q`: everything after the last separator, or all of
/// `q` when it has none.
pub open spec fn base_name(q: Seq<char>) -> Seq<char>
    decreases q.len(),
{
    if q.len() == 0 {
        Seq::empty()
    } else if q[q.len() - 1] == '/' {
        Seq::empty()
    } else {
        base_name(q.drop_last()).push(q[q.len() - 1])
    }
}

/// A name carries an extension marker when a `'.'` occurs at any position
/// past the first character (so a lone leading dot marks no extension).
pub open spec fn has_extension(name: Seq<char>) -> bool {
    exists|i: int| 1 <= i < name.len() && name[i] == '.'
}

/// The directory flag of the node with path `q`, given the full input set:
/// forced to true when some path nests beneath `q`, otherwise decided by the
/// absence of an extension marker in its final segment.
pub open spec fn dir_flag(pset: Set<Seq<char>>, q: Seq<char>) -> bool {
    known_dir(pset, q) || !has_extension(base_name(q))
}

/// Strict lexicographic order on character sequences, by code point.
pub open spec fn lex_lt(a: Seq<char>, b: Seq<char>) -> bool
    decreases a.len(),
{
    if b.len() == 0 {
        false
    } else if a.len() == 0 {
        true
    } else if a[0] == b[0] {
        lex_lt(a.drop_first(), b.drop_first())
    } else {
        (a[0] as u32) < (b[0] as u32)
    }
}

pub proof fn lemma_lex_irrefl(a: Seq<char>)
    ensures
        !lex_lt(a, a),
    decreases a.len(),
{
    if a.len() > 0 {
        lemma_lex_irrefl(a.drop_first());
    }
}

pub proof fn lemma_lex_connected(a: Seq<char>, b: Seq<char>)
    requires
        a != b,
    ensures
        lex_lt(a, b) || lex_lt(b, a),
    decreases a.len(),
{
    if a.len() == 0 || b.len() == 0 {
        if a.len() == 0 && b.len() == 0 {
            assert(a =~= b);
        }
    } else if a[0] == b[0] {
        if a.drop_first() == b.drop_first() {
            assert(a.drop_first().len() == a.len() - 1);
            assert(b.drop_first().len() == b.len() - 1);
            assert(a.len() == b.len());
            assert forall|i: int| 0 <= i < a.len() implies a[i] == b[i] by {
                if i > 0 {
                    assert(a[i] == a.drop_first()[i - 1]);
                    assert(b[i] == b.drop_first()[i - 1]);
                }
            }
            assert(a =~= b);
        }
        lemma_lex_connected(a.drop_first(), b.drop_first());
    } else {
        assert(a[0] as u32 != b[0] as u32) by {
            vstd::utf8::char_u32_cast(a[0], a[0] as u32);
            vstd::utf8::char_u32_cast(b[0], b[0] as u32);
        }
    }
}

pub proof fn lemma_lex_asym(a: Seq<char>, b: Seq<char>)
    requires
        lex_lt(a, b),
    ensures
        !lex_lt(b, a),
        a != b,
    decreases a.len(),
{
    lemma_lex_irrefl(a);
    if a.len() > 0 && b.len() > 0 && a[0] == b[0] {
        lemma_lex_asym(a.drop_first(), b.drop_first());
    }
}

pub proof fn lemma_lex_trans(a: Seq<char>, b: Seq<char>, c: Seq<char>)
    requires
        lex_lt(a, b),
        lex_lt(b, c),
    ensures
        lex_lt(a, c),
    decreases a.len(),
{
    if a.len() > 0 && b.len() > 0 && c.len() > 0 {
        if a[0] == b[0] && b[0] == c[0] {
            lemma_lex_trans(a.drop_first(), b.drop_first(), c.drop_first());
        }
    }
}

/// A shared proper prefix decides nothing: the order is settled past it.
pub proof fn lemma_lex_skip(a: Seq<char>, b: Seq<char>, i: int)
    requires
        0 <= i <= a.len(),
        i <= b.len(),
        forall|m: int| 0 <= m < i ==> a[m] == b[m],
    ensures
        lex_lt(a, b) == lex_lt(a.skip(i), b.skip(i)),
    decreases i,
{
    if i > 0 {
        lemma_lex_skip(a.drop_first(), b.drop_first(), i - 1);
        assert(a.drop_first().skip(i - 1) =~= a.skip(i));
        assert(b.drop_first().skip(i - 1) =~= b.skip(i));
    } else {
        assert(a.skip(0) =~= a);
        assert(b.skip(0) =~= b);
    }
}

/// The base name is the suffix that follows the last separator: all of `q`
/// when it has none.
pub proof fn lemma_base_name_at(q: Seq<char>, s: int)
    requires
        0 <= s <= q.len(),
        s > 0 ==> q[s - 1] == '/',
        forall|m: int| s <= m < q.len() ==> q[m] != '/',
    ensures
        base_name(q) == q.skip(s),
    decreases q.len(),
{
    if q.len() == 0 {
        assert(base_name(q) =~= q.skip(s));
    } else if q[q.len() - 1] == '/' {
        assert(s == q.len());
        assert(base_name(q) =~= q.skip(s));
    } else if s == q.len() {
        assert(base_name(q) =~= q.skip(s));
    } else {
        lemma_base_name_at(q.drop_last(), s);
        assert(q.drop_last().skip(s) =~= q.skip(s).drop_last());
        assert(base_name(q) =~= q.skip(s));
    }
}

/// Character-by-character equality of two string slices.
pub fn str_eq(a: &str, b: &str) -> (r: bool)
    ensures
        r == (a@ == b@),
{
    let la = a.unicode_len();
    let lb = b.unicode_len();
    if la != lb {
        return false;
    }
    let mut i: usize = 0;
    while i < la
        invariant
            0 <= i <= la,
            la == a@.len(),
            la == b@.len(),
            forall|m: int| 0 <= m < i ==> a@[m] == b@[m],
        decreases la - i,
    {
        if a.get_char(i) != b.get_char(i) {
            return false;
        }
        i = i + 1;
    }
    proof {
        assert(a@ =~= b@);
    }
    true
}

/// Character-by-character lexicographic comparison of two string slices.
pub fn str_lt(a: &str, b: &str) -> (r: bool)
    ensures
        r == lex_lt(a@, b@),
{
    let la = a.unicode_len();
    let lb = b.unicode_len();
    let min = if la < lb {
        la
    } else {
        lb
    };
    let mut i: usize = 0;
    while i < min
        invariant
            0 <= i <= min,
            la == a@.len(),
            lb == b@.len(),
            min == if la < lb {
                la
            } else {
                lb
            },
            forall|m: int| 0 <= m < i ==> a@[m] == b@[m],
        decreases min - i,
    {
        let ca = a.get_char(i);
        let cb = b.get_char(i);
        if ca != cb {
            proof {
                lemma_lex_skip(a@, b@, i as int);
            }
            return (ca as u32) < (cb as u32);
        }
        i = i + 1;
    }
    proof {
        lemma_lex_skip(a@, b@, min as int);
    }
    la < lb
}

/// The position of the next separator at or past `start`, or the length when
/// none follows: the cut that closes the segment starting at `start`.
pub fn next_cut(p: &str, start: usize) -> (r: usize)
    requires
        start <= p@.len(),
    ensures
        start <= r <= p@.len(),
        is_cut(p@, r as int),
        forall|m: int| start <= m < r ==> p@[m] != '/',
    decreases p@.len() - start,
{
    let len = p.unicode_len();
    let mut k = start;
    while k < len
        invariant
            start <= k <= len,
            len == p@.len(),
            forall|m: int| start <= m < k ==> p@[m] != '/',
        decreases len - k,
    {
        if p.get_char(k) == '/' {
            return k;
        }
        k = k + 1;
    }
    k
}

/// Whether the final segment of `p` carries an extension marker.
pub fn name_has_extension(p: &str) -> (r: bool)
    ensures
        r == has_extension(base_name(p@)),
{
    let len = p.unicode_len();
    // Find the start of the base name: the position after the last separator.
    let mut s: usize = 0;
    let mut i: usize = 0;
    while i < len
        invariant
            0 <= s <= i <= len,
            len == p@.len(),
            s > 0 ==> p@[s as int - 1] == '/',
            forall|m: int| s <= m < i ==> p@[m] != '/',
        decreases len - i,
    {
        if p.get_char(i) == '/' {
            s = i + 1;
        }
        i = i + 1;
    }
    proof {
        lemma_base_name_at(p@, s as int);
    }
    let ghost base = base_name(p@);
    if s == len {
        proof {
            assert(base.len() == 0);
        }
        return false;
    }
    // A marker is a dot at any position past the base name's first character.
    let mut j: usize = s + 1;
    while j < len
        invariant
            s + 1 <= j <= len,
            len == p@.len(),
            base == base_name(p@),
            base == p@.skip(s as int),
            forall|m: int| s + 1 <= m < j ==> p@[m] != '.',
        decreases len - j,
    {
        if p.get_char(j) == '.' {
            proof {
                let w = j - s as int;
                assert(base[w] == p@[j as int]);
                assert(1 <= w < base_name(p@).len() && base_name(p@)[w] == '.');
                assert(has_extension(base_name(p@)));
            }
            return true;
        }
        j = j + 1;
    }
    proof {
        assert forall|m: int| 1 <= m < base.len() implies base[m] != '.' by {
            assert(base[m] == p@[m + s]);
        }
    }
    false
}

} // verus!
