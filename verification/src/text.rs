//! Character-level helpers on `str` whose contracts speak of `s@`.

use vstd::prelude::*;

verus! {

/// `p` is a prefix of `s`.
pub open spec fn is_prefix(p: Seq<char>, s: Seq<char>) -> bool {
    p.len() <= s.len() && s.subrange(0, p.len() as int) == p
}

/// Lexicographic order on character sequences, comparing characters by code
/// point; a proper prefix comes first.  This is the order of `str`'s `Ord`,
/// which compares the UTF-8 bytes, an encoding that keeps code point order.
pub open spec fn lex_le(a: Seq<char>, b: Seq<char>) -> bool
    decreases a.len(),
{
    if a.len() == 0 {
        true
    } else if b.len() == 0 {
        false
    } else if (a[0] as u32) < (b[0] as u32) {
        true
    } else if a[0] == b[0] {
        lex_le(a.drop_first(), b.drop_first())
    } else {
        false
    }
}

/// The characters of `s`, in order.
pub fn chars_of(s: &str) -> (v: Vec<char>)
    ensures
        v@ == s@,
{
    let mut v: Vec<char> = Vec::new();
    for c in it: s.chars()
        invariant
            it.seq() == s@,
            v@ == it.seq().take(it.index() as int),
    {
        v.push(c);
        assert(it.seq().take(it.index() + 1) == v@);
    }
    v
}

/// Whether the first `n` characters of `a` and `b` agree.
fn chars_agree(a: &Vec<char>, b: &Vec<char>, n: usize) -> (r: bool)
    requires
        n <= a.len(),
        n <= b.len(),
    ensures
        r == (a@.subrange(0, n as int) == b@.subrange(0, n as int)),
{
    let mut i: usize = 0;
    while i < n
        invariant
            i <= n,
            n <= a.len(),
            n <= b.len(),
            a@.subrange(0, i as int) == b@.subrange(0, i as int),
        decreases n - i,
    {
        if a[i] != b[i] {
            assert(a@.subrange(0, n as int)[i as int] != b@.subrange(0, n as int)[i as int]);
            return false;
        }
        assert(a@.subrange(0, i + 1) == a@.subrange(0, i as int).push(a@[i as int]));
        assert(b@.subrange(0, i + 1) == b@.subrange(0, i as int).push(b@[i as int]));
        i = i + 1;
    }
    true
}

/// Whether `a` and `b` hold the same characters.
pub fn str_eq(a: &str, b: &str) -> (r: bool)
    ensures
        r == (a@ == b@),
{
    let av = chars_of(a);
    let bv = chars_of(b);
    if av.len() != bv.len() {
        return false;
    }
    let r = chars_agree(&av, &bv, av.len());
    assert(av@.subrange(0, av.len() as int) == av@);
    assert(bv@.subrange(0, bv.len() as int) == bv@);
    r
}

/// Whether `s` begins with `prefix`.
pub fn starts_with(s: &str, prefix: &str) -> (r: bool)
    ensures
        r == is_prefix(prefix@, s@),
{
    let sv = chars_of(s);
    let pv = chars_of(prefix);
    if pv.len() > sv.len() {
        return false;
    }
    let r = chars_agree(&sv, &pv, pv.len());
    assert(pv@.subrange(0, pv.len() as int) == pv@);
    r
}

/// The order of paths is by code point, first character first: every
/// sequence comes before itself extended, and a smaller first character
/// comes strictly first.
pub proof fn law_code_point_order(a: Seq<char>, b: Seq<char>)
    ensures
        lex_le(a, a),
        lex_le(a, a + b),
        a.len() > 0 && b.len() > 0 && (a[0] as u32) < (b[0] as u32) ==> lex_le(a, b) && !lex_le(b, a),
    decreases a.len(),
{
    if a.len() > 0 {
        law_code_point_order(a.drop_first(), b);
        assert((a + b).drop_first() =~= a.drop_first() + b);
        assert((a + b)[0] == a[0]);
    }
}

} // verus!
