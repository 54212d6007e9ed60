//! Character sequences: lexicographic order and prefixes.
use vstd::prelude::*;
use vstd::string::*;

verus! {

/// `a` sorts strictly before `b` in the lexicographic order of code points,
/// which is the order of `<` on `str` and `String`.
pub open spec fn lex_lt(a: Seq<char>, b: Seq<char>) -> bool
    decreases a.len(),
{
    if a.len() == 0 {
        b.len() > 0
    } else if b.len() == 0 {
        false
    } else if a[0] != b[0] {
        a[0] < b[0]
    } else {
        lex_lt(a.drop_first(), b.drop_first())
    }
}

/// Whether `s` starts with `prefix`.
pub fn starts_with(s: &str, prefix: &str) -> (r: bool)
    ensures
        r == prefix@.is_prefix_of(s@),
{
    let n = s.unicode_len();
    let m = prefix.unicode_len();
    if m > n {
        return false;
    }
    let mut i: usize = 0;
    while i < m
        invariant
            m == prefix@.len(),
            n == s@.len(),
            m <= n,
            i <= m,
            forall|j: int| 0 <= j < i ==> prefix@[j] == s@[j],
        decreases m - i,
    {
        if prefix.get_char(i) != s.get_char(i) {
            assert(prefix@[i as int] != s@.subrange(0, m as int)[i as int]);
            return false;
        }
        i = i + 1;
    }
    assert(prefix@ =~= s@.subrange(0, m as int));
    true
}

/// Whether `a` sorts strictly before `b`.
pub fn lex_less(a: &str, b: &str) -> (r: bool)
    ensures
        r == lex_lt(a@, b@),
{
    let n = a.unicode_len();
    let m = b.unicode_len();
    let mut i: usize = 0;
    assert(a@.skip(0) =~= a@);
    assert(b@.skip(0) =~= b@);
    while i < n && i < m
        invariant
            n == a@.len(),
            m == b@.len(),
            i <= n,
            i <= m,
            lex_lt(a@, b@) == lex_lt(a@.skip(i as int), b@.skip(i as int)),
        decreases n - i,
    {
        let ca = a.get_char(i);
        let cb = b.get_char(i);
        if ca != cb {
            return ca < cb;
        }
        assert(a@.skip(i as int).drop_first() =~= a@.skip(i + 1));
        assert(b@.skip(i as int).drop_first() =~= b@.skip(i + 1));
        i = i + 1;
    }
    i < m
}

pub proof fn lemma_lex_trans(a: Seq<char>, b: Seq<char>, c: Seq<char>)
    requires
        lex_lt(a, b),
        lex_lt(b, c),
    ensures
        lex_lt(a, c),
    decreases a.len(),
{
    if a.len() > 0 && a[0] == b[0] && b[0] == c[0] {
        lemma_lex_trans(a.drop_first(), b.drop_first(), c.drop_first());
    }
}

pub proof fn lemma_lex_total(a: Seq<char>, b: Seq<char>)
    requires
        a != b,
    ensures
        lex_lt(a, b) || lex_lt(b, a),
    decreases a.len(),
{
    if a.len() > 0 && b.len() > 0 {
        if a[0] == b[0] {
            if a.drop_first() == b.drop_first() {
                assert(a =~= seq![a[0]] + a.drop_first());
                assert(b =~= seq![b[0]] + b.drop_first());
            }
            lemma_lex_total(a.drop_first(), b.drop_first());
        }
    } else if a.len() == 0 && b.len() == 0 {
        assert(a =~= b);
    }
}

/// A sequence never sorts strictly before one of its prefixes.
pub proof fn lemma_prefix_not_lt(p: Seq<char>, a: Seq<char>)
    requires
        p.is_prefix_of(a),
    ensures
        !lex_lt(a, p),
    decreases p.len(),
{
    if p.len() > 0 {
        assert(a[0] == p[0]);
        assert(p.drop_first() =~= a.drop_first().subrange(0, p.len() - 1));
        lemma_prefix_not_lt(p.drop_first(), a.drop_first());
    }
}

/// A sequence that neither has `p` as a prefix nor sorts before `p` sorts
/// after every sequence that has `p` as a prefix.
pub proof fn lemma_after_prefixed(p: Seq<char>, a: Seq<char>, b: Seq<char>)
    requires
        p.len() > 0,
        p.is_prefix_of(b),
        !p.is_prefix_of(a),
        !lex_lt(a, p),
    ensures
        lex_lt(b, a),
    decreases p.len(),
{
    assert(b[0] == p[0]);
    if a[0] == p[0] {
        if p.len() == 1 {
            assert(p =~= a.subrange(0, 1));
        } else {
            assert(p.drop_first() =~= b.drop_first().subrange(0, p.len() - 1));
            if p.drop_first().is_prefix_of(a.drop_first()) {
                assert forall|k: int| 0 <= k < p.len() implies p[k] == a[k] by {
                    if k > 0 {
                        assert(p.drop_first()[k - 1] == p[k]);
                        assert(a.drop_first().subrange(0, p.len() - 1)[k - 1] == a[k]);
                    }
                }
                assert(p =~= a.subrange(0, p.len() as int));
            }
            lemma_after_prefixed(p.drop_first(), a.drop_first(), b.drop_first());
        }
    }
}

} // verus!
