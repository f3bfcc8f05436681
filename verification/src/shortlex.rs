//! The order in which paths are enumerated: shorter paths first, paths of one
//! length in lexicographic order.

use vstd::prelude::*;

verus! {

/// Lexicographic order on two sequences of one length.
#[verifier::opaque]
pub open spec fn lex_lt(p: Seq<int>, q: Seq<int>) -> bool
    decreases p.len(),
{
    if p.len() == 0 || q.len() == 0 {
        false
    } else if p.drop_last() == q.drop_last() {
        p.last() < q.last()
    } else {
        lex_lt(p.drop_last(), q.drop_last())
    }
}

/// `p` comes before `q`: it is shorter, or as long and lexicographically less.
pub open spec fn shortlex_lt(p: Seq<int>, q: Seq<int>) -> bool {
    p.len() < q.len() || (p.len() == q.len() && lex_lt(p, q))
}

pub open spec fn shortlex_le(p: Seq<int>, q: Seq<int>) -> bool {
    p == q || shortlex_lt(p, q)
}

pub proof fn lemma_lex_irreflexive(p: Seq<int>)
    ensures
        !lex_lt(p, p),
    decreases p.len(),
{
    reveal(lex_lt);
    if p.len() > 0 {
        lemma_lex_irreflexive(p.drop_last());
    }
}

pub proof fn lemma_lex_transitive(p: Seq<int>, q: Seq<int>, r: Seq<int>)
    requires
        p.len() == q.len(),
        q.len() == r.len(),
        lex_lt(p, q),
        lex_lt(q, r),
    ensures
        lex_lt(p, r),
    decreases p.len(),
{
    reveal(lex_lt);
    if p.len() > 0 {
        let p0 = p.drop_last();
        let q0 = q.drop_last();
        let r0 = r.drop_last();
        if p0 == q0 {
            if q0 != r0 {
                lemma_lex_irreflexive(p0);
            }
        } else if q0 == r0 {
            lemma_lex_irreflexive(p0);
        } else {
            lemma_lex_transitive(p0, q0, r0);
            lemma_lex_irreflexive(p0);
        }
    }
}

/// Two sequences of one length are equal, or one is less than the other.
pub proof fn lemma_lex_total(p: Seq<int>, q: Seq<int>)
    requires
        p.len() == q.len(),
    ensures
        p == q || lex_lt(p, q) || lex_lt(q, p),
    decreases p.len(),
{
    reveal(lex_lt);
    if p.len() == 0 {
        assert(p =~= q);
    } else {
        lemma_lex_total(p.drop_last(), q.drop_last());
        if p.drop_last() == q.drop_last() && p.last() == q.last() {
            assert(p =~= p.drop_last().push(p.last()));
            assert(q =~= q.drop_last().push(q.last()));
        }
    }
}

pub proof fn lemma_shortlex_irreflexive(p: Seq<int>)
    ensures
        !shortlex_lt(p, p),
{
    lemma_lex_irreflexive(p);
}

pub proof fn lemma_shortlex_transitive(p: Seq<int>, q: Seq<int>, r: Seq<int>)
    requires
        shortlex_lt(p, q) || p == q,
        shortlex_lt(q, r) || q == r,
    ensures
        shortlex_le(p, r),
        shortlex_lt(p, q) || shortlex_lt(q, r) ==> shortlex_lt(p, r),
{
    if p.len() == q.len() && q.len() == r.len() && lex_lt(p, q) && lex_lt(q, r) {
        lemma_lex_transitive(p, q, r);
    }
}

pub proof fn lemma_shortlex_total(p: Seq<int>, q: Seq<int>)
    ensures
        p == q || shortlex_lt(p, q) || shortlex_lt(q, p),
{
    if p.len() == q.len() {
        lemma_lex_total(p, q);
    }
}

/// Two paths cannot each come before the other.
pub proof fn lemma_shortlex_asymmetric(p: Seq<int>, q: Seq<int>)
    requires
        shortlex_lt(p, q),
    ensures
        !shortlex_lt(q, p),
        p != q,
{
    if shortlex_lt(q, p) {
        lemma_shortlex_transitive(p, q, p);
    }
    lemma_shortlex_irreflexive(p);
}

/// A path comes before each of its extensions.
pub proof fn lemma_shortlex_extend(p: Seq<int>, a: int)
    ensures
        shortlex_lt(p, p.push(a)),
{
    reveal(lex_lt);
}

/// Extending keeps the order of two paths, whatever is appended.
pub proof fn lemma_shortlex_push(p: Seq<int>, q: Seq<int>, a: int, b: int)
    requires
        shortlex_lt(p, q),
    ensures
        shortlex_lt(p.push(a), q.push(b)),
{
    reveal(lex_lt);
    assert(p.push(a).drop_last() =~= p);
    assert(q.push(b).drop_last() =~= q);
    if p.len() == q.len() {
        lemma_lex_irreflexive(p);
    }
}

/// Of two extensions of one path, the one by the smaller index comes first.
pub proof fn lemma_shortlex_push_same(p: Seq<int>, a: int, b: int)
    requires
        a < b,
    ensures
        shortlex_lt(p.push(a), p.push(b)),
{
    reveal(lex_lt);
    assert(p.push(a).drop_last() =~= p);
    assert(p.push(b).drop_last() =~= p);
}

/// Extending two ordered paths by the same index keeps their order.
pub proof fn lemma_shortlex_le_push(p: Seq<int>, q: Seq<int>, a: int)
    requires
        shortlex_le(p, q),
    ensures
        shortlex_le(p.push(a), q.push(a)),
{
    if p != q {
        lemma_shortlex_push(p, q, a, a);
    }
}

} // verus!
