use vstd::prelude::*;

verus! {

/// `a` comes strictly before `b` in lexicographic order, comparing from
/// index `i` on (a proper prefix comes first).
pub open spec fn lex_lt_from(a: Seq<i32>, b: Seq<i32>, i: int) -> bool
    decreases a.len() - i,
{
    if i < 0 || i >= a.len() {
        i >= 0 && i < b.len()
    } else if i >= b.len() {
        false
    } else if a[i] < b[i] {
        true
    } else if a[i] > b[i] {
        false
    } else {
        lex_lt_from(a, b, i + 1)
    }
}

/// Lexicographic "strictly less", the order `Vec<i32>` compares by.
pub open spec fn lex_lt(a: Seq<i32>, b: Seq<i32>) -> bool {
    lex_lt_from(a, b, 0)
}

/// Lexicographic "less or equal".
pub open spec fn lex_le(a: Seq<i32>, b: Seq<i32>) -> bool {
    lex_lt(a, b) || a == b
}

pub proof fn lemma_lex_lt_from_irreflexive(a: Seq<i32>, i: int)
    requires
        0 <= i,
    ensures
        !lex_lt_from(a, a, i),
    decreases a.len() - i,
{
    if i < a.len() {
        lemma_lex_lt_from_irreflexive(a, i + 1);
    }
}

pub proof fn lemma_lex_lt_from_asymmetric(a: Seq<i32>, b: Seq<i32>, i: int)
    requires
        0 <= i,
        lex_lt_from(a, b, i),
    ensures
        !lex_lt_from(b, a, i),
    decreases a.len() - i,
{
    if i < a.len() && i < b.len() && a[i] == b[i] {
        lemma_lex_lt_from_asymmetric(a, b, i + 1);
    }
}

pub proof fn lemma_lex_lt_from_transitive(a: Seq<i32>, b: Seq<i32>, c: Seq<i32>, i: int)
    requires
        0 <= i,
        lex_lt_from(a, b, i),
        lex_lt_from(b, c, i),
    ensures
        lex_lt_from(a, c, i),
    decreases a.len() - i,
{
    if i < a.len() && i < b.len() && i < c.len() && a[i] == b[i] && b[i] == c[i] {
        lemma_lex_lt_from_transitive(a, b, c, i + 1);
    }
}

/// Two sequences that agree before `i` and neither of which comes first
/// from `i` on are equal.
pub proof fn lemma_lex_lt_from_total(a: Seq<i32>, b: Seq<i32>, i: int)
    requires
        0 <= i <= a.len(),
        i <= b.len(),
        a.subrange(0, i) == b.subrange(0, i),
        !lex_lt_from(a, b, i),
        !lex_lt_from(b, a, i),
    ensures
        a == b,
    decreases a.len() - i,
{
    if i < a.len() && i < b.len() {
        assert(a.subrange(0, i + 1) =~= a.subrange(0, i).push(a[i]));
        assert(b.subrange(0, i + 1) =~= b.subrange(0, i).push(b[i]));
        lemma_lex_lt_from_total(a, b, i + 1);
    } else {
        assert(a =~= a.subrange(0, i));
        assert(b =~= b.subrange(0, i));
    }
}

/// Lexicographic order is a strict total order.
pub proof fn lemma_lex_order(a: Seq<i32>, b: Seq<i32>, c: Seq<i32>)
    ensures
        !lex_lt(a, a),
        lex_lt(a, b) ==> !lex_lt(b, a),
        lex_lt(a, b) && lex_lt(b, c) ==> lex_lt(a, c),
        lex_lt(a, b) || lex_lt(b, a) || a == b,
{
    lemma_lex_lt_from_irreflexive(a, 0);
    if lex_lt(a, b) {
        lemma_lex_lt_from_asymmetric(a, b, 0);
    }
    if lex_lt(a, b) && lex_lt(b, c) {
        lemma_lex_lt_from_transitive(a, b, c, 0);
    }
    if !lex_lt(a, b) && !lex_lt(b, a) {
        assert(a.subrange(0, 0) =~= b.subrange(0, 0));
        lemma_lex_lt_from_total(a, b, 0);
    }
}

/// Whether `a` comes strictly before `b` lexicographically.
pub fn vec_lex_lt(a: &Vec<i32>, b: &Vec<i32>) -> (r: bool)
    ensures
        r == lex_lt(a@, b@),
{
    let mut i: usize = 0;
    while i < a.len() && i < b.len()
        invariant
            i <= a@.len(),
            i <= b@.len(),
            lex_lt(a@, b@) == lex_lt_from(a@, b@, i as int),
        decreases a@.len() - i,
    {
        if a[i] < b[i] {
            return true;
        } else if a[i] > b[i] {
            return false;
        }
        i = i + 1;
    }
    i < b.len()
}

} // verus!
