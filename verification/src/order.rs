//! The order in which the matcher tries triggers: longer triggers first, and
//! triggers of equal length in lexicographic order of their characters.
//! (For UTF-8 strings, byte order and character order agree.)

use vstd::prelude::*;

verus! {

/// Lexicographic order on character sequences, by code point.
pub open spec fn lex_le(a: Seq<char>, b: Seq<char>) -> bool
    decreases a.len(),
{
    if a.len() == 0 {
        true
    } else if b.len() == 0 {
        false
    } else if a[0] != b[0] {
        (a[0] as int) < (b[0] as int)
    } else {
        lex_le(a.drop_first(), b.drop_first())
    }
}

/// `a` may stand before `b` in the matcher's order.
pub open spec fn sorts_before(a: Seq<char>, b: Seq<char>) -> bool {
    a.len() > b.len() || (a.len() == b.len() && lex_le(a, b))
}

pub proof fn lemma_lex_total(a: Seq<char>, b: Seq<char>)
    ensures
        lex_le(a, b) || lex_le(b, a),
    decreases a.len(),
{
    if a.len() > 0 && b.len() > 0 {
        if a[0] == b[0] {
            lemma_lex_total(a.drop_first(), b.drop_first());
        } else {
            assert((a[0] as int) != (b[0] as int));
        }
    }
}

pub proof fn lemma_lex_trans(a: Seq<char>, b: Seq<char>, c: Seq<char>)
    requires
        lex_le(a, b),
        lex_le(b, c),
    ensures
        lex_le(a, c),
    decreases a.len(),
{
    if a.len() > 0 && b.len() > 0 && c.len() > 0 && a[0] == b[0] && b[0] == c[0] {
        lemma_lex_trans(a.drop_first(), b.drop_first(), c.drop_first());
    }
}

pub proof fn lemma_lex_antisym(a: Seq<char>, b: Seq<char>)
    requires
        lex_le(a, b),
        lex_le(b, a),
    ensures
        a.len() == b.len() ==> a == b,
    decreases a.len(),
{
    if a.len() > 0 && b.len() > 0 && a.len() == b.len() {
        lemma_lex_antisym(a.drop_first(), b.drop_first());
        assert(a =~= seq![a[0]] + a.drop_first());
        assert(b =~= seq![b[0]] + b.drop_first());
    } else if a.len() == b.len() {
        assert(a =~= b);
    }
}

pub proof fn lemma_lex_refl(a: Seq<char>)
    ensures
        lex_le(a, a),
    decreases a.len(),
{
    if a.len() > 0 {
        lemma_lex_refl(a.drop_first());
    }
}

/// The matcher's order is total, transitive and reflexive.
pub proof fn lemma_sorts_before_order(a: Seq<char>, b: Seq<char>, c: Seq<char>)
    ensures
        sorts_before(a, a),
        sorts_before(a, b) || sorts_before(b, a),
        sorts_before(a, b) && sorts_before(b, c) ==> sorts_before(a, c),
        sorts_before(a, b) && sorts_before(b, a) ==> a == b,
{
    lemma_lex_refl(a);
    lemma_lex_total(a, b);
    if sorts_before(a, b) && sorts_before(b, c) && a.len() == b.len() && b.len() == c.len() {
        lemma_lex_trans(a, b, c);
    }
    if sorts_before(a, b) && sorts_before(b, a) {
        lemma_lex_antisym(a, b);
    }
}

proof fn lemma_lex_common_prefix(a: Seq<char>, b: Seq<char>, k: int)
    requires
        0 <= k <= a.len(),
        k <= b.len(),
        a.subrange(0, k) == b.subrange(0, k),
    ensures
        lex_le(a, b) == lex_le(a.subrange(k, a.len() as int), b.subrange(k, b.len() as int)),
    decreases k,
{
    if k == 0 {
        assert(a.subrange(0, a.len() as int) =~= a);
        assert(b.subrange(0, b.len() as int) =~= b);
    } else {
        assert(a[0] == a.subrange(0, k)[0]);
        assert(b[0] == b.subrange(0, k)[0]);
        let a1 = a.drop_first();
        let b1 = b.drop_first();
        assert(a1.subrange(0, k - 1) =~= a.subrange(0, k).drop_first());
        assert(b1.subrange(0, k - 1) =~= b.subrange(0, k).drop_first());
        lemma_lex_common_prefix(a1, b1, k - 1);
        assert(a1.subrange(k - 1, a1.len() as int) =~= a.subrange(k, a.len() as int));
        assert(b1.subrange(k - 1, b1.len() as int) =~= b.subrange(k, b.len() as int));
    }
}

/// Executable `sorts_before`.
pub fn sorts_before_exec(a: &[char], b: &[char]) -> (r: bool)
    ensures
        r == sorts_before(a@, b@),
{
    if a.len() != b.len() {
        return a.len() > b.len();
    }
    let n = a.len();
    let mut k: usize = 0;
    while k < n && a[k] == b[k]
        invariant
            k <= n == a@.len() == b@.len(),
            a@.subrange(0, k as int) == b@.subrange(0, k as int),
        decreases n - k,
    {
        assert(a@.subrange(0, k + 1) =~= a@.subrange(0, k as int).push(a@[k as int]));
        assert(b@.subrange(0, k + 1) =~= b@.subrange(0, k as int).push(b@[k as int]));
        k = k + 1;
    }
    proof {
        lemma_lex_common_prefix(a@, b@, k as int);
    }
    if k == n {
        true
    } else {
        let ghost x = a@.subrange(k as int, n as int);
        let ghost y = b@.subrange(k as int, n as int);
        assert(x[0] == a@[k as int]);
        assert(y[0] == b@[k as int]);
        a[k] < b[k]
    }
}

proof fn lemma_lex_first_difference(a: Seq<char>, b: Seq<char>, k: int)
    requires
        0 <= k < a.len(),
        k < b.len(),
        forall|i: int| 0 <= i < k ==> a[i] == b[i],
        (a[k] as int) < (b[k] as int),
    ensures
        lex_le(a, b),
        !lex_le(b, a),
    decreases k,
{
    if k > 0 {
        assert(a[0] == b[0]);
        assert forall|i: int| 0 <= i < k - 1 implies a.drop_first()[i] == b.drop_first()[i] by {
            assert(a[i + 1] == b[i + 1]);
        }
        lemma_lex_first_difference(a.drop_first(), b.drop_first(), k - 1);
    }
}

/// The matcher tries a longer trigger before a shorter one, and of two
/// triggers of one length, the one with the smaller character at the first
/// place where they differ.
pub proof fn lemma_sorts_before_means(a: Seq<char>, b: Seq<char>, k: int)
    ensures
        a.len() > b.len() ==> sorts_before(a, b) && !sorts_before(b, a),
        (a.len() == b.len() && 0 <= k < a.len() && (forall|i: int| 0 <= i < k ==> a[i] == b[i])
            && (a[k] as int) < (b[k] as int)) ==> sorts_before(a, b) && !sorts_before(b, a),
{
    if a.len() == b.len() && 0 <= k < a.len() && (forall|i: int| 0 <= i < k ==> a[i] == b[i]) && (a[k] as int) < (b[k] as int) {
        lemma_lex_first_difference(a, b, k);
    }
}

} // verus!
