//! Comparing and cutting connector names, process names and paths.
use vstd::prelude::*;

verus! {

/// Lexicographic order on character sequences, by Unicode scalar value
/// (the order of `str::cmp`, since UTF-8 preserves it).
pub open spec fn text_lt(a: Seq<char>, b: Seq<char>) -> bool
    decreases a.len(),
{
    if a.len() == 0 {
        b.len() > 0
    } else if b.len() == 0 {
        false
    } else if a[0] != b[0] {
        (a[0] as u32) < (b[0] as u32)
    } else {
        text_lt(a.drop_first(), b.drop_first())
    }
}

pub proof fn lemma_text_lt_irreflexive(a: Seq<char>)
    ensures
        !text_lt(a, a),
    decreases a.len(),
{
    if a.len() > 0 {
        lemma_text_lt_irreflexive(a.drop_first());
    }
}

proof fn lemma_char_eq(c: char, d: char)
    requires
        (c as u32) == (d as u32),
    ensures
        c == d,
{
}

/// `text_lt` is a strict total order.
pub proof fn lemma_text_lt_total(a: Seq<char>, b: Seq<char>)
    ensures
        a != b ==> text_lt(a, b) || text_lt(b, a),
        !(text_lt(a, b) && text_lt(b, a)),
    decreases a.len(),
{
    if a.len() > 0 && b.len() > 0 {
        if a[0] == b[0] {
            lemma_text_lt_total(a.drop_first(), b.drop_first());
            if a != b {
                assert(a.drop_first() != b.drop_first()) by {
                    if a.drop_first() == b.drop_first() {
                        assert(a =~= seq![a[0]] + a.drop_first());
                        assert(b =~= seq![b[0]] + b.drop_first());
                    }
                }
            }
        } else {
            if (a[0] as u32) == (b[0] as u32) {
                lemma_char_eq(a[0], b[0]);
            }
        }
    } else if a.len() == 0 && b.len() == 0 {
        assert(a =~= b);
    }
}

pub proof fn lemma_text_lt_transitive(a: Seq<char>, b: Seq<char>, c: Seq<char>)
    requires
        text_lt(a, b),
        text_lt(b, c),
    ensures
        text_lt(a, c),
    decreases a.len(),
{
    if a.len() > 0 && b.len() > 0 && c.len() > 0 {
        if a[0] == b[0] && b[0] == c[0] {
            lemma_text_lt_transitive(a.drop_first(), b.drop_first(), c.drop_first());
        }
    }
}

/// Character-wise equality of two strings.
pub fn str_eq(a: &str, b: &str) -> (r: bool)
    ensures
        r == (a@ == b@),
{
    let n = a.unicode_len();
    if n != b.unicode_len() {
        return false;
    }
    let mut i: usize = 0;
    while i < n
        invariant
            n == a@.len(),
            n == b@.len(),
            i <= n,
            forall|k: int| 0 <= k < i ==> a@[k] == b@[k],
        decreases n - i,
    {
        if a.get_char(i) != b.get_char(i) {
            return false;
        }
        i = i + 1;
    }
    assert(a@ =~= b@);
    true
}

proof fn lemma_text_lt_skip(a: Seq<char>, b: Seq<char>, i: int)
    requires
        0 <= i < a.len(),
        i < b.len(),
        a[i] == b[i],
    ensures
        text_lt(a.skip(i), b.skip(i)) == text_lt(a.skip(i + 1), b.skip(i + 1)),
{
    assert(a.skip(i).drop_first() =~= a.skip(i + 1));
    assert(b.skip(i).drop_first() =~= b.skip(i + 1));
}

/// `text_lt` is lexicographic order by character code (the order of
/// `str::cmp`): `a` sorts strictly before `b` exactly when `a` is a proper
/// prefix of `b`, or at the first position where they differ the character
/// of `a` is the smaller one. Length alone decides nothing.
pub proof fn lemma_text_lt_lexicographic(a: Seq<char>, b: Seq<char>)
    ensures
        text_lt(a, b) <==> ((a.len() < b.len() && forall|k: int| 0 <= k < a.len() ==> a[k] == b[k])
            || exists|i: int|
            0 <= i < a.len() && i < b.len() && (forall|k: int| 0 <= k < i ==> a[k] == b[k]) && (
            #[trigger] a[i] as u32) < (b[i] as u32)),
    decreases a.len(),
{
    if a.len() > 0 && b.len() > 0 {
        let a1 = a.drop_first();
        let b1 = b.drop_first();
        if a[0] != b[0] {
            if (a[0] as u32) == (b[0] as u32) {
                lemma_char_eq(a[0], b[0]);
            }
            if (a[0] as u32) < (b[0] as u32) {
                assert(0 <= 0 < a.len() && 0 < b.len() && (forall|k: int| 0 <= k < 0 ==> a[k] == b[k])
                    && (a[0] as u32) < (b[0] as u32));
            } else {
                assert forall|i: int|
                    0 <= i < a.len() && i < b.len() && (forall|k: int| 0 <= k < i ==> a[k] == b[k])
                        implies !((#[trigger] a[i] as u32) < (b[i] as u32)) by {
                    if i > 0 {
                        assert(a[0] == b[0]);
                    }
                }
            }
            if a.len() < b.len() && forall|k: int| 0 <= k < a.len() ==> a[k] == b[k] {
                assert(a[0] == b[0]);
            }
        } else {
            lemma_text_lt_lexicographic(a1, b1);
            assert((a.len() < b.len() && forall|k: int| 0 <= k < a.len() ==> a[k] == b[k]) <==> (
            a1.len() < b1.len() && forall|k: int| 0 <= k < a1.len() ==> a1[k] == b1[k])) by {
                if a1.len() < b1.len() && forall|k: int| 0 <= k < a1.len() ==> a1[k] == b1[k] {
                    assert forall|k: int| 0 <= k < a.len() implies a[k] == b[k] by {
                        if k > 0 {
                            assert(a[k] == a1[k - 1] && b[k] == b1[k - 1]);
                        }
                    }
                }
                if a.len() < b.len() && forall|k: int| 0 <= k < a.len() ==> a[k] == b[k] {
                    assert forall|k: int| 0 <= k < a1.len() implies a1[k] == b1[k] by {
                        assert(a[k + 1] == b[k + 1]);
                    }
                }
            }
            if exists|i: int|
                0 <= i < a.len() && i < b.len() && (forall|k: int| 0 <= k < i ==> a[k] == b[k]) && (
                #[trigger] a[i] as u32) < (b[i] as u32) {
                let i = choose|i: int|
                    0 <= i < a.len() && i < b.len() && (forall|k: int| 0 <= k < i ==> a[k] == b[k]) && (
                    #[trigger] a[i] as u32) < (b[i] as u32);
                assert(i > 0);
                assert(a1[i - 1] == a[i] && b1[i - 1] == b[i]);
                assert forall|k: int| 0 <= k < i - 1 implies a1[k] == b1[k] by {
                    assert(a[k + 1] == b[k + 1]);
                }
            }
            if exists|i: int|
                0 <= i < a1.len() && i < b1.len() && (forall|k: int| 0 <= k < i ==> a1[k] == b1[k]) && (
                #[trigger] a1[i] as u32) < (b1[i] as u32) {
                let i = choose|i: int|
                    0 <= i < a1.len() && i < b1.len() && (forall|k: int| 0 <= k < i ==> a1[k] == b1[k])
                        && (#[trigger] a1[i] as u32) < (b1[i] as u32);
                assert(a[i + 1] == a1[i] && b[i + 1] == b1[i]);
                assert forall|k: int| 0 <= k < i + 1 implies a[k] == b[k] by {
                    if k > 0 {
                        assert(a[k] == a1[k - 1] && b[k] == b1[k - 1]);
                    }
                }
                assert(0 <= i + 1 < a.len() && i + 1 < b.len() && (forall|k: int|
                    0 <= k < i + 1 ==> a[k] == b[k]) && (a[i + 1] as u32) < (b[i + 1] as u32));
            }
        }
    }
}

/// Whether `a` sorts strictly before `b`: lexicographically by character,
/// a proper prefix first.
pub fn str_lt(a: &str, b: &str) -> (r: bool)
    ensures
        r == text_lt(a@, b@),
        r <==> ((a@.len() < b@.len() && forall|k: int| 0 <= k < a@.len() ==> a@[k] == b@[k])
            || exists|i: int|
            0 <= i < a@.len() && i < b@.len() && (forall|k: int| 0 <= k < i ==> a@[k] == b@[k]) && (
            #[trigger] a@[i] as u32) < (b@[i] as u32)),
{
    proof {
        lemma_text_lt_lexicographic(a@, b@);
    }
    let na = a.unicode_len();
    let nb = b.unicode_len();
    let mut i: usize = 0;
    assert(a@.skip(0) =~= a@);
    assert(b@.skip(0) =~= b@);
    while i < na && i < nb
        invariant
            na == a@.len(),
            nb == b@.len(),
            i <= na,
            i <= nb,
            text_lt(a@, b@) == text_lt(a@.skip(i as int), b@.skip(i as int)),
        decreases na - i,
    {
        let ca = a.get_char(i);
        let cb = b.get_char(i);
        if ca != cb {
            proof {
                lemma_text_lt_lexicographic(a@, b@);
            }
            return (ca as u32) < (cb as u32);
        }
        proof {
            lemma_text_lt_skip(a@, b@, i as int);
        }
        i = i + 1;
    }
    i < nb
}

} // verus!
