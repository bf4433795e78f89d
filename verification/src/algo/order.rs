//! The order in which monitors are laid out: built-in panels first, then by
//! connector name, ties kept in input order.
use vstd::prelude::*;
use crate::algo::primary::{is_internal, is_internal_name};
use crate::model::Monitor;
use crate::names::{
    lemma_text_lt_irreflexive,
    lemma_text_lt_total,
    lemma_text_lt_transitive,
    str_eq,
    str_lt,
    text_lt,
};

verus! {

/// Monitor `i` of `ms` is laid out before monitor `j`: an internal panel
/// before an external one; otherwise by connector name; equal names in input
/// order.
pub open spec fn plan_before(ms: Seq<Monitor>, i: int, j: int) -> bool {
    let ii = is_internal_name(ms[i].name@);
    let ij = is_internal_name(ms[j].name@);
    ||| ii && !ij
    ||| ii == ij && text_lt(ms[i].name@, ms[j].name@)
    ||| ii == ij && ms[i].name@ == ms[j].name@ && i < j
}

/// `perm` lists every index of `ms` exactly once, in layout order.
pub open spec fn is_plan_order(ms: Seq<Monitor>, perm: Seq<int>) -> bool {
    &&& perm.len() == ms.len()
    &&& forall|k: int| 0 <= k < perm.len() ==> 0 <= #[trigger] perm[k] < ms.len()
    &&& forall|a: int, b: int|
        0 <= a < b < perm.len() ==> #[trigger] perm[a] != #[trigger] perm[b]
    &&& forall|a: int, b: int|
        0 <= a < b < perm.len() ==> plan_before(ms, #[trigger] perm[a], #[trigger] perm[b])
}

/// `plan_before` is a strict total order on the indices of `ms`.
pub proof fn lemma_plan_before_strict_total(ms: Seq<Monitor>, i: int, j: int)
    ensures
        !plan_before(ms, i, i),
        i != j ==> plan_before(ms, i, j) || plan_before(ms, j, i),
        !(plan_before(ms, i, j) && plan_before(ms, j, i)),
{
    lemma_text_lt_irreflexive(ms[i].name@);
    lemma_text_lt_total(ms[i].name@, ms[j].name@);
}

pub proof fn lemma_plan_before_transitive(ms: Seq<Monitor>, i: int, j: int, k: int)
    requires
        plan_before(ms, i, j),
        plan_before(ms, j, k),
    ensures
        plan_before(ms, i, k),
{
    let (ni, nj, nk) = (ms[i].name@, ms[j].name@, ms[k].name@);
    if text_lt(ni, nj) && text_lt(nj, nk) {
        lemma_text_lt_transitive(ni, nj, nk);
    }
}

/// Exec form of `plan_before`, given the internal-panel flags.
fn before(ms: &[Monitor], internal: &Vec<bool>, i: usize, j: usize) -> (r: bool)
    requires
        internal.len() == ms.len(),
        i < ms.len(),
        j < ms.len(),
        forall|k: int| 0 <= k < ms.len() ==> #[trigger] internal[k] == is_internal_name(ms[k].name@),
    ensures
        r == plan_before(ms@, i as int, j as int),
{
    let ii = internal[i];
    let ij = internal[j];
    if ii && !ij {
        return true;
    }
    if ii != ij {
        return false;
    }
    let a = ms[i].name.as_str();
    let b = ms[j].name.as_str();
    if str_lt(a, b) {
        return true;
    }
    str_eq(a, b) && i < j
}

/// The internal-panel flag of every monitor.
fn internal_flags(ms: &[Monitor]) -> (flags: Vec<bool>)
    ensures
        flags.len() == ms.len(),
        forall|k: int| 0 <= k < ms.len() ==> #[trigger] flags[k] == is_internal_name(ms[k].name@),
{
    let mut flags: Vec<bool> = Vec::new();
    let mut i: usize = 0;
    while i < ms.len()
        invariant
            i <= ms.len(),
            flags.len() == i,
            forall|k: int| 0 <= k < i ==> #[trigger] flags[k] == is_internal_name(ms[k].name@),
        decreases ms.len() - i,
    {
        flags.push(is_internal(ms[i].name.as_str()));
        i = i + 1;
    }
    flags
}

/// Sum of `f` over the entries of `s`.
pub open spec fn seq_sum(f: spec_fn(int) -> int, s: Seq<int>) -> int
    decreases s.len(),
{
    if s.len() == 0 {
        0
    } else {
        seq_sum(f, s.drop_last()) + f(s.last())
    }
}

/// Sum of `f` over `0..n`.
pub open spec fn range_sum(f: spec_fn(int) -> int, n: int) -> int
    decreases n,
{
    if n <= 0 {
        0
    } else {
        range_sum(f, n - 1) + f(n - 1)
    }
}

pub(crate) proof fn lemma_seq_sum_remove(f: spec_fn(int) -> int, s: Seq<int>, k: int)
    requires
        0 <= k < s.len(),
    ensures
        seq_sum(f, s) == seq_sum(f, s.remove(k)) + f(s[k]),
    decreases s.len(),
{
    if k == s.len() - 1 {
        assert(s.remove(k) =~= s.drop_last());
    } else {
        lemma_seq_sum_remove(f, s.drop_last(), k);
        assert(s.remove(k).drop_last() =~= s.drop_last().remove(k));
        assert(s.remove(k).last() == s.last());
    }
}

proof fn lemma_range_seq_sum(f: spec_fn(int) -> int, n: int)
    requires
        n >= 0,
    ensures
        seq_sum(f, Seq::new(n as nat, |i: int| i)) == range_sum(f, n),
    decreases n,
{
    if n > 0 {
        lemma_range_seq_sum(f, n - 1);
        assert(Seq::new(n as nat, |i: int| i).drop_last() =~= Seq::new((n - 1) as nat, |i: int| i));
    }
}

/// Indices of `ms` in layout order, with the sum of any `f` over them equal
/// to its sum over all indices.
pub fn plan_order(ms: &[Monitor], Ghost(f): Ghost<spec_fn(int) -> int>) -> (order: Vec<usize>)
    ensures
        is_plan_order(ms@, order@.map_values(|i: usize| i as int)),
        seq_sum(f, order@.map_values(|i: usize| i as int)) == range_sum(f, ms.len() as int),
{
    let n = ms.len();
    let internal = internal_flags(ms);
    let mut remaining: Vec<usize> = Vec::new();
    let mut i: usize = 0;
    while i < n
        invariant
            i <= n,
            n == ms.len(),
            remaining.len() == i,
            forall|k: int| 0 <= k < i ==> #[trigger] remaining[k] == k,
        decreases n - i,
    {
        remaining.push(i);
        i = i + 1;
    }
    proof {
        assert(remaining@.map_values(|i: usize| i as int) =~= Seq::new(n as nat, |i: int| i));
        lemma_range_seq_sum(f, n as int);
    }
    let mut order: Vec<usize> = Vec::new();
    while remaining.len() > 0
        invariant
            n == ms.len(),
            internal.len() == ms.len(),
            forall|k: int| 0 <= k < ms.len() ==> #[trigger] internal[k] == is_internal_name(ms[k].name@),
            order.len() + remaining.len() == n,
            forall|k: int| 0 <= k < order.len() ==> #[trigger] order[k] < n,
            forall|k: int| 0 <= k < remaining.len() ==> #[trigger] remaining[k] < n,
            forall|a: int, b: int|
                0 <= a < b < order.len() ==> #[trigger] order[a] != #[trigger] order[b],
            forall|a: int, b: int|
                0 <= a < b < remaining.len() ==> #[trigger] remaining[a] != #[trigger] remaining[b],
            forall|a: int, b: int|
                0 <= a < order.len() && 0 <= b < remaining.len() ==> #[trigger] order[a]
                    != #[trigger] remaining[b],
            forall|a: int, b: int|
                0 <= a < b < order.len() ==> plan_before(
                    ms@,
                    #[trigger] order[a] as int,
                    #[trigger] order[b] as int,
                ),
            forall|a: int, b: int|
                0 <= a < order.len() && 0 <= b < remaining.len() ==> plan_before(
                    ms@,
                    #[trigger] order[a] as int,
                    #[trigger] remaining[b] as int,
                ),
            seq_sum(f, order@.map_values(|i: usize| i as int)) + seq_sum(
                f,
                remaining@.map_values(|i: usize| i as int),
            ) == range_sum(f, n as int),
        decreases remaining.len(),
    {
        let mut p: usize = 0;
        let mut j: usize = 1;
        while j < remaining.len()
            invariant
                n == ms.len(),
                internal.len() == ms.len(),
                forall|k: int| 0 <= k < ms.len() ==> #[trigger] internal[k] == is_internal_name(ms[k].name@),
                forall|k: int| 0 <= k < remaining.len() ==> #[trigger] remaining[k] < n,
                forall|a: int, b: int|
                    0 <= a < b < remaining.len() ==> #[trigger] remaining[a] != #[trigger] remaining[b],
                1 <= j <= remaining.len(),
                p < j,
                forall|q: int|
                    0 <= q < j && q != p ==> plan_before(
                        ms@,
                        remaining[p as int] as int,
                        #[trigger] remaining[q] as int,
                    ),
            decreases remaining.len() - j,
        {
            if before(ms, &internal, remaining[j], remaining[p]) {
                proof {
                    assert forall|q: int| 0 <= q < j + 1 && q != j implies plan_before(
                        ms@,
                        remaining[j as int] as int,
                        #[trigger] remaining[q] as int,
                    ) by {
                        if q != p {
                            lemma_plan_before_transitive(
                                ms@,
                                remaining[j as int] as int,
                                remaining[p as int] as int,
                                remaining[q] as int,
                            );
                        }
                    }
                }
                p = j;
            } else {
                proof {
                    lemma_plan_before_strict_total(
                        ms@,
                        remaining[p as int] as int,
                        remaining[j as int] as int,
                    );
                }
            }
            j = j + 1;
        }
        let ghost old_remaining = remaining@;
        let ghost old_order = order@;
        let x = remaining.remove(p);
        order.push(x);
        proof {
            let mv = |i: usize| i as int;
            assert(old_remaining.remove(p as int).map_values(mv) =~= old_remaining.map_values(
                mv,
            ).remove(p as int));
            lemma_seq_sum_remove(f, old_remaining.map_values(mv), p as int);
            assert(order@.map_values(mv).drop_last() =~= old_order.map_values(mv));
            assert forall|a: int, b: int|
                0 <= a < order.len() && 0 <= b < remaining.len() implies plan_before(
                ms@,
                #[trigger] order[a] as int,
                #[trigger] remaining[b] as int,
            ) by {
                if a == order.len() - 1 {
                    if b < p {
                        assert(remaining[b] == old_remaining[b]);
                    } else {
                        assert(remaining[b] == old_remaining[b + 1]);
                    }
                } else {
                    if b < p {
                        assert(remaining[b] == old_remaining[b]);
                    } else {
                        assert(remaining[b] == old_remaining[b + 1]);
                    }
                }
            }
            assert forall|a: int, b: int|
                0 <= a < b < order.len() implies plan_before(
                ms@,
                #[trigger] order[a] as int,
                #[trigger] order[b] as int,
            ) by {
                if b == order.len() - 1 {
                    assert(old_remaining[p as int] == x);
                }
            }
        }
    }
    proof {
        assert(remaining@.map_values(|i: usize| i as int) =~= Seq::<int>::empty());
        let mapped = order@.map_values(|i: usize| i as int);
        assert forall|a: int, b: int| 0 <= a < b < mapped.len() implies #[trigger] mapped[a]
            != #[trigger] mapped[b] by {
            assert(order[a] != order[b]);
        }
        assert forall|a: int, b: int| 0 <= a < b < mapped.len() implies plan_before(
            ms@,
            #[trigger] mapped[a],
            #[trigger] mapped[b],
        ) by {
            assert(plan_before(ms@, order[a] as int, order[b] as int));
        }
    }
    order
}

} // verus!
