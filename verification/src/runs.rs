//! Counting the runs of a bit sequence and deciding whether the runs test
//! applies to it.
//!
//! Everything here is integer arithmetic. The p-value itself is a function of
//! the three counts that [`RunsPlan::Evaluate`] carries.

use vstd::prelude::*;
use crate::balance::{deviation, is_unbalanced, unbalanced};
use crate::bits::{count_ones, lemma_count_ones_bounded, BitsData};

verus! {

/// The number of positions at which a bit differs from the bit before it.
pub open spec fn transitions(s: Seq<bool>) -> nat
    decreases s.len(),
{
    if s.len() <= 1 {
        0
    } else {
        transitions(s.drop_last()) + if s[s.len() - 1] != s[s.len() - 2] { 1nat } else { 0nat }
    }
}

/// The positions at which a run of `s` begins, a run being a maximal block
/// of equal neighbouring bits: the first position, and every later one whose
/// bit differs from the bit before it.
pub open spec fn run_starts(s: Seq<bool>) -> Set<int> {
    Set::new(|i: int| 0 <= i < s.len() && (i == 0 || s[i] != s[i - 1]))
}

/// The number of runs in `s`.
pub open spec fn run_count(s: Seq<bool>) -> nat {
    run_starts(s).len()
}

/// Every bit of `s` differs from the bit before it.
pub open spec fn alternating(s: Seq<bool>) -> bool {
    forall|i: int| 1 <= i < s.len() ==> s[i] != #[trigger] s[i - 1]
}

/// Every bit of `s` equals the bit before it: all bits are the same.
pub open spec fn constant(s: Seq<bool>) -> bool {
    forall|i: int| 1 <= i < s.len() ==> s[i] == #[trigger] s[i - 1]
}

/// What to do with a bit sequence under the runs test.
#[derive(Clone, Copy, Debug, PartialEq, Eq, Structural)]
pub enum RunsPlan {
    /// The share of set bits is too far from one half for the statistic to
    /// mean anything. The verdict is a fail with p-value zero.
    Unbalanced,
    /// All bits are equal, in a sequence short enough to count as balanced.
    /// The statistic's variance is zero, so nothing can be divided by it.
    /// The verdict is a fail with p-value zero.
    Constant,
    /// The statistic is defined: it is computed from the number of bits, the
    /// number of set bits and the number of runs.
    Evaluate { n: usize, ones: usize, runs: usize },
}

/// The plan for the bits `s`.
pub open spec fn plan_of(s: Seq<bool>) -> RunsPlan {
    let n: nat = s.len();
    let ones: nat = count_ones(s);
    if unbalanced(n, ones) {
        RunsPlan::Unbalanced
    } else if ones == 0 || ones == n {
        RunsPlan::Constant
    } else {
        RunsPlan::Evaluate { n: n as usize, ones: ones as usize, runs: run_count(s) as usize }
    }
}

/// Counts the runs of `data` in one pass.
pub fn count_runs(data: &BitsData) -> (v: usize)
    ensures
        v == run_count(data@),
{
    let n: usize = data.len();
    proof {
        lemma_run_count_scan(data@);
    }
    if n == 0 {
        return 0;
    }
    let mut v: usize = 1;
    let mut i: usize = 1;
    while i < n
        invariant
            1 <= i <= n,
            n == data@.len(),
            v == 1 + transitions(data@.take(i as int)),
            v <= i,
        decreases n - i,
    {
        proof {
            let next = data@.take(i + 1);
            assert(next.drop_last() == data@.take(i as int));
            assert(next[i as int] == data@[i as int]);
            assert(next[i - 1] == data@[i - 1]);
        }
        if data.bit(i) != data.bit(i - 1) {
            v = v + 1;
        }
        i = i + 1;
    }
    proof {
        assert(data@.take(n as int) == data@);
    }
    v
}

/// Decides what the runs test does with `data`.
///
/// A sequence whose share of set bits is too far from one half is turned
/// away before its runs are counted. Of the rest, one with all bits equal has
/// no defined statistic. Any other comes back with its three counts, of
/// which the number of set bits is neither zero nor the length.
pub fn runs_plan(data: &BitsData) -> (plan: RunsPlan)
    requires
        data@.len() >= 1,
    ensures
        plan == plan_of(data@),
        plan is Unbalanced <==> unbalanced(data@.len(), count_ones(data@)),
        plan is Constant ==> constant(data@) && data@.len() <= 16,
        plan is Evaluate ==> plan->n == data@.len() && plan->ones == count_ones(data@)
            && plan->runs == run_count(data@),
        plan is Evaluate ==> 0 < plan->ones < plan->n && 2 <= plan->runs <= plan->n,
{
    let n: usize = data.len();
    let ones: usize = data.ones();
    if is_unbalanced(n, ones) {
        return RunsPlan::Unbalanced;
    }
    if ones == 0 || ones == n {
        proof {
            lemma_uniform_count(data@);
            lemma_constant_plan(data@);
        }
        return RunsPlan::Constant;
    }
    let runs: usize = count_runs(data);
    proof {
        lemma_run_count_bounded(data@);
        if run_count(data@) == 1 {
            lemma_one_run(data@);
            lemma_constant_count(data@);
        }
    }
    RunsPlan::Evaluate { n, ones, runs }
}

/// The empty sequence has no run; any other has one run more than it has
/// transitions.
pub proof fn lemma_run_count_scan(s: Seq<bool>)
    ensures
        run_starts(s).finite(),
        run_count(s) == (if s.len() == 0 {
            0
        } else {
            1 + transitions(s)
        }),
    decreases s.len(),
{
    if s.len() == 0 {
        assert(run_starts(s) =~= Set::<int>::empty());
    } else {
        let t = s.drop_last();
        let k: int = s.len() - 1;
        lemma_run_count_scan(t);
        assert forall|i: int| 0 <= i < k implies (run_starts(t).contains(i) <==> run_starts(
            s,
        ).contains(i)) by {
            if i > 0 {
                assert(t[i] == s[i] && t[i - 1] == s[i - 1]);
            }
        }
        if k == 0 || s[k] != s[k - 1] {
            assert(run_starts(s) =~= run_starts(t).insert(k));
            assert(!run_starts(t).contains(k));
        } else {
            assert(run_starts(s) =~= run_starts(t));
        }
    }
}

/// A sequence has fewer transitions than bits.
pub proof fn lemma_transitions_bounded(s: Seq<bool>)
    requires
        s.len() >= 1,
    ensures
        transitions(s) < s.len(),
    decreases s.len(),
{
    if s.len() > 1 {
        lemma_transitions_bounded(s.drop_last());
    }
}

/// A sequence that is not empty has at least one run and at most as many
/// runs as bits.
pub proof fn lemma_run_count_bounded(s: Seq<bool>)
    requires
        s.len() >= 1,
    ensures
        1 <= run_count(s) <= s.len(),
{
    lemma_run_count_scan(s);
    lemma_transitions_bounded(s);
}

/// Two sequences with the same bits get the same plan, whatever else is
/// known of them.
pub proof fn lemma_plan_determined(a: &BitsData, b: &BitsData)
    requires
        a@ == b@,
    ensures
        plan_of(a@) == plan_of(b@),
{
}

/// In an alternating sequence every bit begins a run: there are as many runs
/// as bits.
pub proof fn lemma_alternating_runs(s: Seq<bool>)
    requires
        alternating(s),
    ensures
        run_count(s) == s.len(),
    decreases s.len(),
{
    lemma_run_count_scan(s);
    if s.len() > 1 {
        let t = s.drop_last();
        lemma_run_count_scan(t);
        assert(alternating(t)) by {
            assert forall|i: int| 1 <= i < t.len() implies t[i] != #[trigger] t[i - 1] by {
                assert(s[i] != s[i - 1]);
            }
        }
        lemma_alternating_runs(t);
        assert(s[s.len() - 1] != s[s.len() - 1 - 1]);
    }
}

/// A sequence with as many runs as bits is alternating.
pub proof fn lemma_full_runs(s: Seq<bool>)
    requires
        run_count(s) == s.len(),
    ensures
        alternating(s),
    decreases s.len(),
{
    lemma_run_count_scan(s);
    if s.len() > 1 {
        let t = s.drop_last();
        lemma_run_count_scan(t);
        lemma_transitions_bounded(t);
        lemma_full_runs(t);
        assert forall|i: int| 1 <= i < s.len() implies s[i] != #[trigger] s[i - 1] by {
            if i < t.len() {
                assert(t[i] != t[i - 1]);
            }
        }
    }
}

/// A sequence of equal bits that is not empty is a single run.
pub proof fn lemma_constant_runs(s: Seq<bool>)
    requires
        s.len() >= 1,
        constant(s),
    ensures
        run_count(s) == 1,
    decreases s.len(),
{
    lemma_run_count_scan(s);
    if s.len() > 1 {
        let t = s.drop_last();
        lemma_run_count_scan(t);
        assert(constant(t)) by {
            assert forall|i: int| 1 <= i < t.len() implies t[i] == #[trigger] t[i - 1] by {
                assert(s[i] == s[i - 1]);
            }
        }
        lemma_constant_runs(t);
        assert(s[s.len() - 1] == s[s.len() - 1 - 1]);
    }
}

/// A sequence with a single run consists of equal bits.
pub proof fn lemma_one_run(s: Seq<bool>)
    requires
        run_count(s) == 1,
    ensures
        constant(s),
    decreases s.len(),
{
    lemma_run_count_scan(s);
    if s.len() > 1 {
        let t = s.drop_last();
        lemma_run_count_scan(t);
        lemma_one_run(t);
        assert forall|i: int| 1 <= i < s.len() implies s[i] == #[trigger] s[i - 1] by {
            if i < t.len() {
                assert(t[i] == t[i - 1]);
            }
        }
    }
}

/// In a sequence of equal bits either no bit is set or every bit is.
pub proof fn lemma_constant_count(s: Seq<bool>)
    requires
        constant(s),
    ensures
        count_ones(s) == 0 || count_ones(s) == s.len(),
        s.len() >= 1 ==> count_ones(s) == (if s[0] {
            s.len()
        } else {
            0
        }),
    decreases s.len(),
{
    if s.len() == 1 {
        assert(count_ones(s.drop_last()) == 0);
    } else if s.len() > 1 {
        let t = s.drop_last();
        assert(constant(t)) by {
            assert forall|i: int| 1 <= i < t.len() implies t[i] == #[trigger] t[i - 1] by {
                assert(s[i] == s[i - 1]);
            }
        }
        lemma_constant_count(t);
        lemma_all_equal(s, s.len() - 1);
    }
}

/// In a sequence of equal bits every bit equals the first.
pub proof fn lemma_all_equal(s: Seq<bool>, i: int)
    requires
        constant(s),
        0 <= i < s.len(),
    ensures
        s[i] == s[0],
    decreases i,
{
    if i > 0 {
        lemma_all_equal(s, i - 1);
        assert(s[i] == s[i - 1]);
    }
}

/// A sequence in which no bit is set, or every bit is, consists of equal bits.
pub proof fn lemma_uniform_count(s: Seq<bool>)
    requires
        count_ones(s) == 0 || count_ones(s) == s.len(),
    ensures
        constant(s),
        forall|i: int| 0 <= i < s.len() ==> s[i] == (count_ones(s) != 0),
    decreases s.len(),
{
    if s.len() > 0 {
        let t = s.drop_last();
        lemma_count_ones_bounded(t);
        lemma_uniform_count(t);
        assert forall|i: int| 0 <= i < s.len() implies s[i] == (count_ones(s) != 0) by {
            if i < t.len() {
                assert(t[i] == s[i]);
            }
        }
    }
}

/// The runs test never evaluates a sequence of equal bits: one of more than
/// sixteen bits is unbalanced, a shorter one is constant.
pub proof fn lemma_constant_plan(s: Seq<bool>)
    requires
        s.len() >= 1,
        constant(s),
    ensures
        plan_of(s) == (if s.len() > 16 {
            RunsPlan::Unbalanced
        } else {
            RunsPlan::Constant
        }),
{
    lemma_constant_count(s);
    let n: int = s.len() as int;
    assert(deviation(s.len(), count_ones(s)) == n);
    assert(n * n > 16 * n <==> n > 16) by (nonlinear_arith)
        requires
            n >= 1,
    ;
}

/// A sequence of a single bit is constant: nothing is divided by the zero
/// variance of its statistic.
pub proof fn lemma_single_bit_plan(s: Seq<bool>)
    requires
        s.len() == 1,
    ensures
        plan_of(s) == RunsPlan::Constant,
{
    lemma_constant_plan(s);
}

/// A sequence with a share of set bits too far from one half is turned away,
/// whatever its runs are.
pub proof fn lemma_unbalanced_plan(s: Seq<bool>)
    requires
        s.len() >= 1,
        unbalanced(s.len(), count_ones(s)),
    ensures
        plan_of(s) == RunsPlan::Unbalanced,
{
}

} // verus!
