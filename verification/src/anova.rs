//! The ANOVA engine: the exact quantities of the decomposition, and the
//! pipeline that computes them from an observation set.

use crate::data::{
    dedup, ints_view, lemma_dedup_props, operators_of, parts_of, strs_view, trials_of,
    GageStudyDataSet, SObs,
};
use crate::rat::{
    c_add, c_add2, c_div2, c_div_int, c_mul_int, c_sq, c_sub, c_sub2, eqv,
    lemma_add_assoc, lemma_add_comm, lemma_add_congr, lemma_add_wf,
    lemma_div_by_pos_int_numerator, lemma_div_congr, lemma_div_wf, lemma_eqv_refl,
    lemma_eqv_sign, lemma_eqv_sym, lemma_eqv_trans, lemma_mul_congr, lemma_sub_add_cancel,
    lemma_sub_congr, lemma_sub_sub, lemma_zero_eqv, opt_view, s_add, s_div, s_int, s_mul, s_sq,
    s_sub, s_wf, s_zero, Rat, SRat,
};
use vstd::prelude::*;

verus! {

/// Every observation of the sequence carries a well-formed value.
pub open spec fn obs_wf(s: Seq<SObs>) -> bool {
    forall|k: int| 0 <= k < s.len() ==> s_wf((#[trigger] s[k]).value)
}

/// Sum of the first `i` observation values.
pub open spec fn val_sum_to(s: Seq<SObs>, i: int) -> SRat
    decreases i,
{
    if i <= 0 {
        s_zero()
    } else {
        s_add(val_sum_to(s, i - 1), s[i - 1].value)
    }
}

/// The arithmetic mean of all observation values.
pub open spec fn s_mean(s: Seq<SObs>) -> SRat {
    s_div(val_sum_to(s, s.len() as int), s_int(s.len() as int))
}

/// Sum over the first `i` observations of the squared deviation of the
/// value from `m`.
pub open spec fn dev_sq_sum_to(s: Seq<SObs>, m: SRat, i: int) -> SRat
    decreases i,
{
    if i <= 0 {
        s_zero()
    } else {
        s_add(dev_sq_sum_to(s, m, i - 1), s_sq(s_sub(s[i - 1].value, m)))
    }
}

/// The total sum of squares about `m`.
pub open spec fn s_ss_total(s: Seq<SObs>, m: SRat) -> SRat {
    dev_sq_sum_to(s, m, s.len() as int)
}

/// How many of the first `i` observations belong to part `p`.
pub open spec fn part_count_to(s: Seq<SObs>, p: Seq<char>, i: int) -> int
    decreases i,
{
    if i <= 0 {
        0
    } else {
        part_count_to(s, p, i - 1) + if s[i - 1].part == p {
            1int
        } else {
            0int
        }
    }
}

/// Sum of the values of the first `i` observations that belong to part `p`.
pub open spec fn part_sum_to(s: Seq<SObs>, p: Seq<char>, i: int) -> SRat
    decreases i,
{
    if i <= 0 {
        s_zero()
    } else {
        let acc = part_sum_to(s, p, i - 1);
        if s[i - 1].part == p {
            s_add(acc, s[i - 1].value)
        } else {
            acc
        }
    }
}

/// The mean of the values measured on part `p`.
pub open spec fn s_part_mean(s: Seq<SObs>, p: Seq<char>) -> SRat {
    s_div(part_sum_to(s, p, s.len() as int), s_int(part_count_to(s, p, s.len() as int)))
}

/// Sum over the first `j` listed parts of the squared deviation of the
/// part mean from `m`.
pub open spec fn part_dev_sum_to(s: Seq<SObs>, groups: Seq<Seq<char>>, m: SRat, j: int) -> SRat
    decreases j,
{
    if j <= 0 {
        s_zero()
    } else {
        s_add(part_dev_sum_to(s, groups, m, j - 1), s_sq(s_sub(s_part_mean(s, groups[j - 1]), m)))
    }
}

/// How many of the first `i` observations belong to operator `o`.
pub open spec fn op_count_to(s: Seq<SObs>, o: int, i: int) -> int
    decreases i,
{
    if i <= 0 {
        0
    } else {
        op_count_to(s, o, i - 1) + if s[i - 1].operator == o {
            1int
        } else {
            0int
        }
    }
}

/// Sum of the values of the first `i` observations taken by operator `o`.
pub open spec fn op_sum_to(s: Seq<SObs>, o: int, i: int) -> SRat
    decreases i,
{
    if i <= 0 {
        s_zero()
    } else {
        let acc = op_sum_to(s, o, i - 1);
        if s[i - 1].operator == o {
            s_add(acc, s[i - 1].value)
        } else {
            acc
        }
    }
}

/// The mean of the values taken by operator `o`.
pub open spec fn s_op_mean(s: Seq<SObs>, o: int) -> SRat {
    s_div(op_sum_to(s, o, s.len() as int), s_int(op_count_to(s, o, s.len() as int)))
}

/// Sum over the first `j` listed operators of the squared deviation of the
/// operator mean from `m`.
pub open spec fn op_dev_sum_to(s: Seq<SObs>, groups: Seq<int>, m: SRat, j: int) -> SRat
    decreases j,
{
    if j <= 0 {
        s_zero()
    } else {
        s_add(op_dev_sum_to(s, groups, m, j - 1), s_sq(s_sub(s_op_mean(s, groups[j - 1]), m)))
    }
}

/// The number of distinct parts.
pub open spec fn s_n_part(s: Seq<SObs>) -> int {
    dedup(parts_of(s)).len() as int
}

/// The number of distinct operators.
pub open spec fn s_n_operator(s: Seq<SObs>) -> int {
    dedup(operators_of(s)).len() as int
}

/// The number of distinct trials.
pub open spec fn s_n_trial(s: Seq<SObs>) -> int {
    dedup(trials_of(s)).len() as int
}

/// The part sum of squares about `m`: the squared deviations of the part
/// means, scaled by the observations per part in a balanced design.
pub open spec fn s_ss_part(s: Seq<SObs>, m: SRat) -> SRat {
    s_mul(
        s_int(s_n_operator(s) * s_n_trial(s)),
        part_dev_sum_to(s, dedup(parts_of(s)), m, s_n_part(s)),
    )
}

/// The operator sum of squares about `m`.
pub open spec fn s_ss_operator(s: Seq<SObs>, m: SRat) -> SRat {
    s_mul(
        s_int(s_n_part(s) * s_n_trial(s)),
        op_dev_sum_to(s, dedup(operators_of(s)), m, s_n_operator(s)),
    )
}

/// The repeatability sum of squares: what the total leaves after the part
/// and operator terms.
pub open spec fn s_ss_repeatability(s: Seq<SObs>) -> SRat {
    s_sub(s_sub(s_ss_total(s, s_mean(s)), s_ss_part(s, s_mean(s))), s_ss_operator(s, s_mean(s)))
}

pub proof fn lemma_val_sum_wf(s: Seq<SObs>, i: int)
    requires
        obs_wf(s),
        0 <= i <= s.len(),
    ensures
        s_wf(val_sum_to(s, i)),
    decreases i,
{
    if i > 0 {
        lemma_val_sum_wf(s, i - 1);
        lemma_add_wf(val_sum_to(s, i - 1), s[i - 1].value);
    }
}

pub proof fn lemma_dev_sq_sum_wf(s: Seq<SObs>, m: SRat, i: int)
    requires
        obs_wf(s),
        s_wf(m),
        0 <= i <= s.len(),
    ensures
        s_wf(dev_sq_sum_to(s, m, i)),
    decreases i,
{
    if i > 0 {
        lemma_dev_sq_sum_wf(s, m, i - 1);
        lemma_add_wf(s[i - 1].value, m);
        lemma_add_wf(s_sub(s[i - 1].value, m), s_sub(s[i - 1].value, m));
        lemma_add_wf(dev_sq_sum_to(s, m, i - 1), s_sq(s_sub(s[i - 1].value, m)));
    }
}

/// Deviations about equivalent centers sum to equivalent totals.
pub proof fn lemma_dev_sq_sum_congr(s: Seq<SObs>, m1: SRat, m2: SRat, i: int)
    requires
        obs_wf(s),
        s_wf(m1),
        s_wf(m2),
        eqv(m1, m2),
        0 <= i <= s.len(),
    ensures
        eqv(dev_sq_sum_to(s, m1, i), dev_sq_sum_to(s, m2, i)),
    decreases i,
{
    if i > 0 {
        lemma_dev_sq_sum_congr(s, m1, m2, i - 1);
        lemma_dev_sq_sum_wf(s, m1, i - 1);
        lemma_dev_sq_sum_wf(s, m2, i - 1);
        let v = s[i - 1].value;
        lemma_eqv_refl(v);
        lemma_sub_congr(v, m1, v, m2);
        lemma_add_wf(v, m1);
        lemma_add_wf(v, m2);
        lemma_mul_congr(s_sub(v, m1), s_sub(v, m1), s_sub(v, m2), s_sub(v, m2));
        lemma_add_wf(s_sub(v, m1), s_sub(v, m1));
        lemma_add_wf(s_sub(v, m2), s_sub(v, m2));
        lemma_add_congr(
            dev_sq_sum_to(s, m1, i - 1),
            s_sq(s_sub(v, m1)),
            dev_sq_sum_to(s, m2, i - 1),
            s_sq(s_sub(v, m2)),
        );
    }
}

/// Every listed part occurs in the data.
pub open spec fn parts_present(s: Seq<SObs>, groups: Seq<Seq<char>>) -> bool {
    forall|k: int|
        0 <= k < groups.len() ==> part_count_to(s, #[trigger] groups[k], s.len() as int) > 0
}

/// Every listed operator occurs in the data.
pub open spec fn ops_present(s: Seq<SObs>, groups: Seq<int>) -> bool {
    forall|k: int|
        0 <= k < groups.len() ==> op_count_to(s, #[trigger] groups[k], s.len() as int) > 0
}

pub proof fn lemma_part_count_bounds(s: Seq<SObs>, p: Seq<char>, i: int)
    requires
        0 <= i <= s.len(),
    ensures
        0 <= part_count_to(s, p, i) <= i,
        (part_count_to(s, p, i) > 0) <==> (exists|j: int| 0 <= j < i && s[j].part == p),
    decreases i,
{
    if i > 0 {
        lemma_part_count_bounds(s, p, i - 1);
        if s[i - 1].part == p {
            assert(s[i - 1].part == p && 0 <= i - 1 < i);
        } else {
            if exists|j: int| 0 <= j < i && s[j].part == p {
                let j = choose|j: int| 0 <= j < i && #[trigger] s[j].part == p;
                assert(0 <= j < i - 1 && s[j].part == p);
            }
        }
    }
}

pub proof fn lemma_part_sum_wf(s: Seq<SObs>, p: Seq<char>, i: int)
    requires
        obs_wf(s),
        0 <= i <= s.len(),
    ensures
        s_wf(part_sum_to(s, p, i)),
    decreases i,
{
    if i > 0 {
        lemma_part_sum_wf(s, p, i - 1);
        if s[i - 1].part == p {
            lemma_add_wf(part_sum_to(s, p, i - 1), s[i - 1].value);
        }
    }
}

/// The mean of a part that appears in the data is well formed.
pub proof fn lemma_part_mean_wf(s: Seq<SObs>, p: Seq<char>)
    requires
        obs_wf(s),
        part_count_to(s, p, s.len() as int) > 0,
    ensures
        s_wf(s_part_mean(s, p)),
{
    lemma_part_count_bounds(s, p, s.len() as int);
    lemma_part_sum_wf(s, p, s.len() as int);
    lemma_div_wf(
        part_sum_to(s, p, s.len() as int),
        s_int(part_count_to(s, p, s.len() as int)),
    );
}

pub proof fn lemma_part_dev_sum_wf(s: Seq<SObs>, groups: Seq<Seq<char>>, m: SRat, j: int)
    requires
        obs_wf(s),
        s_wf(m),
        0 <= j <= groups.len(),
        parts_present(s, groups),
    ensures
        s_wf(part_dev_sum_to(s, groups, m, j)),
    decreases j,
{
    if j > 0 {
        lemma_part_dev_sum_wf(s, groups, m, j - 1);
        lemma_part_mean_wf(s, groups[j - 1]);
        lemma_add_wf(s_part_mean(s, groups[j - 1]), m);
        lemma_add_wf(
            s_sub(s_part_mean(s, groups[j - 1]), m),
            s_sub(s_part_mean(s, groups[j - 1]), m),
        );
        lemma_add_wf(
            part_dev_sum_to(s, groups, m, j - 1),
            s_sq(s_sub(s_part_mean(s, groups[j - 1]), m)),
        );
    }
}

/// Part deviations about equivalent centers sum to equivalent totals.
pub proof fn lemma_part_dev_sum_congr(
    s: Seq<SObs>,
    groups: Seq<Seq<char>>,
    m1: SRat,
    m2: SRat,
    j: int,
)
    requires
        obs_wf(s),
        s_wf(m1),
        s_wf(m2),
        eqv(m1, m2),
        0 <= j <= groups.len(),
        parts_present(s, groups),
    ensures
        eqv(part_dev_sum_to(s, groups, m1, j), part_dev_sum_to(s, groups, m2, j)),
    decreases j,
{
    if j > 0 {
        lemma_part_dev_sum_congr(s, groups, m1, m2, j - 1);
        lemma_part_dev_sum_wf(s, groups, m1, j - 1);
        lemma_part_dev_sum_wf(s, groups, m2, j - 1);
        let pm = s_part_mean(s, groups[j - 1]);
        lemma_part_mean_wf(s, groups[j - 1]);
        lemma_eqv_refl(pm);
        lemma_sub_congr(pm, m1, pm, m2);
        lemma_add_wf(pm, m1);
        lemma_add_wf(pm, m2);
        lemma_mul_congr(s_sub(pm, m1), s_sub(pm, m1), s_sub(pm, m2), s_sub(pm, m2));
        lemma_add_wf(s_sub(pm, m1), s_sub(pm, m1));
        lemma_add_wf(s_sub(pm, m2), s_sub(pm, m2));
        lemma_add_congr(
            part_dev_sum_to(s, groups, m1, j - 1),
            s_sq(s_sub(pm, m1)),
            part_dev_sum_to(s, groups, m2, j - 1),
            s_sq(s_sub(pm, m2)),
        );
    }
}

pub proof fn lemma_op_count_bounds(s: Seq<SObs>, o: int, i: int)
    requires
        0 <= i <= s.len(),
    ensures
        0 <= op_count_to(s, o, i) <= i,
        (op_count_to(s, o, i) > 0) <==> (exists|j: int| 0 <= j < i && s[j].operator == o),
    decreases i,
{
    if i > 0 {
        lemma_op_count_bounds(s, o, i - 1);
        if s[i - 1].operator == o {
            assert(s[i - 1].operator == o && 0 <= i - 1 < i);
        } else {
            if exists|j: int| 0 <= j < i && s[j].operator == o {
                let j = choose|j: int| 0 <= j < i && #[trigger] s[j].operator == o;
                assert(0 <= j < i - 1 && s[j].operator == o);
            }
        }
    }
}

pub proof fn lemma_op_sum_wf(s: Seq<SObs>, o: int, i: int)
    requires
        obs_wf(s),
        0 <= i <= s.len(),
    ensures
        s_wf(op_sum_to(s, o, i)),
    decreases i,
{
    if i > 0 {
        lemma_op_sum_wf(s, o, i - 1);
        if s[i - 1].operator == o {
            lemma_add_wf(op_sum_to(s, o, i - 1), s[i - 1].value);
        }
    }
}

/// The mean of an operator that appears in the data is well formed.
pub proof fn lemma_op_mean_wf(s: Seq<SObs>, o: int)
    requires
        obs_wf(s),
        op_count_to(s, o, s.len() as int) > 0,
    ensures
        s_wf(s_op_mean(s, o)),
{
    lemma_op_count_bounds(s, o, s.len() as int);
    lemma_op_sum_wf(s, o, s.len() as int);
    lemma_div_wf(op_sum_to(s, o, s.len() as int), s_int(op_count_to(s, o, s.len() as int)));
}

pub proof fn lemma_op_dev_sum_wf(s: Seq<SObs>, groups: Seq<int>, m: SRat, j: int)
    requires
        obs_wf(s),
        s_wf(m),
        0 <= j <= groups.len(),
        ops_present(s, groups),
    ensures
        s_wf(op_dev_sum_to(s, groups, m, j)),
    decreases j,
{
    if j > 0 {
        lemma_op_dev_sum_wf(s, groups, m, j - 1);
        lemma_op_mean_wf(s, groups[j - 1]);
        lemma_add_wf(s_op_mean(s, groups[j - 1]), m);
        lemma_add_wf(s_sub(s_op_mean(s, groups[j - 1]), m), s_sub(s_op_mean(s, groups[j - 1]), m));
        lemma_add_wf(
            op_dev_sum_to(s, groups, m, j - 1),
            s_sq(s_sub(s_op_mean(s, groups[j - 1]), m)),
        );
    }
}

/// Operator deviations about equivalent centers sum to equivalent totals.
pub proof fn lemma_op_dev_sum_congr(s: Seq<SObs>, groups: Seq<int>, m1: SRat, m2: SRat, j: int)
    requires
        obs_wf(s),
        s_wf(m1),
        s_wf(m2),
        eqv(m1, m2),
        0 <= j <= groups.len(),
        ops_present(s, groups),
    ensures
        eqv(op_dev_sum_to(s, groups, m1, j), op_dev_sum_to(s, groups, m2, j)),
    decreases j,
{
    if j > 0 {
        lemma_op_dev_sum_congr(s, groups, m1, m2, j - 1);
        lemma_op_dev_sum_wf(s, groups, m1, j - 1);
        lemma_op_dev_sum_wf(s, groups, m2, j - 1);
        let om = s_op_mean(s, groups[j - 1]);
        lemma_op_mean_wf(s, groups[j - 1]);
        lemma_eqv_refl(om);
        lemma_sub_congr(om, m1, om, m2);
        lemma_add_wf(om, m1);
        lemma_add_wf(om, m2);
        lemma_mul_congr(s_sub(om, m1), s_sub(om, m1), s_sub(om, m2), s_sub(om, m2));
        lemma_add_wf(s_sub(om, m1), s_sub(om, m1));
        lemma_add_wf(s_sub(om, m2), s_sub(om, m2));
        lemma_add_congr(
            op_dev_sum_to(s, groups, m1, j - 1),
            s_sq(s_sub(om, m1)),
            op_dev_sum_to(s, groups, m2, j - 1),
            s_sq(s_sub(om, m2)),
        );
    }
}

/// The interaction sum of squares: what the total leaves after the part,
/// operator and repeatability terms; exactly zero in a single-operator
/// study.
pub open spec fn s_ss_part_operator(s: Seq<SObs>) -> SRat {
    s_sub(
        s_ss_total(s, s_mean(s)),
        s_add(
            s_add(s_ss_part(s, s_mean(s)), s_ss_operator(s, s_mean(s))),
            s_ss_repeatability(s),
        ),
    )
}

/// The part mean square.
pub open spec fn s_ms_part(s: Seq<SObs>) -> SRat {
    s_div(s_ss_part(s, s_mean(s)), s_int(s_n_part(s) - 1))
}

/// The repeatability mean square.
pub open spec fn s_ms_repeatability(s: Seq<SObs>) -> SRat {
    s_div(s_ss_repeatability(s), s_int(s.len() - s_n_part(s)))
}

/// The part F-ratio.
pub open spec fn s_f_part(s: Seq<SObs>) -> SRat {
    s_div(s_ms_part(s), s_ms_repeatability(s))
}

/// The part variance component.
pub open spec fn s_varcomp_part(s: Seq<SObs>) -> SRat {
    s_div(
        s_sub(s_ms_part(s), s_ms_repeatability(s)),
        s_int(s_n_operator(s) * s_n_trial(s)),
    )
}

/// The total variance: total gage error plus the part component.
pub open spec fn s_varcomp_total(s: Seq<SObs>) -> SRat {
    s_add(s_ms_repeatability(s), s_varcomp_part(s))
}

/// No observations were supplied.
pub open spec fn c_empty(s: Seq<SObs>) -> bool {
    s.len() == 0
}

/// More than one distinct operator appears.
pub open spec fn c_multi_operator(s: Seq<SObs>) -> bool {
    s_n_operator(s) > 1
}

/// A required degrees-of-freedom value is zero: fewer than two parts, or
/// no repeatability degrees of freedom.
pub open spec fn c_degenerate_counts(s: Seq<SObs>) -> bool {
    s_n_part(s) <= 1 || s.len() == s_n_part(s)
}

/// The repeatability sum of squares is exactly zero, so no F-ratio exists.
pub open spec fn c_zero_repeatability(s: Seq<SObs>) -> bool {
    eqv(s_ss_repeatability(s), s_zero())
}

/// Why a computation failed.
#[derive(Clone, Copy, Debug, PartialEq, Eq, Structural)]
pub enum Error {
    /// No observations were supplied: the mean is undefined.
    EmptyInput,
    /// More than one distinct operator appears: the repeatability formula
    /// of this engine covers single-operator studies only.
    UnsupportedDesign,
    /// A required degrees-of-freedom value, or the repeatability mean
    /// square, is zero: a mean square or F-ratio would be undefined.
    DegenerateDesign,
    /// The exact arithmetic left the machine range.
    Overflow,
}

/// The full decomposition computed from one observation set: an immutable
/// snapshot.  Quantities defined only when their degrees of freedom are
/// nonzero are absent, never zero, when undefined.
pub struct AnovaResult {
    pub study_variation: Rat,
    pub tolerance: Rat,
    pub mean: Rat,
    pub n_part: u32,
    pub n_operator: u32,
    pub n_trial: u32,
    pub n_total: u32,
    pub df_part: u32,
    pub df_operator: u32,
    pub df_part_operator: u32,
    pub df_repeatability: u32,
    pub df_total: u32,
    pub ss_part: Rat,
    pub ss_operator: Rat,
    pub ss_part_operator: Rat,
    pub ss_repeatability: Rat,
    pub ss_total: Rat,
    pub ms_part: Rat,
    pub ms_operator: Option<Rat>,
    pub ms_part_operator: Option<Rat>,
    pub ms_repeatability: Rat,
    pub f_part: Rat,
    pub f_operator: Option<Rat>,
    pub f_part_operator: Option<Rat>,
    pub varcomp_part: Rat,
    pub varcomp_operator: Option<Rat>,
    pub varcomp_total_gagerr: Rat,
    pub varcomp_total: Rat,
    pub p: Rat,
}

impl AnovaResult {
    pub open spec fn wf(self) -> bool {
        &&& self.study_variation.wf()
        &&& self.tolerance.wf()
        &&& self.mean.wf()
        &&& self.ss_part.wf()
        &&& self.ss_operator.wf()
        &&& self.ss_part_operator.wf()
        &&& self.ss_repeatability.wf()
        &&& self.ss_total.wf()
        &&& self.ms_part.wf()
        &&& self.ms_repeatability.wf()
        &&& self.f_part.wf()
        &&& self.varcomp_part.wf()
        &&& self.varcomp_total_gagerr.wf()
        &&& self.varcomp_total.wf()
        &&& self.p.wf()
        &&& (self.ms_operator matches Some(x) ==> x.wf())
        &&& (self.ms_part_operator matches Some(x) ==> x.wf())
        &&& (self.f_operator matches Some(x) ==> x.wf())
        &&& (self.f_part_operator matches Some(x) ==> x.wf())
        &&& (self.varcomp_operator matches Some(x) ==> x.wf())
    }
}


/// What the mean's summation loop holds after `i` steps: the reduced
/// running sum, or nothing once a step has left the machine range.
pub open spec fn chk_val_sum(s: Seq<SObs>, i: int) -> Option<SRat>
    decreases i,
{
    if i <= 0 {
        Some(s_zero())
    } else {
        c_add(chk_val_sum(s, i - 1), s[i - 1].value)
    }
}

/// The checked mean: the reduced sum divided by the count, when every
/// step fits the machine range.
pub open spec fn chk_mean(s: Seq<SObs>) -> Option<SRat> {
    c_div_int(chk_val_sum(s, s.len() as int), s.len() as int)
}

/// What the total-sum-of-squares loop holds after `i` steps about `m`.
pub open spec fn chk_dev_sq_sum(s: Seq<SObs>, m: SRat, i: int) -> Option<SRat>
    decreases i,
{
    if i <= 0 {
        Some(s_zero())
    } else {
        c_add2(chk_dev_sq_sum(s, m, i - 1), c_sq(c_sub(Some(s[i - 1].value), m)))
    }
}

/// What the per-part summation loop holds after `i` steps.
pub open spec fn chk_part_sum(s: Seq<SObs>, p: Seq<char>, i: int) -> Option<SRat>
    decreases i,
{
    if i <= 0 {
        Some(s_zero())
    } else {
        let acc = chk_part_sum(s, p, i - 1);
        if s[i - 1].part == p {
            c_add(acc, s[i - 1].value)
        } else {
            acc
        }
    }
}

/// The checked squared deviation of one part's mean from `m`.
pub open spec fn chk_part_term(s: Seq<SObs>, p: Seq<char>, m: SRat) -> Option<SRat> {
    c_sq(
        c_sub(
            c_div_int(
                chk_part_sum(s, p, s.len() as int),
                part_count_to(s, p, s.len() as int),
            ),
            m,
        ),
    )
}

/// What the part loop holds after the first `j` listed parts.
pub open spec fn chk_part_dev_sum(s: Seq<SObs>, groups: Seq<Seq<char>>, m: SRat, j: int) -> Option<
    SRat,
>
    decreases j,
{
    if j <= 0 {
        Some(s_zero())
    } else {
        c_add2(chk_part_dev_sum(s, groups, m, j - 1), chk_part_term(s, groups[j - 1], m))
    }
}

/// The checked part sum of squares about `m`.
pub open spec fn chk_ss_part(s: Seq<SObs>, m: SRat) -> Option<SRat> {
    let fac = s_n_operator(s) * s_n_trial(s);
    if fac > i64::MAX {
        None
    } else {
        c_mul_int(fac, chk_part_dev_sum(s, dedup(parts_of(s)), m, s_n_part(s)))
    }
}

/// What the per-operator summation loop holds after `i` steps.
pub open spec fn chk_op_sum(s: Seq<SObs>, o: int, i: int) -> Option<SRat>
    decreases i,
{
    if i <= 0 {
        Some(s_zero())
    } else {
        let acc = chk_op_sum(s, o, i - 1);
        if s[i - 1].operator == o {
            c_add(acc, s[i - 1].value)
        } else {
            acc
        }
    }
}

/// The checked squared deviation of one operator's mean from `m`.
pub open spec fn chk_op_term(s: Seq<SObs>, o: int, m: SRat) -> Option<SRat> {
    c_sq(
        c_sub(
            c_div_int(chk_op_sum(s, o, s.len() as int), op_count_to(s, o, s.len() as int)),
            m,
        ),
    )
}

/// What the operator loop holds after the first `j` listed operators.
pub open spec fn chk_op_dev_sum(s: Seq<SObs>, groups: Seq<int>, m: SRat, j: int) -> Option<SRat>
    decreases j,
{
    if j <= 0 {
        Some(s_zero())
    } else {
        c_add2(chk_op_dev_sum(s, groups, m, j - 1), chk_op_term(s, groups[j - 1], m))
    }
}

/// The checked operator sum of squares about `m`.
pub open spec fn chk_ss_operator(s: Seq<SObs>, m: SRat) -> Option<SRat> {
    let fac = s_n_part(s) * s_n_trial(s);
    if fac > i64::MAX {
        None
    } else {
        c_mul_int(fac, chk_op_dev_sum(s, dedup(operators_of(s)), m, s_n_operator(s)))
    }
}

proof fn lemma_chk_val_sum_none(s: Seq<SObs>, i: int, j: int)
    requires
        0 <= i <= j,
        chk_val_sum(s, i) is None,
    ensures
        chk_val_sum(s, j) is None,
    decreases j - i,
{
    if i < j {
        lemma_chk_val_sum_none(s, i, j - 1);
    }
}

proof fn lemma_chk_dev_sq_sum_none(s: Seq<SObs>, m: SRat, i: int, j: int)
    requires
        0 <= i <= j,
        chk_dev_sq_sum(s, m, i) is None,
    ensures
        chk_dev_sq_sum(s, m, j) is None,
    decreases j - i,
{
    if i < j {
        lemma_chk_dev_sq_sum_none(s, m, i, j - 1);
    }
}

proof fn lemma_chk_part_sum_none(s: Seq<SObs>, p: Seq<char>, i: int, j: int)
    requires
        0 <= i <= j,
        chk_part_sum(s, p, i) is None,
    ensures
        chk_part_sum(s, p, j) is None,
    decreases j - i,
{
    if i < j {
        lemma_chk_part_sum_none(s, p, i, j - 1);
    }
}

proof fn lemma_chk_part_dev_sum_none(s: Seq<SObs>, groups: Seq<Seq<char>>, m: SRat, i: int, j: int)
    requires
        0 <= i <= j,
        chk_part_dev_sum(s, groups, m, i) is None,
    ensures
        chk_part_dev_sum(s, groups, m, j) is None,
    decreases j - i,
{
    if i < j {
        lemma_chk_part_dev_sum_none(s, groups, m, i, j - 1);
    }
}

proof fn lemma_chk_op_sum_none(s: Seq<SObs>, o: int, i: int, j: int)
    requires
        0 <= i <= j,
        chk_op_sum(s, o, i) is None,
    ensures
        chk_op_sum(s, o, j) is None,
    decreases j - i,
{
    if i < j {
        lemma_chk_op_sum_none(s, o, i, j - 1);
    }
}

proof fn lemma_chk_op_dev_sum_none(s: Seq<SObs>, groups: Seq<int>, m: SRat, i: int, j: int)
    requires
        0 <= i <= j,
        chk_op_dev_sum(s, groups, m, i) is None,
    ensures
        chk_op_dev_sum(s, groups, m, j) is None,
    decreases j - i,
{
    if i < j {
        lemma_chk_op_dev_sum_none(s, groups, m, i, j - 1);
    }
}


/// The checked pipeline stages of `calculate`: the reduced value each
/// stage holds, or nothing once the machine range was left.
pub open spec fn chk_sst_stage(s: Seq<SObs>) -> Option<SRat> {
    match chk_mean(s) {
        None => None,
        Some(m) => chk_dev_sq_sum(s, m, s.len() as int),
    }
}

pub open spec fn chk_ssp_stage(s: Seq<SObs>) -> Option<SRat> {
    match chk_mean(s) {
        None => None,
        Some(m) => chk_ss_part(s, m),
    }
}

pub open spec fn chk_sso_stage(s: Seq<SObs>) -> Option<SRat> {
    match chk_mean(s) {
        None => None,
        Some(m) => chk_ss_operator(s, m),
    }
}

pub open spec fn chk_rep_stage(s: Seq<SObs>) -> Option<SRat> {
    c_sub2(c_sub2(chk_sst_stage(s), chk_ssp_stage(s)), chk_sso_stage(s))
}

pub open spec fn chk_po_stage(s: Seq<SObs>) -> Option<SRat> {
    c_sub2(
        chk_sst_stage(s),
        c_add2(c_add2(chk_ssp_stage(s), chk_sso_stage(s)), chk_rep_stage(s)),
    )
}

pub open spec fn chk_ms_part_stage(s: Seq<SObs>) -> Option<SRat> {
    c_div_int(chk_ssp_stage(s), s_n_part(s) - 1)
}

pub open spec fn chk_ms_rep_stage(s: Seq<SObs>) -> Option<SRat> {
    c_div_int(chk_rep_stage(s), s.len() - s_n_part(s))
}

pub open spec fn chk_f_stage(s: Seq<SObs>) -> Option<SRat> {
    c_div2(chk_ms_part_stage(s), chk_ms_rep_stage(s))
}

pub open spec fn chk_varcomp_stage(s: Seq<SObs>) -> Option<SRat> {
    c_div_int(
        c_sub2(chk_ms_part_stage(s), chk_ms_rep_stage(s)),
        s_n_operator(s) * s_n_trial(s),
    )
}

pub open spec fn chk_vtotal_stage(s: Seq<SObs>) -> Option<SRat> {
    c_add2(chk_ms_rep_stage(s), chk_varcomp_stage(s))
}

/// The total degrees of freedom fit their machine field.
pub open spec fn df_total_fits(s: Seq<SObs>) -> bool {
    s_n_part(s) * s_n_operator(s) * s_n_trial(s) - 1 <= u32::MAX
}

/// Every stage of the checked pipeline stays within the machine range: on
/// such an input a result is owed.
pub open spec fn calc_fits(s: Seq<SObs>) -> bool {
    &&& df_total_fits(s)
    &&& chk_po_stage(s) is Some
    &&& chk_f_stage(s) is Some
    &&& chk_vtotal_stage(s) is Some
}



/// A sum of squared deviations is never negative.
pub proof fn lemma_dev_sq_sum_nonneg(s: Seq<SObs>, m: SRat, i: int)
    requires
        obs_wf(s),
        s_wf(m),
        0 <= i <= s.len(),
    ensures
        dev_sq_sum_to(s, m, i).n >= 0,
    decreases i,
{
    if i > 0 {
        lemma_dev_sq_sum_nonneg(s, m, i - 1);
        lemma_dev_sq_sum_wf(s, m, i - 1);
        let dev = s_sub(s[i - 1].value, m);
        lemma_add_wf(s[i - 1].value, m);
        let acc = dev_sq_sum_to(s, m, i - 1);
        assert(acc.n * s_sq(dev).d + s_sq(dev).n * acc.d >= 0) by (nonlinear_arith)
            requires
                acc.n >= 0,
                acc.d > 0,
                s_sq(dev).n == dev.n * dev.n,
                s_sq(dev).d == dev.d * dev.d,
                dev.d > 0,
        {
        }
    }
}

/// A sum of squared part-mean deviations is never negative.
pub proof fn lemma_part_dev_sum_nonneg(s: Seq<SObs>, groups: Seq<Seq<char>>, m: SRat, j: int)
    requires
        obs_wf(s),
        s_wf(m),
        0 <= j <= groups.len(),
        parts_present(s, groups),
    ensures
        part_dev_sum_to(s, groups, m, j).n >= 0,
    decreases j,
{
    if j > 0 {
        lemma_part_dev_sum_nonneg(s, groups, m, j - 1);
        lemma_part_dev_sum_wf(s, groups, m, j - 1);
        lemma_part_mean_wf(s, groups[j - 1]);
        let dev = s_sub(s_part_mean(s, groups[j - 1]), m);
        lemma_add_wf(s_part_mean(s, groups[j - 1]), m);
        let acc = part_dev_sum_to(s, groups, m, j - 1);
        assert(acc.n * s_sq(dev).d + s_sq(dev).n * acc.d >= 0) by (nonlinear_arith)
            requires
                acc.n >= 0,
                acc.d > 0,
                s_sq(dev).n == dev.n * dev.n,
                s_sq(dev).d == dev.d * dev.d,
                dev.d > 0,
        {
        }
    }
}

/// A sum of squared operator-mean deviations is never negative.
pub proof fn lemma_op_dev_sum_nonneg(s: Seq<SObs>, groups: Seq<int>, m: SRat, j: int)
    requires
        obs_wf(s),
        s_wf(m),
        0 <= j <= groups.len(),
        ops_present(s, groups),
    ensures
        op_dev_sum_to(s, groups, m, j).n >= 0,
    decreases j,
{
    if j > 0 {
        lemma_op_dev_sum_nonneg(s, groups, m, j - 1);
        lemma_op_dev_sum_wf(s, groups, m, j - 1);
        lemma_op_mean_wf(s, groups[j - 1]);
        let dev = s_sub(s_op_mean(s, groups[j - 1]), m);
        lemma_add_wf(s_op_mean(s, groups[j - 1]), m);
        let acc = op_dev_sum_to(s, groups, m, j - 1);
        assert(acc.n * s_sq(dev).d + s_sq(dev).n * acc.d >= 0) by (nonlinear_arith)
            requires
                acc.n >= 0,
                acc.d > 0,
                s_sq(dev).n == dev.n * dev.n,
                s_sq(dev).d == dev.d * dev.d,
                dev.d > 0,
        {
        }
    }
}


/// The total sum of squares is zero exactly when every value equals the
/// center.
pub proof fn lemma_dev_sq_sum_zero_iff(s: Seq<SObs>, m: SRat, i: int)
    requires
        obs_wf(s),
        s_wf(m),
        0 <= i <= s.len(),
    ensures
        (dev_sq_sum_to(s, m, i).n == 0) <==> (forall|k: int|
            0 <= k < i ==> eqv((#[trigger] s[k]).value, m)),
    decreases i,
{
    if i > 0 {
        lemma_dev_sq_sum_zero_iff(s, m, i - 1);
        lemma_dev_sq_sum_nonneg(s, m, i - 1);
        lemma_dev_sq_sum_wf(s, m, i - 1);
        let v = s[i - 1].value;
        let dev = s_sub(v, m);
        lemma_add_wf(v, m);
        let acc = dev_sq_sum_to(s, m, i - 1);
        assert((acc.n * s_sq(dev).d + s_sq(dev).n * acc.d == 0) <==> (acc.n == 0 && dev.n == 0))
            by (nonlinear_arith)
            requires
                acc.n >= 0,
                acc.d > 0,
                s_sq(dev).n == dev.n * dev.n,
                s_sq(dev).d == dev.d * dev.d,
                dev.d > 0,
        {
        }
        if dev_sq_sum_to(s, m, i).n == 0 {
            assert(forall|k: int| 0 <= k < i - 1 ==> eqv((#[trigger] s[k]).value, m));
            assert(eqv(v, m));
        } else {
            if forall|k: int| 0 <= k < i ==> eqv((#[trigger] s[k]).value, m) {
                assert(eqv(s[i - 1].value, m));
                assert(acc.n == 0);
            }
        }
    }
}

proof fn lemma_op_sum_all(s: Seq<SObs>, o: int, i: int)
    requires
        forall|k: int| 0 <= k < s.len() ==> (#[trigger] s[k]).operator == o,
        0 <= i <= s.len(),
    ensures
        op_sum_to(s, o, i) == val_sum_to(s, i),
        op_count_to(s, o, i) == i,
    decreases i,
{
    if i > 0 {
        lemma_op_sum_all(s, o, i - 1);
    }
}

/// In a single-operator study the operator sum of squares is exactly
/// zero: the one operator's mean is the grand mean.
pub proof fn lemma_single_operator_ss_zero(s: Seq<SObs>, m: SRat)
    requires
        obs_wf(s),
        s_wf(m),
        s.len() > 0,
        s_n_operator(s) == 1,
        eqv(m, s_mean(s)),
    ensures
        eqv(s_ss_operator(s, m), s_zero()),
{
    let groups = dedup(operators_of(s));
    lemma_dedup_props(operators_of(s));
    let o0 = groups[0];
    assert forall|k: int| 0 <= k < s.len() implies (#[trigger] s[k]).operator == o0 by {
        assert(operators_of(s)[k] == s[k].operator);
        assert(operators_of(s).contains(s[k].operator));
        assert(groups.contains(s[k].operator));
        let j = choose|j: int| 0 <= j < groups.len() && #[trigger] groups[j] == s[k].operator;
        assert(j == 0);
    }
    lemma_op_sum_all(s, o0, s.len() as int);
    assert(s_op_mean(s, o0) == s_mean(s));
    let dev = s_sub(s_op_mean(s, o0), m);
    lemma_val_sum_wf(s, s.len() as int);
    lemma_div_wf(val_sum_to(s, s.len() as int), s_int(s.len() as int));
    lemma_eqv_sym(m, s_mean(s));
    lemma_eqv_refl(m);
    lemma_sub_congr(s_op_mean(s, o0), m, m, m);
    assert(s_sub(m, m).n == 0);
    lemma_zero_eqv(s_sub(m, m));
    lemma_add_wf(s_op_mean(s, o0), m);
    lemma_add_wf(m, m);
    lemma_eqv_trans(dev, s_sub(m, m), s_zero());
    lemma_zero_eqv(dev);
    assert(dev.n * dev.n == 0) by (nonlinear_arith)
        requires
            dev.n == 0,
    {
    }
    assert(s_sq(dev).n == 0);
    let osum = op_dev_sum_to(s, groups, m, s_n_operator(s));
    assert(op_dev_sum_to(s, groups, m, 0) == s_zero());
    assert(osum == s_add(op_dev_sum_to(s, groups, m, 0), s_sq(dev)));
    assert(osum.n == 0);
    let fac = s_n_part(s) * s_n_trial(s);
    assert(s_int(fac).n * osum.n == 0) by (nonlinear_arith)
        requires
            osum.n == 0,
    {
    }
    assert(s_ss_operator(s, m).n == 0);
    lemma_zero_eqv(s_ss_operator(s, m));
}

/// A standard deviation exists only for a nonnegative variance component:
/// the square root of a negative estimate is undefined and must be
/// reported as such, never as zero.
pub fn stddev_defined(varcomp: &Rat) -> (r: bool)
    ensures
        r == (varcomp@.n >= 0),
{
    !varcomp.is_negative()
}

/// Every part listed by dedup occurs in the data.
pub proof fn lemma_dedup_parts_present(s: Seq<SObs>)
    ensures
        parts_present(s, dedup(parts_of(s))),
{
    let groups = dedup(parts_of(s));
    lemma_dedup_props(parts_of(s));
    assert forall|k2: int| 0 <= k2 < groups.len() implies part_count_to(
        s,
        #[trigger] groups[k2],
        s.len() as int,
    ) > 0 by {
        assert(dedup(parts_of(s))[k2] == groups[k2]);
        assert(dedup(parts_of(s)).contains(groups[k2]));
        assert(parts_of(s).contains(groups[k2]));
        let j = choose|j: int|
            0 <= j < parts_of(s).len() && #[trigger] parts_of(s)[j] == groups[k2];
        assert(s[j].part == groups[k2]);
        lemma_part_count_bounds(s, groups[k2], s.len() as int);
    }
}

/// Every operator listed by dedup occurs in the data.
pub proof fn lemma_dedup_ops_present(s: Seq<SObs>)
    ensures
        ops_present(s, dedup(operators_of(s))),
{
    let groups = dedup(operators_of(s));
    lemma_dedup_props(operators_of(s));
    assert forall|k2: int| 0 <= k2 < groups.len() implies op_count_to(
        s,
        #[trigger] groups[k2],
        s.len() as int,
    ) > 0 by {
        assert(dedup(operators_of(s))[k2] == groups[k2]);
        assert(dedup(operators_of(s)).contains(groups[k2]));
        assert(operators_of(s).contains(groups[k2]));
        let j = choose|j: int|
            0 <= j < operators_of(s).len() && #[trigger] operators_of(s)[j] == groups[k2];
        assert(s[j].operator == groups[k2]);
        lemma_op_count_bounds(s, groups[k2], s.len() as int);
    }
}

/// A well-formed observation set views to a sequence of well-formed values.
pub proof fn lemma_obs_wf(g: GageStudyDataSet)
    requires
        g.wf(),
    ensures
        obs_wf(g@),
{
    assert forall|q: int| 0 <= q < g@.len() implies s_wf((#[trigger] g@[q]).value) by {
        assert(g.data@[q].wf());
        assert(g@[q] == g.data@[q]@);
    }
}

proof fn lemma_u32_prod_bound(x: u32, y: u32) by (nonlinear_arith)
    ensures
        0 <= (x as int) * (y as int) <= 0xffff_ffff * 0xffff_ffff,
{
}

impl GageStudyDataSet {
    /// The arithmetic mean of all observation values; `None` exactly when
    /// the checked computation leaves the machine range.
    pub fn mean(&self) -> (r: Option<Rat>)
        requires
            self.wf(),
            self@.len() >= 1,
        ensures
            r matches Some(x) ==> x.wf() && eqv(x@, s_mean(self@)),
            opt_view(r) == chk_mean(self@),
    {
        let ghost s = self@;
        let mut sum = Rat::zero();
        let mut i: usize = 0;
        while i < self.data.len()
            invariant
                self.wf(),
                s == self@,
                i <= self.data.len(),
                sum.wf(),
                eqv(sum@, val_sum_to(s, i as int)),
                chk_val_sum(s, i as int) == Some(sum@),
            decreases self.data.len() - i,
        {
            let v = self.data[i].value;
            proof {
                lemma_val_sum_wf(s, i as int);
                assert(v@ == s[i as int].value);
            }
            let next = match sum.add(&v) {
                Some(x) => x,
                None => {
                    proof {
                        assert(chk_val_sum(s, i + 1) is None);
                        lemma_chk_val_sum_none(s, i + 1, s.len() as int);
                    }
                    return None;
                },
            };
            proof {
                lemma_add_congr(sum@, v@, val_sum_to(s, i as int), s[i as int].value);
                lemma_add_wf(sum@, v@);
                lemma_add_wf(val_sum_to(s, i as int), s[i as int].value);
                lemma_eqv_trans(
                    next@,
                    s_add(sum@, v@),
                    s_add(val_sum_to(s, i as int), s[i as int].value),
                );
            }
            sum = next;
            i += 1;
        }
        let n: i64 = self.data.len() as i64;
        let nr = Rat::from_int(n);
        let m = match sum.div(&nr) {
            Some(x) => x,
            None => {
                return None;
            },
        };
        proof {
            assert(chk_mean(s) == Some(m@));
        }
        proof {
            lemma_val_sum_wf(s, s.len() as int);
            lemma_eqv_refl(nr@);
            lemma_div_congr(sum@, nr@, val_sum_to(s, s.len() as int), s_int(s.len() as int));
            lemma_div_wf(sum@, nr@);
            lemma_div_wf(val_sum_to(s, s.len() as int), s_int(s.len() as int));
            lemma_eqv_trans(m@, s_div(sum@, nr@), s_mean(s));
        }
        Some(m)
    }

    /// The total sum of squares about `mean`; `None` exactly when the
    /// checked computation leaves the machine range.
    pub fn ss_total(&self, mean: &Rat) -> (r: Option<Rat>)
        requires
            self.wf(),
            mean.wf(),
        ensures
            r matches Some(x) ==> x.wf() && eqv(x@, s_ss_total(self@, mean@)),
            r matches Some(x) ==> x@.n >= 0,
            r matches Some(x) ==> ((x@.n == 0) <==> (forall|k: int|
                0 <= k < self@.len() ==> eqv((#[trigger] self@[k]).value, mean@))),
            opt_view(r) == chk_dev_sq_sum(self@, mean@, self@.len() as int),
    {
        let ghost s = self@;
        let ghost m = mean@;
        let mut sum = Rat::zero();
        let mut i: usize = 0;
        while i < self.data.len()
            invariant
                self.wf(),
                s == self@,
                m == mean@,
                mean.wf(),
                i <= self.data.len(),
                sum.wf(),
                eqv(sum@, dev_sq_sum_to(s, m, i as int)),
                chk_dev_sq_sum(s, m, i as int) == Some(sum@),
            decreases self.data.len() - i,
        {
            let v = self.data[i].value;
            proof {
                lemma_dev_sq_sum_wf(s, m, i as int);
                assert(v@ == s[i as int].value);
            }
            let d = match v.sub(mean) {
                Some(x) => x,
                None => {
                    proof {
                        assert(chk_dev_sq_sum(s, m, i + 1) is None);
                        lemma_chk_dev_sq_sum_none(s, m, i + 1, s.len() as int);
                    }
                    return None;
                },
            };
            let sq = match d.mul(&d) {
                Some(x) => x,
                None => {
                    proof {
                        assert(c_sub(Some(s[i as int].value), m) == Some(d@));
                        assert(chk_dev_sq_sum(s, m, i + 1) is None);
                        lemma_chk_dev_sq_sum_none(s, m, i + 1, s.len() as int);
                    }
                    return None;
                },
            };
            let next = match sum.add(&sq) {
                Some(x) => x,
                None => {
                    proof {
                        assert(c_sub(Some(s[i as int].value), m) == Some(d@));
                        assert(c_sq(Some(d@)) == Some(sq@));
                        assert(chk_dev_sq_sum(s, m, i + 1) is None);
                        lemma_chk_dev_sq_sum_none(s, m, i + 1, s.len() as int);
                    }
                    return None;
                },
            };
            proof {
                let dev = s_sub(s[i as int].value, m);
                lemma_add_wf(s[i as int].value, m);
                // d@ is equivalent to the exact deviation, so its square is
                // equivalent to the exact squared deviation.
                lemma_mul_congr(d@, d@, dev, dev);
                lemma_add_wf(d@, d@);
                lemma_add_wf(dev, dev);
                lemma_eqv_trans(sq@, s_mul(d@, d@), s_sq(dev));
                lemma_add_congr(sum@, sq@, dev_sq_sum_to(s, m, i as int), s_sq(dev));
                lemma_add_wf(sum@, sq@);
                lemma_add_wf(dev_sq_sum_to(s, m, i as int), s_sq(dev));
                lemma_eqv_trans(
                    next@,
                    s_add(sum@, sq@),
                    s_add(dev_sq_sum_to(s, m, i as int), s_sq(dev)),
                );
                assert(c_sub(Some(s[i as int].value), m) == Some(d@));
                assert(c_sq(Some(d@)) == Some(sq@));
                assert(chk_dev_sq_sum(s, m, i + 1) == Some(next@));
            }
            sum = next;
            i += 1;
        }
        proof {
            lemma_dev_sq_sum_nonneg(s, m, s.len() as int);
            lemma_dev_sq_sum_wf(s, m, s.len() as int);
            lemma_eqv_sign(sum@, dev_sq_sum_to(s, m, s.len() as int));
            lemma_dev_sq_sum_zero_iff(s, m, s.len() as int);
        }
        Some(sum)
    }

    /// The part sum of squares about `mean`; `None` exactly when the
    /// checked computation leaves the machine range.
    pub fn ss_part(&self, mean: &Rat) -> (r: Option<Rat>)
        requires
            self.wf(),
            mean.wf(),
        ensures
            r matches Some(x) ==> x.wf() && eqv(x@, s_ss_part(self@, mean@)),
            r matches Some(x) ==> x@.n >= 0,
            opt_view(r) == chk_ss_part(self@, mean@),
    {
        let ghost s = self@;
        let ghost m = mean@;
        let ghost groups = strs_view(self.parts@);
        proof {
            lemma_obs_wf(*self);
            lemma_dedup_props(parts_of(s));
            assert forall|k2: int| 0 <= k2 < groups.len() implies part_count_to(
                s,
                #[trigger] groups[k2],
                s.len() as int,
            ) > 0 by {
                assert(dedup(parts_of(s))[k2] == groups[k2]);
                assert(dedup(parts_of(s)).contains(groups[k2]));
                assert(parts_of(s).contains(groups[k2]));
                let j = choose|j: int|
                    0 <= j < parts_of(s).len() && #[trigger] parts_of(s)[j] == groups[k2];
                assert(s[j].part == groups[k2]);
                lemma_part_count_bounds(s, groups[k2], s.len() as int);
            }
        }
        let mut acc = Rat::zero();
        let mut k: usize = 0;
        while k < self.parts.len()
            invariant
                self.wf(),
                s == self@,
                m == mean@,
                mean.wf(),
                groups == strs_view(self.parts@),
                groups == dedup(parts_of(s)),
                parts_present(s, groups),
                obs_wf(s),
                k <= self.parts.len(),
                acc.wf(),
                eqv(acc@, part_dev_sum_to(s, groups, m, k as int)),
                chk_part_dev_sum(s, groups, m, k as int) == Some(acc@),
            decreases self.parts.len() - k,
        {
            let ghost p_spec = groups[k as int];
            proof {
                assert(self.parts@[k as int]@ == p_spec);
            }
            let mut psum = Rat::zero();
            let mut cnt: u32 = 0;
            let mut i: usize = 0;
            while i < self.data.len()
                invariant
                    self.wf(),
                    s == self@,
                    m == mean@,
                    obs_wf(s),
                    k < self.parts.len(),
                    p_spec == self.parts@[k as int]@,
                    groups == strs_view(self.parts@),
                    groups == dedup(parts_of(s)),
                    p_spec == groups[k as int],
                    chk_part_dev_sum(s, groups, m, k as int) == Some(acc@),
                    i <= self.data.len(),
                    psum.wf(),
                    eqv(psum@, part_sum_to(s, p_spec, i as int)),
                    cnt == part_count_to(s, p_spec, i as int),
                    cnt <= i,
                    chk_part_sum(s, p_spec, i as int) == Some(psum@),
                decreases self.data.len() - i,
            {
                proof {
                    lemma_part_sum_wf(s, p_spec, i as int);
                    lemma_part_count_bounds(s, p_spec, i as int);
                    assert(s[i as int].part == self.data@[i as int].part@);
                }
                if self.data[i].part.eq(&self.parts[k]) {
                    let v = self.data[i].value;
                    proof {
                        assert(v@ == s[i as int].value);
                    }
                    let next = match psum.add(&v) {
                        Some(x) => x,
                        None => {
                            proof {
                                assert(chk_part_sum(s, p_spec, i + 1) is None);
                                lemma_chk_part_sum_none(s, p_spec, i + 1, s.len() as int);
                                assert(chk_part_term(s, p_spec, m) is None);
                                assert(chk_part_dev_sum(s, groups, m, k + 1) is None);
                                lemma_chk_part_dev_sum_none(
                                    s,
                                    groups,
                                    m,
                                    k + 1,
                                    groups.len() as int,
                                );
                                assert(chk_ss_part(s, m) is None);
                            }
                            return None;
                        },
                    };
                    proof {
                        lemma_add_congr(
                            psum@,
                            v@,
                            part_sum_to(s, p_spec, i as int),
                            s[i as int].value,
                        );
                        lemma_add_wf(psum@, v@);
                        lemma_add_wf(part_sum_to(s, p_spec, i as int), s[i as int].value);
                        lemma_eqv_trans(
                            next@,
                            s_add(psum@, v@),
                            s_add(part_sum_to(s, p_spec, i as int), s[i as int].value),
                        );
                    }
                    psum = next;
                    cnt = cnt + 1;
                }
                i += 1;
            }
            proof {
                assert(part_count_to(s, p_spec, s.len() as int) > 0);
            }
            let cr = Rat::from_int(cnt as i64);
            let ghost pcount = part_count_to(s, p_spec, s.len() as int);
            let pm = match psum.div(&cr) {
                Some(x) => x,
                None => {
                    proof {
                        assert(c_div_int(chk_part_sum(s, p_spec, s.len() as int), pcount)
                            is None);
                        assert(chk_part_term(s, p_spec, m) is None);
                        assert(chk_part_dev_sum(s, groups, m, k + 1) is None);
                        lemma_chk_part_dev_sum_none(s, groups, m, k + 1, groups.len() as int);
                        assert(chk_ss_part(s, m) is None);
                    }
                    return None;
                },
            };
            proof {
                assert(c_div_int(chk_part_sum(s, p_spec, s.len() as int), pcount) == Some(pm@));
            }
            proof {
                lemma_part_sum_wf(s, p_spec, s.len() as int);
                lemma_div_congr(
                    psum@,
                    cr@,
                    part_sum_to(s, p_spec, s.len() as int),
                    s_int(part_count_to(s, p_spec, s.len() as int)),
                );
                lemma_div_wf(psum@, cr@);
                lemma_part_mean_wf(s, p_spec);
                lemma_eqv_trans(pm@, s_div(psum@, cr@), s_part_mean(s, p_spec));
            }
            let dev = match pm.sub(mean) {
                Some(x) => x,
                None => {
                    proof {
                        assert(chk_part_term(s, p_spec, m) is None);
                        assert(chk_part_dev_sum(s, groups, m, k + 1) is None);
                        lemma_chk_part_dev_sum_none(s, groups, m, k + 1, groups.len() as int);
                        assert(chk_ss_part(s, m) is None);
                    }
                    return None;
                },
            };
            let sq = match dev.mul(&dev) {
                Some(x) => x,
                None => {
                    proof {
                        assert(chk_part_term(s, p_spec, m) is None);
                        assert(chk_part_dev_sum(s, groups, m, k + 1) is None);
                        lemma_chk_part_dev_sum_none(s, groups, m, k + 1, groups.len() as int);
                        assert(chk_ss_part(s, m) is None);
                    }
                    return None;
                },
            };
            proof {
                assert(chk_part_term(s, p_spec, m) == Some(sq@));
            }
            let next = match acc.add(&sq) {
                Some(x) => x,
                None => {
                    proof {
                        assert(chk_part_dev_sum(s, groups, m, k + 1) is None);
                        lemma_chk_part_dev_sum_none(s, groups, m, k + 1, groups.len() as int);
                        assert(chk_ss_part(s, m) is None);
                    }
                    return None;
                },
            };
            proof {
                assert(chk_part_dev_sum(s, groups, m, k + 1) == Some(next@));
                let pme = s_part_mean(s, p_spec);
                let deve = s_sub(pme, m);
                lemma_eqv_refl(m);
                lemma_sub_congr(pm@, m, pme, m);
                lemma_add_wf(pm@, m);
                lemma_add_wf(pme, m);
                lemma_eqv_trans(dev@, s_sub(pm@, m), deve);
                lemma_mul_congr(dev@, dev@, deve, deve);
                lemma_add_wf(dev@, dev@);
                lemma_add_wf(deve, deve);
                lemma_eqv_trans(sq@, s_mul(dev@, dev@), s_sq(deve));
                lemma_part_dev_sum_wf(s, groups, m, k as int);
                lemma_add_congr(acc@, sq@, part_dev_sum_to(s, groups, m, k as int), s_sq(deve));
                lemma_add_wf(acc@, sq@);
                lemma_add_wf(part_dev_sum_to(s, groups, m, k as int), s_sq(deve));
                lemma_eqv_trans(
                    next@,
                    s_add(acc@, sq@),
                    s_add(part_dev_sum_to(s, groups, m, k as int), s_sq(deve)),
                );
            }
            acc = next;
            k += 1;
        }
        proof {
            lemma_u32_prod_bound(self.n_operator, self.n_trial);
            assert(self.n_operator as int == s_n_operator(s));
            assert(self.n_trial as int == s_n_trial(s));
        }
        let fu: u64 = (self.n_operator as u64) * (self.n_trial as u64);
        if fu > i64::MAX as u64 {
            proof {
                assert(chk_ss_part(s, m) is None);
            }
            return None;
        }
        let f = Rat::from_int(fu as i64);
        let r = match f.mul(&acc) {
            Some(x) => x,
            None => {
                proof {
                    assert(chk_ss_part(s, m) is None);
                }
                return None;
            },
        };
        proof {
            assert(chk_ss_part(s, m) == Some(r@));
            lemma_eqv_refl(f@);
            lemma_part_dev_sum_wf(s, groups, m, groups.len() as int);
            lemma_mul_congr(
                f@,
                acc@,
                s_int(s_n_operator(s) * s_n_trial(s)),
                part_dev_sum_to(s, groups, m, groups.len() as int),
            );
            lemma_add_wf(f@, acc@);
            lemma_add_wf(
                s_int(s_n_operator(s) * s_n_trial(s)),
                part_dev_sum_to(s, groups, m, groups.len() as int),
            );
            lemma_eqv_trans(r@, s_mul(f@, acc@), s_ss_part(s, m));
            lemma_part_dev_sum_nonneg(s, groups, m, groups.len() as int);
            assert((s_n_operator(s) * s_n_trial(s)) * part_dev_sum_to(
                s,
                groups,
                m,
                groups.len() as int,
            ).n >= 0) by (nonlinear_arith)
                requires
                    s_n_operator(s) >= 0,
                    s_n_trial(s) >= 0,
                    part_dev_sum_to(s, groups, m, groups.len() as int).n >= 0,
            {
            }
            lemma_eqv_sign(r@, s_ss_part(s, m));
        }
        Some(r)
    }

    /// The operator sum of squares about `mean`; `None` exactly when the
    /// checked computation leaves the machine range.
    pub fn ss_operator(&self, mean: &Rat) -> (r: Option<Rat>)
        requires
            self.wf(),
            mean.wf(),
        ensures
            r matches Some(x) ==> x.wf() && eqv(x@, s_ss_operator(self@, mean@)),
            r matches Some(x) ==> x@.n >= 0,
            opt_view(r) == chk_ss_operator(self@, mean@),
    {
        let ghost s = self@;
        let ghost m = mean@;
        let ghost groups = ints_view(self.operators@);
        proof {
            lemma_obs_wf(*self);
            lemma_dedup_props(operators_of(s));
            assert forall|k2: int| 0 <= k2 < groups.len() implies op_count_to(
                s,
                #[trigger] groups[k2],
                s.len() as int,
            ) > 0 by {
                assert(dedup(operators_of(s))[k2] == groups[k2]);
                assert(dedup(operators_of(s)).contains(groups[k2]));
                assert(operators_of(s).contains(groups[k2]));
                let j = choose|j: int|
                    0 <= j < operators_of(s).len() && #[trigger] operators_of(s)[j] == groups[k2];
                assert(s[j].operator == groups[k2]);
                lemma_op_count_bounds(s, groups[k2], s.len() as int);
            }
        }
        let mut acc = Rat::zero();
        let mut k: usize = 0;
        while k < self.operators.len()
            invariant
                self.wf(),
                s == self@,
                m == mean@,
                mean.wf(),
                groups == ints_view(self.operators@),
                groups == dedup(operators_of(s)),
                ops_present(s, groups),
                obs_wf(s),
                k <= self.operators.len(),
                acc.wf(),
                eqv(acc@, op_dev_sum_to(s, groups, m, k as int)),
                chk_op_dev_sum(s, groups, m, k as int) == Some(acc@),
            decreases self.operators.len() - k,
        {
            let o_id: u32 = self.operators[k];
            let ghost o_spec = groups[k as int];
            proof {
                assert(self.operators@[k as int] as int == o_spec);
            }
            let mut osum = Rat::zero();
            let mut cnt: u32 = 0;
            let mut i: usize = 0;
            while i < self.data.len()
                invariant
                    self.wf(),
                    s == self@,
                    m == mean@,
                    obs_wf(s),
                    o_id as int == o_spec,
                    k < self.operators.len(),
                    groups == ints_view(self.operators@),
                    groups == dedup(operators_of(s)),
                    o_spec == groups[k as int],
                    chk_op_dev_sum(s, groups, m, k as int) == Some(acc@),
                    i <= self.data.len(),
                    osum.wf(),
                    eqv(osum@, op_sum_to(s, o_spec, i as int)),
                    cnt == op_count_to(s, o_spec, i as int),
                    cnt <= i,
                    chk_op_sum(s, o_spec, i as int) == Some(osum@),
                decreases self.data.len() - i,
            {
                proof {
                    lemma_op_sum_wf(s, o_spec, i as int);
                    lemma_op_count_bounds(s, o_spec, i as int);
                    assert(s[i as int].operator == self.data@[i as int].operator as int);
                }
                if self.data[i].operator == o_id {
                    let v = self.data[i].value;
                    proof {
                        assert(v@ == s[i as int].value);
                    }
                    let next = match osum.add(&v) {
                        Some(x) => x,
                        None => {
                            proof {
                                assert(chk_op_sum(s, o_spec, i + 1) is None);
                                lemma_chk_op_sum_none(s, o_spec, i + 1, s.len() as int);
                                assert(chk_op_term(s, o_spec, m) is None);
                                assert(chk_op_dev_sum(s, groups, m, k + 1) is None);
                                lemma_chk_op_dev_sum_none(
                                    s,
                                    groups,
                                    m,
                                    k + 1,
                                    groups.len() as int,
                                );
                                assert(chk_ss_operator(s, m) is None);
                            }
                            return None;
                        },
                    };
                    proof {
                        lemma_add_congr(
                            osum@,
                            v@,
                            op_sum_to(s, o_spec, i as int),
                            s[i as int].value,
                        );
                        lemma_add_wf(osum@, v@);
                        lemma_add_wf(op_sum_to(s, o_spec, i as int), s[i as int].value);
                        lemma_eqv_trans(
                            next@,
                            s_add(osum@, v@),
                            s_add(op_sum_to(s, o_spec, i as int), s[i as int].value),
                        );
                    }
                    osum = next;
                    cnt = cnt + 1;
                }
                i += 1;
            }
            proof {
                assert(op_count_to(s, o_spec, s.len() as int) > 0);
            }
            let cr = Rat::from_int(cnt as i64);
            let ghost ocount = op_count_to(s, o_spec, s.len() as int);
            let om = match osum.div(&cr) {
                Some(x) => x,
                None => {
                    proof {
                        assert(c_div_int(chk_op_sum(s, o_spec, s.len() as int), ocount)
                            is None);
                        assert(chk_op_term(s, o_spec, m) is None);
                        assert(chk_op_dev_sum(s, groups, m, k + 1) is None);
                        lemma_chk_op_dev_sum_none(s, groups, m, k + 1, groups.len() as int);
                        assert(chk_ss_operator(s, m) is None);
                    }
                    return None;
                },
            };
            proof {
                assert(c_div_int(chk_op_sum(s, o_spec, s.len() as int), ocount) == Some(om@));
            }
            proof {
                lemma_op_sum_wf(s, o_spec, s.len() as int);
                lemma_div_congr(
                    osum@,
                    cr@,
                    op_sum_to(s, o_spec, s.len() as int),
                    s_int(op_count_to(s, o_spec, s.len() as int)),
                );
                lemma_div_wf(osum@, cr@);
                lemma_op_mean_wf(s, o_spec);
                lemma_eqv_trans(om@, s_div(osum@, cr@), s_op_mean(s, o_spec));
            }
            let dev = match om.sub(mean) {
                Some(x) => x,
                None => {
                    proof {
                        assert(chk_op_term(s, o_spec, m) is None);
                        assert(chk_op_dev_sum(s, groups, m, k + 1) is None);
                        lemma_chk_op_dev_sum_none(s, groups, m, k + 1, groups.len() as int);
                        assert(chk_ss_operator(s, m) is None);
                    }
                    return None;
                },
            };
            let sq = match dev.mul(&dev) {
                Some(x) => x,
                None => {
                    proof {
                        assert(chk_op_term(s, o_spec, m) is None);
                        assert(chk_op_dev_sum(s, groups, m, k + 1) is None);
                        lemma_chk_op_dev_sum_none(s, groups, m, k + 1, groups.len() as int);
                        assert(chk_ss_operator(s, m) is None);
                    }
                    return None;
                },
            };
            proof {
                assert(chk_op_term(s, o_spec, m) == Some(sq@));
            }
            let next = match acc.add(&sq) {
                Some(x) => x,
                None => {
                    proof {
                        assert(chk_op_dev_sum(s, groups, m, k + 1) is None);
                        lemma_chk_op_dev_sum_none(s, groups, m, k + 1, groups.len() as int);
                        assert(chk_ss_operator(s, m) is None);
                    }
                    return None;
                },
            };
            proof {
                assert(chk_op_dev_sum(s, groups, m, k + 1) == Some(next@));
                let ome = s_op_mean(s, o_spec);
                let deve = s_sub(ome, m);
                lemma_eqv_refl(m);
                lemma_sub_congr(om@, m, ome, m);
                lemma_add_wf(om@, m);
                lemma_add_wf(ome, m);
                lemma_eqv_trans(dev@, s_sub(om@, m), deve);
                lemma_mul_congr(dev@, dev@, deve, deve);
                lemma_add_wf(dev@, dev@);
                lemma_add_wf(deve, deve);
                lemma_eqv_trans(sq@, s_mul(dev@, dev@), s_sq(deve));
                lemma_op_dev_sum_wf(s, groups, m, k as int);
                lemma_add_congr(acc@, sq@, op_dev_sum_to(s, groups, m, k as int), s_sq(deve));
                lemma_add_wf(acc@, sq@);
                lemma_add_wf(op_dev_sum_to(s, groups, m, k as int), s_sq(deve));
                lemma_eqv_trans(
                    next@,
                    s_add(acc@, sq@),
                    s_add(op_dev_sum_to(s, groups, m, k as int), s_sq(deve)),
                );
            }
            acc = next;
            k += 1;
        }
        proof {
            lemma_u32_prod_bound(self.n_part, self.n_trial);
            assert(self.n_part as int == s_n_part(s));
            assert(self.n_trial as int == s_n_trial(s));
        }
        let fu: u64 = (self.n_part as u64) * (self.n_trial as u64);
        if fu > i64::MAX as u64 {
            proof {
                assert(chk_ss_operator(s, m) is None);
            }
            return None;
        }
        let f = Rat::from_int(fu as i64);
        let r = match f.mul(&acc) {
            Some(x) => x,
            None => {
                proof {
                    assert(chk_ss_operator(s, m) is None);
                }
                return None;
            },
        };
        proof {
            assert(chk_ss_operator(s, m) == Some(r@));
            lemma_eqv_refl(f@);
            lemma_op_dev_sum_wf(s, groups, m, groups.len() as int);
            lemma_mul_congr(
                f@,
                acc@,
                s_int(s_n_part(s) * s_n_trial(s)),
                op_dev_sum_to(s, groups, m, groups.len() as int),
            );
            lemma_add_wf(f@, acc@);
            lemma_add_wf(
                s_int(s_n_part(s) * s_n_trial(s)),
                op_dev_sum_to(s, groups, m, groups.len() as int),
            );
            lemma_eqv_trans(r@, s_mul(f@, acc@), s_ss_operator(s, m));
            lemma_op_dev_sum_nonneg(s, groups, m, groups.len() as int);
            assert((s_n_part(s) * s_n_trial(s)) * op_dev_sum_to(
                s,
                groups,
                m,
                groups.len() as int,
            ).n >= 0) by (nonlinear_arith)
                requires
                    s_n_part(s) >= 0,
                    s_n_trial(s) >= 0,
                    op_dev_sum_to(s, groups, m, groups.len() as int).n >= 0,
            {
            }
            lemma_eqv_sign(r@, s_ss_operator(s, m));
        }
        Some(r)
    }

    /// The interaction sum of squares: what the total leaves after the
    /// part, operator and repeatability terms.
    pub fn ss_part_operator(
        ss_total: &Rat,
        ss_part: &Rat,
        ss_operator: &Rat,
        ss_repeatability: &Rat,
    ) -> (r: Option<Rat>)
        requires
            ss_total.wf(),
            ss_part.wf(),
            ss_operator.wf(),
            ss_repeatability.wf(),
        ensures
            r matches Some(x) ==> x.wf() && eqv(
                x@,
                s_sub(ss_total@, s_add(s_add(ss_part@, ss_operator@), ss_repeatability@)),
            ),
            opt_view(r) == c_sub2(
                Some(ss_total@),
                c_add2(c_add2(Some(ss_part@), Some(ss_operator@)), Some(ss_repeatability@)),
            ),
    {
        let u1 = match ss_part.add(ss_operator) {
            Some(x) => x,
            None => {
                return None;
            },
        };
        let u2 = match u1.add(ss_repeatability) {
            Some(x) => x,
            None => {
                return None;
            },
        };
        proof {
            assert(c_add2(c_add2(Some(ss_part@), Some(ss_operator@)), Some(ss_repeatability@))
                == Some(u2@));
        }
        let r = match ss_total.sub(&u2) {
            Some(x) => x,
            None => {
                return None;
            },
        };
        proof {
            let pe = ss_part@;
            let oe = ss_operator@;
            let re = ss_repeatability@;
            let te = ss_total@;
            lemma_eqv_refl(re);
            lemma_add_wf(pe, oe);
            lemma_add_congr(u1@, re, s_add(pe, oe), re);
            lemma_add_wf(u1@, re);
            lemma_add_wf(s_add(pe, oe), re);
            lemma_eqv_trans(u2@, s_add(u1@, re), s_add(s_add(pe, oe), re));
            lemma_eqv_refl(te);
            lemma_sub_congr(te, u2@, te, s_add(s_add(pe, oe), re));
            lemma_add_wf(te, u2@);
            lemma_add_wf(te, s_add(s_add(pe, oe), re));
            lemma_eqv_trans(r@, s_sub(te, u2@), s_sub(te, s_add(s_add(pe, oe), re)));
        }
        Some(r)
    }

    /// Runs the whole decomposition once: a pure pipeline from the
    /// observation set to an immutable result.
    ///
    /// Every outcome is a function of the observation set alone: the three
    /// design errors come exactly on the conditions stated below, a result
    /// is owed whenever the checked pipeline stays within the machine
    /// range, and every field of that result is pinned.
    pub fn calculate(&self) -> (r: Result<AnovaResult, Error>)
        requires
            self.wf(),
        ensures
            (r == Err::<AnovaResult, Error>(Error::EmptyInput)) <==> c_empty(self@),
            (r == Err::<AnovaResult, Error>(Error::UnsupportedDesign)) <==> (!c_empty(self@)
                && c_multi_operator(self@)),
            (r == Err::<AnovaResult, Error>(Error::DegenerateDesign)) <==> (!c_empty(self@)
                && !c_multi_operator(self@) && (c_degenerate_counts(self@) || (df_total_fits(
                self@,
            ) && chk_rep_stage(self@) is Some && c_zero_repeatability(self@)))),
            (r is Ok) <==> (!c_empty(self@) && !c_multi_operator(self@)
                && !c_degenerate_counts(self@) && !c_zero_repeatability(self@) && calc_fits(
                self@,
            )),
            r == Err::<AnovaResult, Error>(Error::Overflow) ==> !c_empty(self@)
                && !c_multi_operator(self@) && !c_degenerate_counts(self@),
            r matches Ok(a) ==> {
                &&& !c_empty(self@)
                &&& !c_multi_operator(self@)
                &&& !c_degenerate_counts(self@)
                &&& !c_zero_repeatability(self@)
                &&& a.wf()
                &&& a.n_part as int == s_n_part(self@)
                &&& a.n_operator as int == s_n_operator(self@)
                &&& a.n_trial as int == s_n_trial(self@)
                &&& a.n_total as int == self@.len() as int
                &&& a.df_part as int == s_n_part(self@) - 1
                &&& a.df_operator == 0
                &&& a.df_part_operator == 0
                &&& a.df_repeatability as int == self@.len() - s_n_part(self@)
                &&& a.df_total as int == s_n_part(self@) * s_n_operator(self@) * s_n_trial(self@)
                    - 1
                &&& eqv(a.mean@, s_mean(self@))
                &&& eqv(a.ss_total@, s_ss_total(self@, s_mean(self@)))
                &&& eqv(a.ss_part@, s_ss_part(self@, s_mean(self@)))
                &&& eqv(a.ss_operator@, s_ss_operator(self@, s_mean(self@)))
                &&& eqv(a.ss_repeatability@, s_ss_repeatability(self@))
                &&& eqv(a.ss_part_operator@, s_ss_part_operator(self@))
                &&& eqv(a.ss_operator@, s_zero())
                &&& eqv(a.ss_part_operator@, s_zero())
                &&& a.ss_total@.n >= 0
                &&& a.ss_part@.n >= 0
                &&& eqv(
                    s_add(
                        s_add(s_add(a.ss_part@, a.ss_operator@), a.ss_part_operator@),
                        a.ss_repeatability@,
                    ),
                    a.ss_total@,
                )
                &&& eqv(a.ms_part@, s_ms_part(self@))
                &&& a.ms_operator is None
                &&& a.ms_part_operator is None
                &&& eqv(a.ms_repeatability@, s_ms_repeatability(self@))
                &&& eqv(a.f_part@, s_f_part(self@))
                &&& a.f_operator is None
                &&& a.f_part_operator is None
                &&& eqv(a.varcomp_part@, s_varcomp_part(self@))
                &&& a.varcomp_operator is None
                &&& eqv(a.varcomp_total_gagerr@, s_ms_repeatability(self@))
                &&& eqv(a.varcomp_total@, s_varcomp_total(self@))
                &&& a.p@ == s_zero()
                &&& a.study_variation@ == (SRat { n: 103, d: 20 })
                &&& a.tolerance@ == s_zero()
                &&& Some(a.mean@) == chk_mean(self@)
                &&& Some(a.ss_total@) == chk_sst_stage(self@)
                &&& Some(a.ss_part@) == chk_ssp_stage(self@)
                &&& Some(a.ss_operator@) == chk_sso_stage(self@)
                &&& Some(a.ss_repeatability@) == chk_rep_stage(self@)
                &&& Some(a.ss_part_operator@) == chk_po_stage(self@)
                &&& Some(a.ms_part@) == chk_ms_part_stage(self@)
                &&& Some(a.ms_repeatability@) == chk_ms_rep_stage(self@)
                &&& Some(a.f_part@) == chk_f_stage(self@)
                &&& Some(a.varcomp_part@) == chk_varcomp_stage(self@)
                &&& Some(a.varcomp_total_gagerr@) == chk_ms_rep_stage(self@)
                &&& Some(a.varcomp_total@) == chk_vtotal_stage(self@)
            },
    {
        let ghost s = self@;
        proof {
            lemma_obs_wf(*self);
            lemma_dedup_props(parts_of(s));
            lemma_dedup_props(operators_of(s));
            lemma_dedup_props(trials_of(s));
        }
        if self.data.len() == 0 {
            return Err(Error::EmptyInput);
        }
        if self.operators.len() > 1 {
            return Err(Error::UnsupportedDesign);
        }
        if self.parts.len() <= 1 {
            return Err(Error::DegenerateDesign);
        }
        proof {
            assert(parts_of(s).len() == s.len());
            assert(operators_of(s).len() == s.len());
            assert(trials_of(s).len() == s.len());
            assert(strs_view(self.parts@).len() == self.parts@.len());
            assert(ints_view(self.operators@).len() == self.operators@.len());
            assert(ints_view(self.trials@).len() == self.trials@.len());
            assert(self.n_operator == 1);
            assert(self.n_part as int <= s.len());
            assert(self.n_total as int == s.len());
            assert(self.n_trial >= 1);
        }
        let n_part: u32 = self.n_part;
        let n_operator: u32 = self.n_operator;
        let n_trial: u32 = self.n_trial;
        let n_total: u32 = self.n_total;
        let df_part: u32 = n_part - 1;
        let df_operator: u32 = n_operator - 1;
        proof {
            assert((df_part as int) * (df_operator as int) == 0) by (nonlinear_arith)
                requires
                    df_operator == 0,
            {
            }
        }
        let df_part_operator: u32 = df_part * df_operator;
        let df_repeatability: u32 = (n_total - 1) - df_part - df_operator - df_part_operator;
        if df_repeatability == 0 {
            return Err(Error::DegenerateDesign);
        }
        proof {
            lemma_u32_prod_bound(n_part, n_operator);
            lemma_u32_prod_bound(n_part, n_trial);
            assert(n_part as int * n_trial as int >= 2) by (nonlinear_arith)
                requires
                    n_part >= 2,
                    n_trial >= 1,
            {
            }
            assert((n_part as int) * (n_operator as int) == n_part as int) by (nonlinear_arith)
                requires
                    n_operator == 1,
            {
            }
        }
        let big_total: u64 = (n_part as u64) * (n_operator as u64) * (n_trial as u64);
        proof {
            assert(big_total as int == s_n_part(s) * s_n_operator(s) * s_n_trial(s));
        }
        if big_total - 1 > u32::MAX as u64 {
            proof {
                assert(!df_total_fits(s));
            }
            return Err(Error::Overflow);
        }
        proof {
            assert(df_total_fits(s));
        }
        let df_total: u32 = (big_total - 1) as u32;
        let mean = match self.mean() {
            Some(x) => x,
            None => {
                proof {
                    assert(chk_rep_stage(s) is None);
                    assert(chk_f_stage(s) is None);
                    assert(!calc_fits(s));
                }
                return Err(Error::Overflow);
            },
        };
        proof {
            assert(chk_mean(s) == Some(mean@));
        }
        let sst = match self.ss_total(&mean) {
            Some(x) => x,
            None => {
                proof {
                    assert(chk_sst_stage(s) is None);
                    assert(chk_rep_stage(s) is None);
                    assert(chk_f_stage(s) is None);
                    assert(!calc_fits(s));
                }
                return Err(Error::Overflow);
            },
        };
        proof {
            assert(chk_sst_stage(s) == Some(sst@));
        }
        let ssp = match self.ss_part(&mean) {
            Some(x) => x,
            None => {
                proof {
                    assert(chk_ssp_stage(s) is None);
                    assert(chk_rep_stage(s) is None);
                    assert(chk_f_stage(s) is None);
                    assert(!calc_fits(s));
                }
                return Err(Error::Overflow);
            },
        };
        proof {
            assert(chk_ssp_stage(s) == Some(ssp@));
        }
        let sso = match self.ss_operator(&mean) {
            Some(x) => x,
            None => {
                proof {
                    assert(chk_sso_stage(s) is None);
                    assert(chk_rep_stage(s) is None);
                    assert(chk_f_stage(s) is None);
                    assert(!calc_fits(s));
                }
                return Err(Error::Overflow);
            },
        };
        proof {
            assert(chk_sso_stage(s) == Some(sso@));
        }
        let r1 = match sst.sub(&ssp) {
            Some(x) => x,
            None => {
                proof {
                    assert(chk_rep_stage(s) is None);
                    assert(chk_f_stage(s) is None);
                    assert(!calc_fits(s));
                }
                return Err(Error::Overflow);
            },
        };
        let ss_rep = match r1.sub(&sso) {
            Some(x) => x,
            None => {
                proof {
                    assert(c_sub2(chk_sst_stage(s), chk_ssp_stage(s)) == Some(r1@));
                    assert(chk_rep_stage(s) is None);
                    assert(chk_f_stage(s) is None);
                    assert(!calc_fits(s));
                }
                return Err(Error::Overflow);
            },
        };
        proof {
            assert(c_sub2(chk_sst_stage(s), chk_ssp_stage(s)) == Some(r1@));
            assert(chk_rep_stage(s) == Some(ss_rep@));
        }
        let ghost em = s_mean(s);
        let ghost sst_e = s_ss_total(s, em);
        let ghost ssp_e = s_ss_part(s, em);
        let ghost sso_e = s_ss_operator(s, em);
        let ghost rep_e = s_ss_repeatability(s);
        proof {
            lemma_val_sum_wf(s, s.len() as int);
            lemma_div_wf(val_sum_to(s, s.len() as int), s_int(s.len() as int));
            lemma_dev_sq_sum_wf(s, mean@, s.len() as int);
            lemma_dev_sq_sum_wf(s, em, s.len() as int);
            lemma_dev_sq_sum_congr(s, mean@, em, s.len() as int);
            lemma_eqv_trans(sst@, s_ss_total(s, mean@), sst_e);
            lemma_dedup_parts_present(s);
            lemma_dedup_ops_present(s);
            lemma_part_dev_sum_wf(s, dedup(parts_of(s)), mean@, s_n_part(s));
            lemma_part_dev_sum_wf(s, dedup(parts_of(s)), em, s_n_part(s));
            lemma_part_dev_sum_congr(s, dedup(parts_of(s)), mean@, em, s_n_part(s));
            lemma_eqv_refl(s_int(s_n_operator(s) * s_n_trial(s)));
            lemma_mul_congr(
                s_int(s_n_operator(s) * s_n_trial(s)),
                part_dev_sum_to(s, dedup(parts_of(s)), mean@, s_n_part(s)),
                s_int(s_n_operator(s) * s_n_trial(s)),
                part_dev_sum_to(s, dedup(parts_of(s)), em, s_n_part(s)),
            );
            lemma_add_wf(
                s_int(s_n_operator(s) * s_n_trial(s)),
                part_dev_sum_to(s, dedup(parts_of(s)), mean@, s_n_part(s)),
            );
            lemma_add_wf(
                s_int(s_n_operator(s) * s_n_trial(s)),
                part_dev_sum_to(s, dedup(parts_of(s)), em, s_n_part(s)),
            );
            lemma_eqv_trans(ssp@, s_ss_part(s, mean@), ssp_e);
            lemma_op_dev_sum_wf(s, dedup(operators_of(s)), mean@, s_n_operator(s));
            lemma_op_dev_sum_wf(s, dedup(operators_of(s)), em, s_n_operator(s));
            lemma_op_dev_sum_congr(s, dedup(operators_of(s)), mean@, em, s_n_operator(s));
            lemma_eqv_refl(s_int(s_n_part(s) * s_n_trial(s)));
            lemma_mul_congr(
                s_int(s_n_part(s) * s_n_trial(s)),
                op_dev_sum_to(s, dedup(operators_of(s)), mean@, s_n_operator(s)),
                s_int(s_n_part(s) * s_n_trial(s)),
                op_dev_sum_to(s, dedup(operators_of(s)), em, s_n_operator(s)),
            );
            lemma_add_wf(
                s_int(s_n_part(s) * s_n_trial(s)),
                op_dev_sum_to(s, dedup(operators_of(s)), mean@, s_n_operator(s)),
            );
            lemma_add_wf(
                s_int(s_n_part(s) * s_n_trial(s)),
                op_dev_sum_to(s, dedup(operators_of(s)), em, s_n_operator(s)),
            );
            lemma_eqv_trans(sso@, s_ss_operator(s, mean@), sso_e);
            lemma_sub_congr(sst@, ssp@, sst_e, ssp_e);
            lemma_add_wf(sst@, ssp@);
            lemma_add_wf(sst_e, ssp_e);
            lemma_eqv_trans(r1@, s_sub(sst@, ssp@), s_sub(sst_e, ssp_e));
            lemma_sub_congr(r1@, sso@, s_sub(sst_e, ssp_e), sso_e);
            lemma_add_wf(r1@, sso@);
            lemma_add_wf(s_sub(sst_e, ssp_e), sso_e);
            lemma_eqv_trans(ss_rep@, s_sub(r1@, sso@), rep_e);
            lemma_eqv_sign(ss_rep@, rep_e);
        }
        if ss_rep.is_zero() {
            proof {
                lemma_zero_eqv(rep_e);
            }
            return Err(Error::DegenerateDesign);
        }
        proof {
            lemma_zero_eqv(rep_e);
        }
        let ss_po = match Self::ss_part_operator(&sst, &ssp, &sso, &ss_rep) {
            Some(x) => x,
            None => {
                proof {
                    assert(chk_po_stage(s) is None);
                    assert(!calc_fits(s));
                }
                return Err(Error::Overflow);
            },
        };
        proof {
            assert(chk_po_stage(s) == Some(ss_po@));
        }
        proof {
            lemma_add_congr(ssp@, sso@, ssp_e, sso_e);
            lemma_add_wf(ssp@, sso@);
            lemma_add_wf(ssp_e, sso_e);
            lemma_add_congr(s_add(ssp@, sso@), ss_rep@, s_add(ssp_e, sso_e), rep_e);
            lemma_add_wf(s_add(ssp@, sso@), ss_rep@);
            lemma_add_wf(s_add(ssp_e, sso_e), rep_e);
            lemma_sub_congr(
                sst@,
                s_add(s_add(ssp@, sso@), ss_rep@),
                sst_e,
                s_add(s_add(ssp_e, sso_e), rep_e),
            );
            lemma_add_wf(sst@, s_add(s_add(ssp@, sso@), ss_rep@));
            lemma_add_wf(sst_e, s_add(s_add(ssp_e, sso_e), rep_e));
            lemma_eqv_trans(
                ss_po@,
                s_sub(sst@, s_add(s_add(ssp@, sso@), ss_rep@)),
                s_ss_part_operator(s),
            );
        }
        let dfp_rat = Rat::from_int(df_part as i64);
        let ms_part = match ssp.div(&dfp_rat) {
            Some(x) => x,
            None => {
                proof {
                    assert(chk_ms_part_stage(s) is None);
                    assert(chk_f_stage(s) is None);
                    assert(!calc_fits(s));
                }
                return Err(Error::Overflow);
            },
        };
        proof {
            assert(chk_ms_part_stage(s) == Some(ms_part@));
        }
        let dfr_rat = Rat::from_int(df_repeatability as i64);
        let ms_rep = match ss_rep.div(&dfr_rat) {
            Some(x) => x,
            None => {
                proof {
                    assert(chk_ms_rep_stage(s) is None);
                    assert(chk_f_stage(s) is None);
                    assert(!calc_fits(s));
                }
                return Err(Error::Overflow);
            },
        };
        proof {
            assert(chk_ms_rep_stage(s) == Some(ms_rep@));
        }
        let ghost msp_e = s_ms_part(s);
        let ghost msr_e = s_ms_repeatability(s);
        proof {
            lemma_div_congr(ssp@, dfp_rat@, ssp_e, s_int(s_n_part(s) - 1));
            lemma_div_wf(ssp@, dfp_rat@);
            lemma_div_wf(ssp_e, s_int(s_n_part(s) - 1));
            lemma_eqv_trans(ms_part@, s_div(ssp@, dfp_rat@), msp_e);
            lemma_div_congr(ss_rep@, dfr_rat@, rep_e, s_int(s.len() - s_n_part(s)));
            lemma_div_wf(ss_rep@, dfr_rat@);
            lemma_div_wf(rep_e, s_int(s.len() - s_n_part(s)));
            lemma_eqv_trans(ms_rep@, s_div(ss_rep@, dfr_rat@), msr_e);
            // a quotient by a positive integer keeps the numerator, so the
            // repeatability mean square is nonzero like its sum of squares
            lemma_div_by_pos_int_numerator(ss_rep@, df_repeatability as int);
            lemma_eqv_sign(ms_rep@, s_div(ss_rep@, dfr_rat@));
            lemma_div_by_pos_int_numerator(rep_e, s.len() - s_n_part(s));
            assert(msr_e.n != 0);
        }
        let f_part = match ms_part.div(&ms_rep) {
            Some(x) => x,
            None => {
                proof {
                    assert(chk_f_stage(s) is None);
                    assert(!calc_fits(s));
                }
                return Err(Error::Overflow);
            },
        };
        proof {
            assert(chk_f_stage(s) == Some(f_part@));
        }
        proof {
            lemma_div_congr(ms_part@, ms_rep@, msp_e, msr_e);
            lemma_div_wf(ms_part@, ms_rep@);
            lemma_div_wf(msp_e, msr_e);
            lemma_eqv_trans(f_part@, s_div(ms_part@, ms_rep@), s_f_part(s));
            lemma_u32_prod_bound(n_operator, n_trial);
        }
        proof {
            assert((n_operator as int) * (n_trial as int) == n_trial as int) by (nonlinear_arith)
                requires
                    n_operator == 1,
            {
            }
        }
        let vden_u: u64 = (n_operator as u64) * (n_trial as u64);
        let vden = Rat::from_int(vden_u as i64);
        let vdiff = match ms_part.sub(&ms_rep) {
            Some(x) => x,
            None => {
                proof {
                    assert(chk_varcomp_stage(s) is None);
                    assert(chk_vtotal_stage(s) is None);
                    assert(!calc_fits(s));
                }
                return Err(Error::Overflow);
            },
        };
        let varcomp_part = match vdiff.div(&vden) {
            Some(x) => x,
            None => {
                proof {
                    assert(c_sub2(chk_ms_part_stage(s), chk_ms_rep_stage(s)) == Some(vdiff@));
                    assert(chk_varcomp_stage(s) is None);
                    assert(chk_vtotal_stage(s) is None);
                    assert(!calc_fits(s));
                }
                return Err(Error::Overflow);
            },
        };
        proof {
            assert(c_sub2(chk_ms_part_stage(s), chk_ms_rep_stage(s)) == Some(vdiff@));
            assert(chk_varcomp_stage(s) == Some(varcomp_part@));
        }
        proof {
            lemma_sub_congr(ms_part@, ms_rep@, msp_e, msr_e);
            lemma_add_wf(ms_part@, ms_rep@);
            lemma_add_wf(msp_e, msr_e);
            lemma_eqv_trans(vdiff@, s_sub(ms_part@, ms_rep@), s_sub(msp_e, msr_e));
            lemma_div_congr(
                vdiff@,
                vden@,
                s_sub(msp_e, msr_e),
                s_int(s_n_operator(s) * s_n_trial(s)),
            );
            lemma_div_wf(vdiff@, vden@);
            lemma_div_wf(s_sub(msp_e, msr_e), s_int(s_n_operator(s) * s_n_trial(s)));
            lemma_eqv_trans(varcomp_part@, s_div(vdiff@, vden@), s_varcomp_part(s));
        }
        let varcomp_total_gagerr = ms_rep;
        let varcomp_total = match varcomp_total_gagerr.add(&varcomp_part) {
            Some(x) => x,
            None => {
                proof {
                    assert(chk_vtotal_stage(s) is None);
                    assert(!calc_fits(s));
                }
                return Err(Error::Overflow);
            },
        };
        proof {
            assert(chk_vtotal_stage(s) == Some(varcomp_total@));
        }
        proof {
            lemma_add_congr(ms_rep@, varcomp_part@, msr_e, s_varcomp_part(s));
            lemma_add_wf(ms_rep@, varcomp_part@);
            lemma_add_wf(msr_e, s_varcomp_part(s));
            lemma_eqv_trans(varcomp_total@, s_add(ms_rep@, varcomp_part@), s_varcomp_total(s));
            // additive decomposition of the computed sums of squares
            let x1 = s_add(ssp@, sso@);
            let u = s_add(x1, ss_rep@);
            lemma_add_wf(ssp@, sso@);
            lemma_add_wf(x1, ss_rep@);
            lemma_add_wf(sst@, u);
            lemma_eqv_refl(x1);
            lemma_add_congr(x1, ss_po@, x1, s_sub(sst@, u));
            lemma_add_comm(x1, s_sub(sst@, u));
            lemma_add_wf(x1, ss_po@);
            lemma_add_wf(x1, s_sub(sst@, u));
            lemma_add_wf(s_sub(sst@, u), x1);
            lemma_eqv_trans(
                s_add(x1, ss_po@),
                s_add(x1, s_sub(sst@, u)),
                s_add(s_sub(sst@, u), x1),
            );
            lemma_eqv_refl(ss_rep@);
            lemma_add_congr(s_add(x1, ss_po@), ss_rep@, s_add(s_sub(sst@, u), x1), ss_rep@);
            lemma_add_assoc(s_sub(sst@, u), x1, ss_rep@);
            lemma_sub_add_cancel(sst@, u);
            lemma_add_wf(s_add(x1, ss_po@), ss_rep@);
            lemma_add_wf(s_add(s_sub(sst@, u), x1), ss_rep@);
            lemma_add_wf(s_sub(sst@, u), u);
            lemma_eqv_trans(
                s_add(s_add(x1, ss_po@), ss_rep@),
                s_add(s_add(s_sub(sst@, u), x1), ss_rep@),
                s_add(s_sub(sst@, u), u),
            );
            lemma_eqv_trans(s_add(s_add(x1, ss_po@), ss_rep@), s_add(s_sub(sst@, u), u), sst@);
            // with one operator, the operator and interaction sums of
            // squares are exactly zero
            lemma_single_operator_ss_zero(s, mean@);
            lemma_eqv_trans(sso@, s_ss_operator(s, mean@), s_zero());
            let tt = sst@;
            let pp = ssp@;
            let oo = sso@;
            let rr = ss_rep@;
            let aa = s_add(pp, oo);
            lemma_sub_congr(r1@, oo, s_sub(tt, pp), oo);
            lemma_eqv_refl(oo);
            lemma_add_wf(tt, pp);
            lemma_add_wf(s_sub(tt, pp), oo);
            lemma_add_wf(r1@, oo);
            lemma_eqv_trans(rr, s_sub(r1@, oo), s_sub(s_sub(tt, pp), oo));
            lemma_sub_sub(tt, pp, oo);
            lemma_add_wf(tt, aa);
            lemma_eqv_trans(rr, s_sub(s_sub(tt, pp), oo), s_sub(tt, aa));
            lemma_add_congr(aa, rr, aa, s_sub(tt, aa));
            lemma_eqv_refl(aa);
            lemma_add_comm(aa, s_sub(tt, aa));
            lemma_add_wf(aa, rr);
            lemma_add_wf(aa, s_sub(tt, aa));
            lemma_add_wf(s_sub(tt, aa), aa);
            lemma_eqv_trans(s_add(aa, rr), s_add(aa, s_sub(tt, aa)), s_add(s_sub(tt, aa), aa));
            lemma_sub_add_cancel(tt, aa);
            lemma_eqv_trans(s_add(aa, rr), s_add(s_sub(tt, aa), aa), tt);
            lemma_eqv_refl(tt);
            lemma_sub_congr(tt, s_add(aa, rr), tt, tt);
            lemma_add_wf(tt, s_add(aa, rr));
            lemma_add_wf(tt, tt);
            assert(s_sub(tt, tt).n == 0);
            lemma_zero_eqv(s_sub(tt, tt));
            lemma_eqv_trans(s_sub(tt, s_add(aa, rr)), s_sub(tt, tt), s_zero());
            lemma_eqv_trans(ss_po@, s_sub(tt, s_add(aa, rr)), s_zero());
        }
        Ok(
            AnovaResult {
                study_variation: Rat::new(103, 20),
                tolerance: Rat::zero(),
                mean,
                n_part,
                n_operator,
                n_trial,
                n_total,
                df_part,
                df_operator,
                df_part_operator,
                df_repeatability,
                df_total,
                ss_part: ssp,
                ss_operator: sso,
                ss_part_operator: ss_po,
                ss_repeatability: ss_rep,
                ss_total: sst,
                ms_part,
                ms_operator: None,
                ms_part_operator: None,
                ms_repeatability: ms_rep,
                f_part,
                f_operator: None,
                f_part_operator: None,
                varcomp_part,
                varcomp_operator: None,
                varcomp_total_gagerr,
                varcomp_total,
                p: Rat::zero(),
            },
        )
    }
}

} // verus!
