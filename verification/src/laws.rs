//! The library's order-independence and accounting laws.

use crate::anova::{
    c_degenerate_counts, c_empty, c_multi_operator, c_zero_repeatability, dev_sq_sum_to, obs_wf,
    op_count_to, op_dev_sum_to, op_sum_to, part_count_to, part_dev_sum_to, part_sum_to, s_f_part,
    s_mean, s_ms_part, s_ms_repeatability, s_n_operator, s_n_part, s_n_trial, s_op_mean,
    s_part_mean, s_ss_operator, s_ss_part, s_ss_part_operator, s_ss_repeatability, s_ss_total,
    s_varcomp_part, s_varcomp_total, val_sum_to,
};
use crate::data::{dedup, lemma_dedup_props, operators_of, parts_of, trials_of, SObs};
use crate::rat::{
    eqv, lemma_add_congr, lemma_add_right_swap, lemma_add_wf, lemma_add_zero, lemma_eqv_refl,
    lemma_eqv_sym, lemma_eqv_trans, lemma_int_add, lemma_int_eqv, lemma_mul_congr,
    lemma_sub_congr, s_add, s_int, s_sq, s_sub, s_wf, s_zero, SRat,
};
use vstd::prelude::*;
use vstd::seq_lib::group_to_multiset_ensures;

verus! {

/// Sum of `g` over the first `i` elements of `s`.
pub open spec fn gen_sum_to<A>(s: Seq<A>, g: spec_fn(A) -> SRat, i: int) -> SRat
    decreases i,
{
    if i <= 0 {
        s_zero()
    } else {
        s_add(gen_sum_to(s, g, i - 1), g(s[i - 1]))
    }
}

/// Sum of `g` over all elements of `s`.
pub open spec fn gen_sum<A>(s: Seq<A>, g: spec_fn(A) -> SRat) -> SRat {
    gen_sum_to(s, g, s.len() as int)
}

/// `g` yields a well-formed fraction on every element of `s`.
pub open spec fn g_wf<A>(s: Seq<A>, g: spec_fn(A) -> SRat) -> bool {
    forall|k: int| 0 <= k < s.len() ==> s_wf(g(#[trigger] s[k]))
}

proof fn lemma_gen_sum_wf<A>(s: Seq<A>, g: spec_fn(A) -> SRat, i: int)
    requires
        g_wf(s, g),
        0 <= i <= s.len(),
    ensures
        s_wf(gen_sum_to(s, g, i)),
    decreases i,
{
    if i > 0 {
        lemma_gen_sum_wf(s, g, i - 1);
        lemma_add_wf(gen_sum_to(s, g, i - 1), g(s[i - 1]));
    }
}

/// The sum reads only the first `i` elements.
proof fn lemma_gen_sum_prefix<A>(s1: Seq<A>, s2: Seq<A>, g: spec_fn(A) -> SRat, i: int)
    requires
        0 <= i <= s1.len(),
        i <= s2.len(),
        forall|k: int| 0 <= k < i ==> s1[k] == s2[k],
    ensures
        gen_sum_to(s1, g, i) == gen_sum_to(s2, g, i),
    decreases i,
{
    if i > 0 {
        lemma_gen_sum_prefix(s1, s2, g, i - 1);
    }
}

/// Any one element can be pulled out of the sum.
proof fn lemma_gen_sum_remove<A>(s: Seq<A>, g: spec_fn(A) -> SRat, i: int)
    requires
        g_wf(s, g),
        0 <= i < s.len(),
    ensures
        eqv(gen_sum(s, g), s_add(gen_sum(s.remove(i), g), g(s[i]))),
    decreases s.len(),
{
    let n = s.len() as int;
    let r = s.remove(i);
    assert(forall|k: int| 0 <= k < i ==> r[k] == s[k]);
    assert(forall|k: int| i <= k < n - 1 ==> r[k] == s[k + 1]);
    if i == n - 1 {
        lemma_gen_sum_prefix(r, s, g, n - 1);
        lemma_eqv_refl(gen_sum(s, g));
    } else {
        let t = s.take(n - 1);
        assert(forall|k: int| 0 <= k < n - 1 ==> t[k] == s[k]);
        assert(g_wf(t, g));
        lemma_gen_sum_prefix(t, s, g, n - 1);
        lemma_gen_sum_remove(t, g, i);
        let tr = t.remove(i);
        assert(forall|k: int| 0 <= k < n - 2 ==> tr[k] == r[k]);
        lemma_gen_sum_prefix(tr, r, g, n - 2);
        assert(r[n - 2] == s[n - 1]);
        // sums named for the algebra below
        let base = gen_sum(tr, g);
        lemma_gen_sum_wf(tr, g, n - 2);
        assert(s_wf(g(s[i])));
        assert(s_wf(g(s[n - 1])));
        // gen_sum(t, g) is equivalent to base + g(s[i])
        // gen_sum(s, g) == gen_sum(t, g) + g(s[n-1])
        lemma_eqv_refl(g(s[n - 1]));
        lemma_add_wf(base, g(s[i]));
        lemma_gen_sum_wf(t, g, n - 1);
        lemma_add_congr(
            gen_sum(t, g),
            g(s[n - 1]),
            s_add(base, g(s[i])),
            g(s[n - 1]),
        );
        lemma_add_right_swap(base, g(s[i]), g(s[n - 1]));
        lemma_add_wf(gen_sum(t, g), g(s[n - 1]));
        lemma_add_wf(s_add(base, g(s[i])), g(s[n - 1]));
        lemma_add_wf(base, g(s[n - 1]));
        lemma_add_wf(s_add(base, g(s[n - 1])), g(s[i]));
        lemma_eqv_trans(
            s_add(gen_sum(t, g), g(s[n - 1])),
            s_add(s_add(base, g(s[i])), g(s[n - 1])),
            s_add(s_add(base, g(s[n - 1])), g(s[i])),
        );
        assert(gen_sum(r, g) == s_add(base, g(s[n - 1])));
        assert(gen_sum(s, g) == s_add(gen_sum(t, g), g(s[n - 1])));
    }
}

/// The sum does not depend on the order of the elements.
proof fn lemma_gen_sum_multiset<A>(s1: Seq<A>, s2: Seq<A>, g: spec_fn(A) -> SRat)
    requires
        g_wf(s1, g),
        g_wf(s2, g),
        s1.to_multiset() == s2.to_multiset(),
    ensures
        eqv(gen_sum(s1, g), gen_sum(s2, g)),
    decreases s1.len(),
{
    broadcast use group_to_multiset_ensures;

    if s1.len() == 0 {
        assert(s1.to_multiset().len() == s1.len());
        assert(s2.to_multiset().len() == s2.len());
        lemma_eqv_refl(s_zero());
    } else {
        let n = s1.len() as int;
        let x = s1[n - 1];
        assert(s1.contains(x));
        assert(s2.to_multiset().count(x) > 0);
        assert(s2.contains(x));
        let i = choose|i: int| 0 <= i < s2.len() && s2[i] == x;
        let t1 = s1.remove(n - 1);
        let t2 = s2.remove(i);
        assert(t1.to_multiset() == t2.to_multiset());
        assert(forall|k: int| 0 <= k < n - 1 ==> t1[k] == s1[k]);
        assert(g_wf(t1, g));
        assert(forall|k: int| 0 <= k < i ==> t2[k] == s2[k]);
        assert(forall|k: int| i <= k < t2.len() ==> t2[k] == s2[k + 1]);
        assert(g_wf(t2, g));
        lemma_gen_sum_multiset(t1, t2, g);
        lemma_gen_sum_remove(s2, g, i);
        lemma_gen_sum_prefix(t1, s1, g, n - 1);
        lemma_eqv_refl(g(x));
        lemma_gen_sum_wf(t1, g, n - 1);
        lemma_gen_sum_wf(t2, g, t2.len() as int);
        lemma_add_congr(gen_sum(t1, g), g(x), gen_sum(t2, g), g(x));
        lemma_add_wf(gen_sum(t1, g), g(x));
        lemma_add_wf(gen_sum(t2, g), g(x));
        lemma_gen_sum_wf(s2, g, s2.len() as int);
        lemma_eqv_sym(gen_sum(s2, g), s_add(gen_sum(t2, g), g(x)));
        lemma_eqv_trans(
            s_add(gen_sum(t1, g), g(x)),
            s_add(gen_sum(t2, g), g(x)),
            gen_sum(s2, g),
        );
        assert(gen_sum(s1, g) == s_add(gen_sum(t1, g), g(x)));
    }
}

/// The observation value itself.
pub open spec fn g_val() -> spec_fn(SObs) -> SRat {
    |o: SObs| o.value
}

/// The value where the observation belongs to part `p`, else zero.
pub open spec fn g_part_val(p: Seq<char>) -> spec_fn(SObs) -> SRat {
    |o: SObs|
        if o.part == p {
            o.value
        } else {
            s_zero()
        }
}

/// One where the observation belongs to part `p`, else zero.
pub open spec fn g_part_one(p: Seq<char>) -> spec_fn(SObs) -> SRat {
    |o: SObs|
        if o.part == p {
            s_int(1)
        } else {
            s_zero()
        }
}

/// The value where the observation belongs to operator `q`, else zero.
pub open spec fn g_op_val(q: int) -> spec_fn(SObs) -> SRat {
    |o: SObs|
        if o.operator == q {
            o.value
        } else {
            s_zero()
        }
}

/// One where the observation belongs to operator `q`, else zero.
pub open spec fn g_op_one(q: int) -> spec_fn(SObs) -> SRat {
    |o: SObs|
        if o.operator == q {
            s_int(1)
        } else {
            s_zero()
        }
}

/// The squared deviation of the value from `m`.
pub open spec fn g_dev(m: SRat) -> spec_fn(SObs) -> SRat {
    |o: SObs| s_sq(s_sub(o.value, m))
}

/// The squared deviation of the part mean from `m`.
pub open spec fn g_part_dev(s: Seq<SObs>, m: SRat) -> spec_fn(Seq<char>) -> SRat {
    |p: Seq<char>| s_sq(s_sub(s_part_mean(s, p), m))
}

/// The squared deviation of the operator mean from `m`.
pub open spec fn g_op_dev(s: Seq<SObs>, m: SRat) -> spec_fn(int) -> SRat {
    |q: int| s_sq(s_sub(s_op_mean(s, q), m))
}

proof fn lemma_bridge_val(s: Seq<SObs>, i: int)
    requires
        0 <= i <= s.len(),
    ensures
        val_sum_to(s, i) == gen_sum_to(s, g_val(), i),
    decreases i,
{
    if i > 0 {
        lemma_bridge_val(s, i - 1);
    }
}

proof fn lemma_bridge_dev(s: Seq<SObs>, m: SRat, i: int)
    requires
        0 <= i <= s.len(),
    ensures
        dev_sq_sum_to(s, m, i) == gen_sum_to(s, g_dev(m), i),
    decreases i,
{
    if i > 0 {
        lemma_bridge_dev(s, m, i - 1);
    }
}

proof fn lemma_bridge_part_dev(s: Seq<SObs>, groups: Seq<Seq<char>>, m: SRat, j: int)
    requires
        0 <= j <= groups.len(),
    ensures
        part_dev_sum_to(s, groups, m, j) == gen_sum_to(groups, g_part_dev(s, m), j),
    decreases j,
{
    if j > 0 {
        lemma_bridge_part_dev(s, groups, m, j - 1);
    }
}

proof fn lemma_bridge_op_dev(s: Seq<SObs>, groups: Seq<int>, m: SRat, j: int)
    requires
        0 <= j <= groups.len(),
    ensures
        op_dev_sum_to(s, groups, m, j) == gen_sum_to(groups, g_op_dev(s, m), j),
    decreases j,
{
    if j > 0 {
        lemma_bridge_op_dev(s, groups, m, j - 1);
    }
}

proof fn lemma_bridge_part_val(s: Seq<SObs>, p: Seq<char>, i: int)
    requires
        obs_wf(s),
        0 <= i <= s.len(),
    ensures
        eqv(part_sum_to(s, p, i), gen_sum_to(s, g_part_val(p), i)),
    decreases i,
{
    crate::anova::lemma_part_sum_wf(s, p, i);
    assert(g_wf(s, g_part_val(p)));
    lemma_gen_sum_wf(s, g_part_val(p), i);
    if i <= 0 {
        lemma_eqv_refl(s_zero());
    } else {
        lemma_bridge_part_val(s, p, i - 1);
        crate::anova::lemma_part_sum_wf(s, p, i - 1);
        lemma_gen_sum_wf(s, g_part_val(p), i - 1);
        let a1 = part_sum_to(s, p, i - 1);
        let a2 = gen_sum_to(s, g_part_val(p), i - 1);
        if s[i - 1].part == p {
            lemma_eqv_refl(s[i - 1].value);
            lemma_add_congr(a1, s[i - 1].value, a2, s[i - 1].value);
        } else {
            lemma_add_zero(a2);
            lemma_add_wf(a2, s_zero());
            lemma_eqv_sym(s_add(a2, s_zero()), a2);
            lemma_eqv_trans(a1, a2, s_add(a2, s_zero()));
        }
    }
}

proof fn lemma_bridge_part_one(s: Seq<SObs>, p: Seq<char>, i: int)
    requires
        0 <= i <= s.len(),
    ensures
        eqv(s_int(part_count_to(s, p, i)), gen_sum_to(s, g_part_one(p), i)),
    decreases i,
{
    assert(g_wf(s, g_part_one(p)));
    lemma_gen_sum_wf(s, g_part_one(p), i);
    if i <= 0 {
        lemma_eqv_refl(s_zero());
    } else {
        lemma_bridge_part_one(s, p, i - 1);
        lemma_gen_sum_wf(s, g_part_one(p), i - 1);
        let c = part_count_to(s, p, i - 1);
        let a2 = gen_sum_to(s, g_part_one(p), i - 1);
        if s[i - 1].part == p {
            lemma_int_add(c, 1);
            lemma_eqv_sym(s_add(s_int(c), s_int(1)), s_int(c + 1));
            lemma_eqv_refl(s_int(1));
            lemma_add_congr(s_int(c), s_int(1), a2, s_int(1));
            lemma_add_wf(s_int(c), s_int(1));
            lemma_add_wf(a2, s_int(1));
            lemma_eqv_trans(s_int(c + 1), s_add(s_int(c), s_int(1)), s_add(a2, s_int(1)));
        } else {
            lemma_add_zero(a2);
            lemma_add_wf(a2, s_zero());
            lemma_eqv_sym(s_add(a2, s_zero()), a2);
            lemma_eqv_trans(s_int(c), a2, s_add(a2, s_zero()));
        }
    }
}

proof fn lemma_bridge_op_val(s: Seq<SObs>, q: int, i: int)
    requires
        obs_wf(s),
        0 <= i <= s.len(),
    ensures
        eqv(op_sum_to(s, q, i), gen_sum_to(s, g_op_val(q), i)),
    decreases i,
{
    crate::anova::lemma_op_sum_wf(s, q, i);
    assert(g_wf(s, g_op_val(q)));
    lemma_gen_sum_wf(s, g_op_val(q), i);
    if i <= 0 {
        lemma_eqv_refl(s_zero());
    } else {
        lemma_bridge_op_val(s, q, i - 1);
        crate::anova::lemma_op_sum_wf(s, q, i - 1);
        lemma_gen_sum_wf(s, g_op_val(q), i - 1);
        let a1 = op_sum_to(s, q, i - 1);
        let a2 = gen_sum_to(s, g_op_val(q), i - 1);
        if s[i - 1].operator == q {
            lemma_eqv_refl(s[i - 1].value);
            lemma_add_congr(a1, s[i - 1].value, a2, s[i - 1].value);
        } else {
            lemma_add_zero(a2);
            lemma_add_wf(a2, s_zero());
            lemma_eqv_sym(s_add(a2, s_zero()), a2);
            lemma_eqv_trans(a1, a2, s_add(a2, s_zero()));
        }
    }
}

proof fn lemma_bridge_op_one(s: Seq<SObs>, q: int, i: int)
    requires
        0 <= i <= s.len(),
    ensures
        eqv(s_int(op_count_to(s, q, i)), gen_sum_to(s, g_op_one(q), i)),
    decreases i,
{
    assert(g_wf(s, g_op_one(q)));
    lemma_gen_sum_wf(s, g_op_one(q), i);
    if i <= 0 {
        lemma_eqv_refl(s_zero());
    } else {
        lemma_bridge_op_one(s, q, i - 1);
        lemma_gen_sum_wf(s, g_op_one(q), i - 1);
        let c = op_count_to(s, q, i - 1);
        let a2 = gen_sum_to(s, g_op_one(q), i - 1);
        if s[i - 1].operator == q {
            lemma_int_add(c, 1);
            lemma_eqv_sym(s_add(s_int(c), s_int(1)), s_int(c + 1));
            lemma_eqv_refl(s_int(1));
            lemma_add_congr(s_int(c), s_int(1), a2, s_int(1));
            lemma_add_wf(s_int(c), s_int(1));
            lemma_add_wf(a2, s_int(1));
            lemma_eqv_trans(s_int(c + 1), s_add(s_int(c), s_int(1)), s_add(a2, s_int(1)));
        } else {
            lemma_add_zero(a2);
            lemma_add_wf(a2, s_zero());
            lemma_eqv_sym(s_add(a2, s_zero()), a2);
            lemma_eqv_trans(s_int(c), a2, s_add(a2, s_zero()));
        }
    }
}

/// Two duplicate-free sequences with the same members hold the same
/// multiset.
proof fn lemma_nodup_same_contains_multiset<A>(d1: Seq<A>, d2: Seq<A>)
    requires
        d1.no_duplicates(),
        d2.no_duplicates(),
        forall|x: A| d1.contains(x) <==> d2.contains(x),
    ensures
        d1.to_multiset() == d2.to_multiset(),
{
    broadcast use group_to_multiset_ensures;

    d1.lemma_multiset_has_no_duplicates();
    d2.lemma_multiset_has_no_duplicates();
    assert forall|x: A| d1.to_multiset().count(x) == d2.to_multiset().count(x) by {
        if d1.contains(x) {
            assert(d1.to_multiset().contains(x));
            assert(d2.to_multiset().contains(x));
        } else {
            assert(d1.to_multiset().count(x) == 0);
            assert(d2.to_multiset().count(x) == 0);
        }
    }
    assert(d1.to_multiset() =~= d2.to_multiset());
}

/// Sequences with the same members have the same distinct values, as a
/// multiset; in particular as many of them.
proof fn lemma_dedup_same_contains<A>(u1: Seq<A>, u2: Seq<A>)
    requires
        forall|x: A| u1.contains(x) <==> u2.contains(x),
    ensures
        dedup(u1).to_multiset() == dedup(u2).to_multiset(),
        dedup(u1).len() == dedup(u2).len(),
        forall|x: A| dedup(u1).contains(x) <==> dedup(u2).contains(x),
{
    broadcast use group_to_multiset_ensures;

    lemma_dedup_props(u1);
    lemma_dedup_props(u2);
    assert forall|x: A| dedup(u1).contains(x) <==> dedup(u2).contains(x) by {
        assert(dedup(u1).contains(x) <==> u1.contains(x));
        assert(dedup(u2).contains(x) <==> u2.contains(x));
        assert(u1.contains(x) <==> u2.contains(x));
    }
    lemma_nodup_same_contains_multiset(dedup(u1), dedup(u2));
    assert(dedup(u1).to_multiset().len() == dedup(u1).len());
    assert(dedup(u2).to_multiset().len() == dedup(u2).len());
}

/// A part id occurs in the projection exactly when its count is positive.
proof fn lemma_part_contains_count(s: Seq<SObs>, p: Seq<char>)
    ensures
        parts_of(s).contains(p) <==> part_count_to(s, p, s.len() as int) > 0,
{
    crate::anova::lemma_part_count_bounds(s, p, s.len() as int);
    if parts_of(s).contains(p) {
        let i = choose|i: int| 0 <= i < parts_of(s).len() && #[trigger] parts_of(s)[i] == p;
        assert(s[i].part == p);
    }
    if part_count_to(s, p, s.len() as int) > 0 {
        let j = choose|j: int| 0 <= j < s.len() && #[trigger] s[j].part == p;
        assert(parts_of(s)[j] == p);
    }
}

/// An operator id occurs in the projection exactly when its count is
/// positive.
proof fn lemma_op_contains_count(s: Seq<SObs>, q: int)
    ensures
        operators_of(s).contains(q) <==> op_count_to(s, q, s.len() as int) > 0,
{
    crate::anova::lemma_op_count_bounds(s, q, s.len() as int);
    if operators_of(s).contains(q) {
        let i = choose|i: int| 0 <= i < operators_of(s).len() && #[trigger] operators_of(s)[i] == q;
        assert(s[i].operator == q);
    }
    if op_count_to(s, q, s.len() as int) > 0 {
        let j = choose|j: int| 0 <= j < s.len() && #[trigger] s[j].operator == q;
        assert(operators_of(s)[j] == q);
    }
}

/// Reordering the observations changes neither the ids seen in them.
proof fn lemma_proj_contains(s1: Seq<SObs>, s2: Seq<SObs>)
    requires
        s1.to_multiset() == s2.to_multiset(),
    ensures
        forall|p: Seq<char>| parts_of(s1).contains(p) <==> parts_of(s2).contains(p),
        forall|q: int| operators_of(s1).contains(q) <==> operators_of(s2).contains(q),
        forall|q: int| trials_of(s1).contains(q) <==> trials_of(s2).contains(q),
{
    broadcast use group_to_multiset_ensures;

    assert forall|p: Seq<char>| parts_of(s1).contains(p) implies parts_of(s2).contains(p) by {
        let i = choose|i: int| 0 <= i < parts_of(s1).len() && #[trigger] parts_of(s1)[i] == p;
        assert(s1.contains(s1[i]));
        assert(s1.to_multiset().count(s1[i]) > 0);
        assert(s2.to_multiset().count(s1[i]) > 0);
        assert(s2.contains(s1[i]));
        let j = choose|j: int| 0 <= j < s2.len() && #[trigger] s2[j] == s1[i];
        assert(parts_of(s2)[j] == p);
    }
    assert forall|p: Seq<char>| parts_of(s2).contains(p) implies parts_of(s1).contains(p) by {
        let i = choose|i: int| 0 <= i < parts_of(s2).len() && #[trigger] parts_of(s2)[i] == p;
        assert(s2.contains(s2[i]));
        assert(s2.to_multiset().count(s2[i]) > 0);
        assert(s1.to_multiset().count(s2[i]) > 0);
        assert(s1.contains(s2[i]));
        let j = choose|j: int| 0 <= j < s1.len() && #[trigger] s1[j] == s2[i];
        assert(parts_of(s1)[j] == p);
    }
    assert forall|q: int| operators_of(s1).contains(q) implies operators_of(s2).contains(q) by {
        let i = choose|i: int|
            0 <= i < operators_of(s1).len() && #[trigger] operators_of(s1)[i] == q;
        assert(s1.contains(s1[i]));
        assert(s1.to_multiset().count(s1[i]) > 0);
        assert(s2.to_multiset().count(s1[i]) > 0);
        assert(s2.contains(s1[i]));
        let j = choose|j: int| 0 <= j < s2.len() && #[trigger] s2[j] == s1[i];
        assert(operators_of(s2)[j] == q);
    }
    assert forall|q: int| operators_of(s2).contains(q) implies operators_of(s1).contains(q) by {
        let i = choose|i: int|
            0 <= i < operators_of(s2).len() && #[trigger] operators_of(s2)[i] == q;
        assert(s2.contains(s2[i]));
        assert(s2.to_multiset().count(s2[i]) > 0);
        assert(s1.to_multiset().count(s2[i]) > 0);
        assert(s1.contains(s2[i]));
        let j = choose|j: int| 0 <= j < s1.len() && #[trigger] s1[j] == s2[i];
        assert(operators_of(s1)[j] == q);
    }
    assert forall|q: int| trials_of(s1).contains(q) implies trials_of(s2).contains(q) by {
        let i = choose|i: int| 0 <= i < trials_of(s1).len() && #[trigger] trials_of(s1)[i] == q;
        assert(s1.contains(s1[i]));
        assert(s1.to_multiset().count(s1[i]) > 0);
        assert(s2.to_multiset().count(s1[i]) > 0);
        assert(s2.contains(s1[i]));
        let j = choose|j: int| 0 <= j < s2.len() && #[trigger] s2[j] == s1[i];
        assert(trials_of(s2)[j] == q);
    }
    assert forall|q: int| trials_of(s2).contains(q) implies trials_of(s1).contains(q) by {
        let i = choose|i: int| 0 <= i < trials_of(s2).len() && #[trigger] trials_of(s2)[i] == q;
        assert(s2.contains(s2[i]));
        assert(s2.to_multiset().count(s2[i]) > 0);
        assert(s1.to_multiset().count(s2[i]) > 0);
        assert(s1.contains(s2[i]));
        let j = choose|j: int| 0 <= j < s1.len() && #[trigger] s1[j] == s2[i];
        assert(trials_of(s1)[j] == q);
    }
}

/// Reordering the observations does not change a part's count or mean.
proof fn lemma_part_mean_multiset(s1: Seq<SObs>, s2: Seq<SObs>, p: Seq<char>)
    requires
        obs_wf(s1),
        obs_wf(s2),
        s1.to_multiset() == s2.to_multiset(),
        part_count_to(s1, p, s1.len() as int) > 0,
    ensures
        part_count_to(s2, p, s2.len() as int) == part_count_to(s1, p, s1.len() as int),
        eqv(s_part_mean(s1, p), s_part_mean(s2, p)),
        s_wf(s_part_mean(s1, p)),
        s_wf(s_part_mean(s2, p)),
{
    let n1 = s1.len() as int;
    let n2 = s2.len() as int;
    let c1 = part_count_to(s1, p, n1);
    let c2 = part_count_to(s2, p, n2);
    assert(g_wf(s1, g_part_one(p)));
    assert(g_wf(s2, g_part_one(p)));
    lemma_bridge_part_one(s1, p, n1);
    lemma_bridge_part_one(s2, p, n2);
    lemma_gen_sum_multiset(s1, s2, g_part_one(p));
    lemma_gen_sum_wf(s1, g_part_one(p), n1);
    lemma_gen_sum_wf(s2, g_part_one(p), n2);
    lemma_eqv_trans(s_int(c1), gen_sum(s1, g_part_one(p)), gen_sum(s2, g_part_one(p)));
    lemma_eqv_sym(s_int(c2), gen_sum(s2, g_part_one(p)));
    lemma_eqv_trans(s_int(c1), gen_sum(s2, g_part_one(p)), s_int(c2));
    lemma_int_eqv(c1, c2);
    assert(g_wf(s1, g_part_val(p)));
    assert(g_wf(s2, g_part_val(p)));
    lemma_bridge_part_val(s1, p, n1);
    lemma_bridge_part_val(s2, p, n2);
    lemma_gen_sum_multiset(s1, s2, g_part_val(p));
    lemma_gen_sum_wf(s1, g_part_val(p), n1);
    lemma_gen_sum_wf(s2, g_part_val(p), n2);
    crate::anova::lemma_part_sum_wf(s1, p, n1);
    crate::anova::lemma_part_sum_wf(s2, p, n2);
    lemma_eqv_trans(
        part_sum_to(s1, p, n1),
        gen_sum(s1, g_part_val(p)),
        gen_sum(s2, g_part_val(p)),
    );
    lemma_eqv_sym(part_sum_to(s2, p, n2), gen_sum(s2, g_part_val(p)));
    lemma_eqv_trans(
        part_sum_to(s1, p, n1),
        gen_sum(s2, g_part_val(p)),
        part_sum_to(s2, p, n2),
    );
    crate::rat::lemma_div_congr(
        part_sum_to(s1, p, n1),
        s_int(c1),
        part_sum_to(s2, p, n2),
        s_int(c2),
    );
    crate::rat::lemma_div_wf(part_sum_to(s1, p, n1), s_int(c1));
    crate::rat::lemma_div_wf(part_sum_to(s2, p, n2), s_int(c2));
}

/// Reordering the observations does not change an operator's count or
/// mean.
proof fn lemma_op_mean_multiset(s1: Seq<SObs>, s2: Seq<SObs>, q: int)
    requires
        obs_wf(s1),
        obs_wf(s2),
        s1.to_multiset() == s2.to_multiset(),
        op_count_to(s1, q, s1.len() as int) > 0,
    ensures
        op_count_to(s2, q, s2.len() as int) == op_count_to(s1, q, s1.len() as int),
        eqv(s_op_mean(s1, q), s_op_mean(s2, q)),
        s_wf(s_op_mean(s1, q)),
        s_wf(s_op_mean(s2, q)),
{
    let n1 = s1.len() as int;
    let n2 = s2.len() as int;
    let c1 = op_count_to(s1, q, n1);
    let c2 = op_count_to(s2, q, n2);
    assert(g_wf(s1, g_op_one(q)));
    assert(g_wf(s2, g_op_one(q)));
    lemma_bridge_op_one(s1, q, n1);
    lemma_bridge_op_one(s2, q, n2);
    lemma_gen_sum_multiset(s1, s2, g_op_one(q));
    lemma_gen_sum_wf(s1, g_op_one(q), n1);
    lemma_gen_sum_wf(s2, g_op_one(q), n2);
    lemma_eqv_trans(s_int(c1), gen_sum(s1, g_op_one(q)), gen_sum(s2, g_op_one(q)));
    lemma_eqv_sym(s_int(c2), gen_sum(s2, g_op_one(q)));
    lemma_eqv_trans(s_int(c1), gen_sum(s2, g_op_one(q)), s_int(c2));
    lemma_int_eqv(c1, c2);
    assert(g_wf(s1, g_op_val(q)));
    assert(g_wf(s2, g_op_val(q)));
    lemma_bridge_op_val(s1, q, n1);
    lemma_bridge_op_val(s2, q, n2);
    lemma_gen_sum_multiset(s1, s2, g_op_val(q));
    lemma_gen_sum_wf(s1, g_op_val(q), n1);
    lemma_gen_sum_wf(s2, g_op_val(q), n2);
    crate::anova::lemma_op_sum_wf(s1, q, n1);
    crate::anova::lemma_op_sum_wf(s2, q, n2);
    lemma_eqv_trans(op_sum_to(s1, q, n1), gen_sum(s1, g_op_val(q)), gen_sum(s2, g_op_val(q)));
    lemma_eqv_sym(op_sum_to(s2, q, n2), gen_sum(s2, g_op_val(q)));
    lemma_eqv_trans(op_sum_to(s1, q, n1), gen_sum(s2, g_op_val(q)), op_sum_to(s2, q, n2));
    crate::rat::lemma_div_congr(op_sum_to(s1, q, n1), s_int(c1), op_sum_to(s2, q, n2), s_int(c2));
    crate::rat::lemma_div_wf(op_sum_to(s1, q, n1), s_int(c1));
    crate::rat::lemma_div_wf(op_sum_to(s2, q, n2), s_int(c2));
}

/// Two pointwise-equivalent summands give equivalent sums.
proof fn lemma_gen_sum_pointwise<A>(s: Seq<A>, g1: spec_fn(A) -> SRat, g2: spec_fn(A) -> SRat, i: int)
    requires
        g_wf(s, g1),
        g_wf(s, g2),
        forall|k: int| 0 <= k < s.len() ==> eqv(g1(#[trigger] s[k]), g2(s[k])),
        0 <= i <= s.len(),
    ensures
        eqv(gen_sum_to(s, g1, i), gen_sum_to(s, g2, i)),
    decreases i,
{
    if i <= 0 {
        lemma_eqv_refl(s_zero());
    } else {
        lemma_gen_sum_pointwise(s, g1, g2, i - 1);
        lemma_gen_sum_wf(s, g1, i - 1);
        lemma_gen_sum_wf(s, g2, i - 1);
        lemma_add_congr(gen_sum_to(s, g1, i - 1), g1(s[i - 1]), gen_sum_to(s, g2, i - 1), g2(s[i - 1]));
    }
}

/// Degrees-of-freedom accounting: with the counts of a balanced
/// single-operator study, the part, operator, interaction and
/// repeatability degrees of freedom sum to the total degrees of freedom.
pub proof fn lemma_df_accounting(a: crate::anova::AnovaResult, s: Seq<SObs>)
    requires
        a.df_part as int == s_n_part(s) - 1,
        a.df_operator == 0,
        a.df_part_operator == 0,
        a.df_repeatability as int == s.len() - s_n_part(s),
        a.df_total as int == s_n_part(s) * s_n_operator(s) * s_n_trial(s) - 1,
        s.len() == s_n_part(s) * s_n_operator(s) * s_n_trial(s),
    ensures
        a.df_part as int + a.df_operator as int + a.df_part_operator as int
            + a.df_repeatability as int == a.df_total as int,
{
}

/// Determinism and order-independence: two observation sequences that hold
/// the same observations, in any order, agree on every cardinality, fail
/// on exactly the same conditions, and yield equivalent values for every
/// quantity of the decomposition.
pub proof fn lemma_order_independence(s1: Seq<SObs>, s2: Seq<SObs>)
    requires
        obs_wf(s1),
        obs_wf(s2),
        s1.to_multiset() == s2.to_multiset(),
    ensures
        s1.len() == s2.len(),
        s_n_part(s1) == s_n_part(s2),
        s_n_operator(s1) == s_n_operator(s2),
        s_n_trial(s1) == s_n_trial(s2),
        c_empty(s1) == c_empty(s2),
        c_multi_operator(s1) == c_multi_operator(s2),
        c_degenerate_counts(s1) == c_degenerate_counts(s2),
        s1.len() > 0 ==> eqv(s_mean(s1), s_mean(s2)),
        s1.len() > 0 ==> eqv(s_ss_total(s1, s_mean(s1)), s_ss_total(s2, s_mean(s2))),
        s1.len() > 0 ==> eqv(s_ss_part(s1, s_mean(s1)), s_ss_part(s2, s_mean(s2))),
        s1.len() > 0 ==> eqv(s_ss_operator(s1, s_mean(s1)), s_ss_operator(s2, s_mean(s2))),
        s1.len() > 0 ==> eqv(s_ss_repeatability(s1), s_ss_repeatability(s2)),
        s1.len() > 0 ==> c_zero_repeatability(s1) == c_zero_repeatability(s2),
        s1.len() > 0 ==> eqv(s_ss_part_operator(s1), s_ss_part_operator(s2)),
        s1.len() > 0 && !c_degenerate_counts(s1) ==> eqv(s_ms_part(s1), s_ms_part(s2)),
        s1.len() > 0 && !c_degenerate_counts(s1) ==> eqv(
            s_ms_repeatability(s1),
            s_ms_repeatability(s2),
        ),
        s1.len() > 0 && !c_degenerate_counts(s1) && !c_zero_repeatability(s1) ==> eqv(
            s_f_part(s1),
            s_f_part(s2),
        ),
        s1.len() > 0 && !c_degenerate_counts(s1) ==> eqv(s_varcomp_part(s1), s_varcomp_part(s2)),
        s1.len() > 0 && !c_degenerate_counts(s1) ==> eqv(
            s_varcomp_total(s1),
            s_varcomp_total(s2),
        ),
{
    broadcast use group_to_multiset_ensures;

    assert(s1.to_multiset().len() == s1.len());
    assert(s2.to_multiset().len() == s2.len());
    if s1.len() == 0 {
        assert(s1 =~= s2);
    } else {
        let n1 = s1.len() as int;
        let n2 = s2.len() as int;
        lemma_proj_contains(s1, s2);
        lemma_dedup_same_contains(parts_of(s1), parts_of(s2));
        lemma_dedup_same_contains(operators_of(s1), operators_of(s2));
        lemma_dedup_same_contains(trials_of(s1), trials_of(s2));
        let np = s_n_part(s1);
        let no = s_n_operator(s1);
        let nt = s_n_trial(s1);
        // the mean
        let m1 = s_mean(s1);
        let m2 = s_mean(s2);
        assert(g_wf(s1, g_val()));
        assert(g_wf(s2, g_val()));
        lemma_bridge_val(s1, n1);
        lemma_bridge_val(s2, n2);
        lemma_gen_sum_multiset(s1, s2, g_val());
        crate::anova::lemma_val_sum_wf(s1, n1);
        crate::anova::lemma_val_sum_wf(s2, n2);
        crate::rat::lemma_div_congr(val_sum_to(s1, n1), s_int(n1), val_sum_to(s2, n2), s_int(n2));
        crate::rat::lemma_div_wf(val_sum_to(s1, n1), s_int(n1));
        crate::rat::lemma_div_wf(val_sum_to(s2, n2), s_int(n2));
        assert(eqv(m1, m2) && s_wf(m1) && s_wf(m2));
        // the total sum of squares
        let gd = g_dev(m1);
        assert forall|k: int| 0 <= k < s1.len() implies s_wf(gd(#[trigger] s1[k])) by {
            lemma_add_wf(s1[k].value, m1);
            lemma_add_wf(s_sub(s1[k].value, m1), s_sub(s1[k].value, m1));
        }
        assert forall|k: int| 0 <= k < s2.len() implies s_wf(gd(#[trigger] s2[k])) by {
            lemma_add_wf(s2[k].value, m1);
            lemma_add_wf(s_sub(s2[k].value, m1), s_sub(s2[k].value, m1));
        }
        lemma_bridge_dev(s1, m1, n1);
        lemma_bridge_dev(s2, m1, n2);
        lemma_gen_sum_multiset(s1, s2, gd);
        crate::anova::lemma_dev_sq_sum_congr(s2, m1, m2, n2);
        crate::anova::lemma_dev_sq_sum_wf(s1, m1, n1);
        crate::anova::lemma_dev_sq_sum_wf(s2, m1, n2);
        crate::anova::lemma_dev_sq_sum_wf(s2, m2, n2);
        lemma_eqv_trans(
            dev_sq_sum_to(s1, m1, n1),
            dev_sq_sum_to(s2, m1, n2),
            dev_sq_sum_to(s2, m2, n2),
        );
        let sst1 = s_ss_total(s1, m1);
        let sst2 = s_ss_total(s2, m2);
        assert(eqv(sst1, sst2) && s_wf(sst1) && s_wf(sst2));
        // the part sum of squares
        let gp1 = dedup(parts_of(s1));
        let gp2 = dedup(parts_of(s2));
        crate::anova::lemma_dedup_parts_present(s1);
        crate::anova::lemma_dedup_parts_present(s2);
        let gpd1 = g_part_dev(s1, m1);
        let gpd2 = g_part_dev(s2, m2);
        assert forall|k: int| 0 <= k < gp2.len() implies part_count_to(
            s1,
            #[trigger] gp2[k],
            n1,
        ) > 0 by {
            lemma_dedup_props(parts_of(s2));
            assert(gp2[k] == dedup(parts_of(s2))[k]);
            assert(gp2.contains(gp2[k]));
            assert(parts_of(s2).contains(gp2[k]));
            assert(parts_of(s1).contains(gp2[k]));
            lemma_part_contains_count(s1, gp2[k]);
        }
        assert forall|k: int| 0 <= k < gp1.len() implies s_wf(gpd1(#[trigger] gp1[k])) by {
            crate::anova::lemma_part_mean_wf(s1, gp1[k]);
            lemma_add_wf(s_part_mean(s1, gp1[k]), m1);
            lemma_add_wf(
                s_sub(s_part_mean(s1, gp1[k]), m1),
                s_sub(s_part_mean(s1, gp1[k]), m1),
            );
        }
        assert forall|k: int| 0 <= k < gp2.len() implies s_wf(gpd1(#[trigger] gp2[k])) by {
            crate::anova::lemma_part_mean_wf(s1, gp2[k]);
            lemma_add_wf(s_part_mean(s1, gp2[k]), m1);
            lemma_add_wf(
                s_sub(s_part_mean(s1, gp2[k]), m1),
                s_sub(s_part_mean(s1, gp2[k]), m1),
            );
        }
        assert forall|k: int| 0 <= k < gp2.len() implies s_wf(gpd2(#[trigger] gp2[k])) by {
            crate::anova::lemma_part_mean_wf(s2, gp2[k]);
            lemma_add_wf(s_part_mean(s2, gp2[k]), m2);
            lemma_add_wf(
                s_sub(s_part_mean(s2, gp2[k]), m2),
                s_sub(s_part_mean(s2, gp2[k]), m2),
            );
        }
        lemma_bridge_part_dev(s1, gp1, m1, gp1.len() as int);
        lemma_bridge_part_dev(s2, gp2, m2, gp2.len() as int);
        lemma_gen_sum_multiset(gp1, gp2, gpd1);
        assert forall|k: int| 0 <= k < gp2.len() implies eqv(
            gpd1(#[trigger] gp2[k]),
            gpd2(gp2[k]),
        ) by {
            let p = gp2[k];
            lemma_part_mean_multiset(s1, s2, p);
            lemma_sub_congr(s_part_mean(s1, p), m1, s_part_mean(s2, p), m2);
            lemma_add_wf(s_part_mean(s1, p), m1);
            lemma_add_wf(s_part_mean(s2, p), m2);
            lemma_mul_congr(
                s_sub(s_part_mean(s1, p), m1),
                s_sub(s_part_mean(s1, p), m1),
                s_sub(s_part_mean(s2, p), m2),
                s_sub(s_part_mean(s2, p), m2),
            );
        }
        lemma_gen_sum_pointwise(gp2, gpd1, gpd2, gp2.len() as int);
        lemma_gen_sum_wf(gp1, gpd1, gp1.len() as int);
        lemma_gen_sum_wf(gp2, gpd1, gp2.len() as int);
        lemma_gen_sum_wf(gp2, gpd2, gp2.len() as int);
        lemma_eqv_trans(gen_sum(gp1, gpd1), gen_sum(gp2, gpd1), gen_sum(gp2, gpd2));
        crate::rat::lemma_eqv_refl(s_int(no * nt));
        crate::anova::lemma_part_dev_sum_wf(s1, gp1, m1, gp1.len() as int);
        crate::anova::lemma_part_dev_sum_wf(s2, gp2, m2, gp2.len() as int);
        lemma_mul_congr(
            s_int(no * nt),
            part_dev_sum_to(s1, gp1, m1, np),
            s_int(no * nt),
            part_dev_sum_to(s2, gp2, m2, np),
        );
        let ssp1 = s_ss_part(s1, m1);
        let ssp2 = s_ss_part(s2, m2);
        lemma_add_wf(s_int(no * nt), part_dev_sum_to(s1, gp1, m1, np));
        lemma_add_wf(s_int(no * nt), part_dev_sum_to(s2, gp2, m2, np));
        assert(eqv(ssp1, ssp2) && s_wf(ssp1) && s_wf(ssp2));
        // the operator sum of squares
        let go1 = dedup(operators_of(s1));
        let go2 = dedup(operators_of(s2));
        crate::anova::lemma_dedup_ops_present(s1);
        crate::anova::lemma_dedup_ops_present(s2);
        let god1 = g_op_dev(s1, m1);
        let god2 = g_op_dev(s2, m2);
        assert forall|k: int| 0 <= k < go2.len() implies op_count_to(
            s1,
            #[trigger] go2[k],
            n1,
        ) > 0 by {
            lemma_dedup_props(operators_of(s2));
            assert(go2[k] == dedup(operators_of(s2))[k]);
            assert(go2.contains(go2[k]));
            assert(operators_of(s2).contains(go2[k]));
            assert(operators_of(s1).contains(go2[k]));
            lemma_op_contains_count(s1, go2[k]);
        }
        assert forall|k: int| 0 <= k < go1.len() implies s_wf(god1(#[trigger] go1[k])) by {
            crate::anova::lemma_op_mean_wf(s1, go1[k]);
            lemma_add_wf(s_op_mean(s1, go1[k]), m1);
            lemma_add_wf(s_sub(s_op_mean(s1, go1[k]), m1), s_sub(s_op_mean(s1, go1[k]), m1));
        }
        assert forall|k: int| 0 <= k < go2.len() implies s_wf(god1(#[trigger] go2[k])) by {
            crate::anova::lemma_op_mean_wf(s1, go2[k]);
            lemma_add_wf(s_op_mean(s1, go2[k]), m1);
            lemma_add_wf(s_sub(s_op_mean(s1, go2[k]), m1), s_sub(s_op_mean(s1, go2[k]), m1));
        }
        assert forall|k: int| 0 <= k < go2.len() implies s_wf(god2(#[trigger] go2[k])) by {
            crate::anova::lemma_op_mean_wf(s2, go2[k]);
            lemma_add_wf(s_op_mean(s2, go2[k]), m2);
            lemma_add_wf(s_sub(s_op_mean(s2, go2[k]), m2), s_sub(s_op_mean(s2, go2[k]), m2));
        }
        lemma_bridge_op_dev(s1, go1, m1, go1.len() as int);
        lemma_bridge_op_dev(s2, go2, m2, go2.len() as int);
        lemma_gen_sum_multiset(go1, go2, god1);
        assert forall|k: int| 0 <= k < go2.len() implies eqv(
            god1(#[trigger] go2[k]),
            god2(go2[k]),
        ) by {
            let q = go2[k];
            lemma_op_mean_multiset(s1, s2, q);
            lemma_sub_congr(s_op_mean(s1, q), m1, s_op_mean(s2, q), m2);
            lemma_add_wf(s_op_mean(s1, q), m1);
            lemma_add_wf(s_op_mean(s2, q), m2);
            lemma_mul_congr(
                s_sub(s_op_mean(s1, q), m1),
                s_sub(s_op_mean(s1, q), m1),
                s_sub(s_op_mean(s2, q), m2),
                s_sub(s_op_mean(s2, q), m2),
            );
        }
        lemma_gen_sum_pointwise(go2, god1, god2, go2.len() as int);
        lemma_gen_sum_wf(go1, god1, go1.len() as int);
        lemma_gen_sum_wf(go2, god1, go2.len() as int);
        lemma_gen_sum_wf(go2, god2, go2.len() as int);
        lemma_eqv_trans(gen_sum(go1, god1), gen_sum(go2, god1), gen_sum(go2, god2));
        crate::rat::lemma_eqv_refl(s_int(np * nt));
        crate::anova::lemma_op_dev_sum_wf(s1, go1, m1, go1.len() as int);
        crate::anova::lemma_op_dev_sum_wf(s2, go2, m2, go2.len() as int);
        lemma_mul_congr(
            s_int(np * nt),
            op_dev_sum_to(s1, go1, m1, no),
            s_int(np * nt),
            op_dev_sum_to(s2, go2, m2, no),
        );
        let sso1 = s_ss_operator(s1, m1);
        let sso2 = s_ss_operator(s2, m2);
        lemma_add_wf(s_int(np * nt), op_dev_sum_to(s1, go1, m1, no));
        lemma_add_wf(s_int(np * nt), op_dev_sum_to(s2, go2, m2, no));
        assert(eqv(sso1, sso2) && s_wf(sso1) && s_wf(sso2));
        // the repeatability and interaction sums of squares
        lemma_sub_congr(sst1, ssp1, sst2, ssp2);
        lemma_add_wf(sst1, ssp1);
        lemma_add_wf(sst2, ssp2);
        lemma_sub_congr(s_sub(sst1, ssp1), sso1, s_sub(sst2, ssp2), sso2);
        lemma_add_wf(s_sub(sst1, ssp1), sso1);
        lemma_add_wf(s_sub(sst2, ssp2), sso2);
        let rep1 = s_ss_repeatability(s1);
        let rep2 = s_ss_repeatability(s2);
        assert(eqv(rep1, rep2) && s_wf(rep1) && s_wf(rep2));
        crate::rat::lemma_zero_eqv(rep1);
        crate::rat::lemma_zero_eqv(rep2);
        crate::rat::lemma_eqv_sign(rep1, rep2);
        lemma_add_congr(ssp1, sso1, ssp2, sso2);
        lemma_add_wf(ssp1, sso1);
        lemma_add_wf(ssp2, sso2);
        lemma_add_congr(s_add(ssp1, sso1), rep1, s_add(ssp2, sso2), rep2);
        lemma_add_wf(s_add(ssp1, sso1), rep1);
        lemma_add_wf(s_add(ssp2, sso2), rep2);
        lemma_sub_congr(
            sst1,
            s_add(s_add(ssp1, sso1), rep1),
            sst2,
            s_add(s_add(ssp2, sso2), rep2),
        );
        // the derived quantities
        if !c_degenerate_counts(s1) {
            lemma_dedup_props(parts_of(s1));
            assert(parts_of(s1).len() == s1.len());
            assert(np <= n1);
            crate::rat::lemma_div_congr(ssp1, s_int(np - 1), ssp2, s_int(np - 1));
            crate::rat::lemma_div_wf(ssp1, s_int(np - 1));
            crate::rat::lemma_div_wf(ssp2, s_int(np - 1));
            crate::rat::lemma_div_congr(rep1, s_int(n1 - np), rep2, s_int(n2 - np));
            crate::rat::lemma_div_wf(rep1, s_int(n1 - np));
            crate::rat::lemma_div_wf(rep2, s_int(n2 - np));
            let msp1 = s_ms_part(s1);
            let msp2 = s_ms_part(s2);
            let msr1 = s_ms_repeatability(s1);
            let msr2 = s_ms_repeatability(s2);
            assert(eqv(msp1, msp2) && s_wf(msp1) && s_wf(msp2));
            assert(eqv(msr1, msr2) && s_wf(msr1) && s_wf(msr2));
            if !c_zero_repeatability(s1) {
                crate::rat::lemma_div_by_pos_int_numerator(rep1, n1 - np);
                crate::rat::lemma_div_by_pos_int_numerator(rep2, n2 - np);
                crate::rat::lemma_div_congr(msp1, msr1, msp2, msr2);
            }
            lemma_sub_congr(msp1, msr1, msp2, msr2);
            lemma_add_wf(msp1, msr1);
            lemma_add_wf(msp2, msr2);
            assert(no * nt >= 1) by (nonlinear_arith)
                requires
                    no >= 1,
                    nt >= 1,
            {
            }
            crate::rat::lemma_div_congr(
                s_sub(msp1, msr1),
                s_int(no * nt),
                s_sub(msp2, msr2),
                s_int(no * nt),
            );
            crate::rat::lemma_div_wf(s_sub(msp1, msr1), s_int(no * nt));
            crate::rat::lemma_div_wf(s_sub(msp2, msr2), s_int(no * nt));
            lemma_add_congr(msr1, s_varcomp_part(s1), msr2, s_varcomp_part(s2));
        }
    }
}

} // verus!
