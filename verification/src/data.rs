//! The observation set: decoded measurements and the distinct part,
//! operator and trial ids derived from them.

use crate::rat::{Rat, SRat};
use vstd::prelude::*;

verus! {

/// Mathematical view of one observation.
pub ghost struct SObs {
    pub part: Seq<char>,
    pub operator: int,
    pub trial: int,
    pub value: SRat,
}

/// One decoded observation: one measured value for a part, taken by an
/// operator in a trial.
pub struct GageStudyData {
    pub part: String,
    pub operator: u32,
    pub trial: u32,
    pub value: Rat,
}

impl View for GageStudyData {
    type V = SObs;

    open spec fn view(&self) -> SObs {
        SObs {
            part: self.part@,
            operator: self.operator as int,
            trial: self.trial as int,
            value: self.value@,
        }
    }
}

impl GageStudyData {
    pub open spec fn wf(self) -> bool {
        self.value.wf()
    }

    pub fn new(part: &str, operator: u32, trial: u32, value: Rat) -> (r: GageStudyData)
        requires
            value.wf(),
        ensures
            r.wf(),
            r@ == (SObs {
                part: part@,
                operator: operator as int,
                trial: trial as int,
                value: value@,
            }),
    {
        GageStudyData { part: part.to_owned(), operator, trial, value }
    }
}

/// The prefix of `s` up to `i` with later repetitions of a value removed,
/// keeping first-appearance order.
pub open spec fn dedup_to<A>(s: Seq<A>, i: int) -> Seq<A>
    decreases i,
{
    if i <= 0 {
        Seq::empty()
    } else {
        let d = dedup_to(s, i - 1);
        if d.contains(s[i - 1]) {
            d
        } else {
            d.push(s[i - 1])
        }
    }
}

/// The distinct values of `s`, in first-appearance order.
pub open spec fn dedup<A>(s: Seq<A>) -> Seq<A> {
    dedup_to(s, s.len() as int)
}

pub proof fn lemma_dedup_to_props<A>(s: Seq<A>, i: int)
    requires
        0 <= i <= s.len(),
    ensures
        dedup_to(s, i).no_duplicates(),
        forall|x: A| dedup_to(s, i).contains(x) <==> (exists|j: int| 0 <= j < i && s[j] == x),
        dedup_to(s, i).len() <= i,
        i > 0 ==> dedup_to(s, i).len() >= 1,
    decreases i,
{
    if i > 0 {
        lemma_dedup_to_props(s, i - 1);
        let d = dedup_to(s, i - 1);
        if !d.contains(s[i - 1]) {
            assert forall|x: A| dedup_to(s, i).contains(x) implies (exists|j: int|
                0 <= j < i && s[j] == x) by {
                let k = choose|k: int| 0 <= k < d.push(s[i - 1]).len() && #[trigger] d.push(s[i - 1])[k] == x;
                if k < d.len() {
                    assert(d.contains(x));
                } else {
                    assert(s[i - 1] == x);
                }
            }
            assert forall|x: A| (exists|j: int| 0 <= j < i && s[j] == x) implies dedup_to(
                s,
                i,
            ).contains(x) by {
                let j = choose|j: int| 0 <= j < i && #[trigger] s[j] == x;
                if j < i - 1 {
                    assert(d.contains(x));
                    let k = choose|k: int| 0 <= k < d.len() && #[trigger] d[k] == x;
                    assert(d.push(s[i - 1])[k] == x);
                } else {
                    assert(d.push(s[i - 1])[d.len() as int] == x);
                }
            }
        } else {
            assert forall|x: A| (exists|j: int| 0 <= j < i && s[j] == x) implies dedup_to(
                s,
                i,
            ).contains(x) by {
                let j = choose|j: int| 0 <= j < i && #[trigger] s[j] == x;
                if j == i - 1 {
                    assert(d.contains(s[i - 1]));
                }
            }
        }
    }
}

pub proof fn lemma_dedup_props<A>(s: Seq<A>)
    ensures
        dedup(s).no_duplicates(),
        forall|x: A| dedup(s).contains(x) <==> s.contains(x),
        dedup(s).len() <= s.len(),
        s.len() > 0 ==> dedup(s).len() >= 1,
{
    lemma_dedup_to_props(s, s.len() as int);
}

/// The views of a sequence of strings.
pub open spec fn strs_view(v: Seq<String>) -> Seq<Seq<char>> {
    v.map_values(|s: String| s@)
}

/// The views of a sequence of small integers.
pub open spec fn ints_view(v: Seq<u32>) -> Seq<int> {
    v.map_values(|x: u32| x as int)
}

/// The part ids of a sequence of observations.
pub open spec fn parts_of(s: Seq<SObs>) -> Seq<Seq<char>> {
    s.map_values(|o: SObs| o.part)
}

/// The operator ids of a sequence of observations.
pub open spec fn operators_of(s: Seq<SObs>) -> Seq<int> {
    s.map_values(|o: SObs| o.operator)
}

/// The trial ids of a sequence of observations.
pub open spec fn trials_of(s: Seq<SObs>) -> Seq<int> {
    s.map_values(|o: SObs| o.trial)
}

fn vec_contains_string(v: &Vec<String>, x: &String) -> (r: bool)
    ensures
        r == strs_view(v@).contains(x@),
{
    let mut j: usize = 0;
    while j < v.len()
        invariant
            j <= v.len(),
            forall|k: int| 0 <= k < j ==> v@[k]@ != x@,
        decreases v.len() - j,
    {
        if v[j].eq(x) {
            assert(strs_view(v@)[j as int] == x@);
            return true;
        }
        j += 1;
    }
    assert forall|k: int| 0 <= k < strs_view(v@).len() implies strs_view(v@)[k] != x@ by {}
    false
}

fn vec_contains_u32(v: &Vec<u32>, x: u32) -> (r: bool)
    ensures
        r == ints_view(v@).contains(x as int),
{
    let mut j: usize = 0;
    while j < v.len()
        invariant
            j <= v.len(),
            forall|k: int| 0 <= k < j ==> v@[k] != x,
        decreases v.len() - j,
    {
        if v[j] == x {
            assert(ints_view(v@)[j as int] == x as int);
            return true;
        }
        j += 1;
    }
    assert forall|k: int| 0 <= k < ints_view(v@).len() implies ints_view(v@)[k] != x as int by {}
    false
}

/// The decoded observations of one study, with the distinct part, operator
/// and trial ids and their counts, all fixed at construction.
pub struct GageStudyDataSet {
    pub data: Vec<GageStudyData>,
    pub parts: Vec<String>,
    pub operators: Vec<u32>,
    pub trials: Vec<u32>,
    pub n_part: u32,
    pub n_operator: u32,
    pub n_trial: u32,
    pub n_total: u32,
}

impl View for GageStudyDataSet {
    type V = Seq<SObs>;

    open spec fn view(&self) -> Seq<SObs> {
        self.data@.map_values(|o: GageStudyData| o@)
    }
}

impl GageStudyDataSet {
    /// The derived id lists are exactly the distinct ids of the data, in
    /// first-appearance order, and the counts match them.
    pub open spec fn wf(self) -> bool {
        &&& forall|k: int| 0 <= k < self.data@.len() ==> (#[trigger] self.data@[k]).wf()
        &&& self.data@.len() <= u32::MAX
        &&& strs_view(self.parts@) == dedup(parts_of(self@))
        &&& ints_view(self.operators@) == dedup(operators_of(self@))
        &&& ints_view(self.trials@) == dedup(trials_of(self@))
        &&& self.n_part == self.parts@.len()
        &&& self.n_operator == self.operators@.len()
        &&& self.n_trial == self.trials@.len()
        &&& self.n_total == self.data@.len()
    }

    /// An empty observation set.
    pub fn new() -> (r: GageStudyDataSet)
        ensures
            r.wf(),
            r@ =~= Seq::<SObs>::empty(),
    {
        let r = GageStudyDataSet {
            data: Vec::new(),
            parts: Vec::new(),
            operators: Vec::new(),
            trials: Vec::new(),
            n_part: 0,
            n_operator: 0,
            n_trial: 0,
            n_total: 0,
        };
        proof {
            assert(r@ =~= Seq::<SObs>::empty());
            assert(strs_view(r.parts@) =~= dedup(parts_of(r@)));
            assert(ints_view(r.operators@) =~= dedup(operators_of(r@)));
            assert(ints_view(r.trials@) =~= dedup(trials_of(r@)));
        }
        r
    }

    /// Builds the observation set: stores the data unchanged and computes
    /// the distinct ids and the cardinalities.
    pub fn new_with_data(data: Vec<GageStudyData>) -> (r: GageStudyDataSet)
        requires
            forall|k: int| 0 <= k < data@.len() ==> (#[trigger] data@[k]).wf(),
            data@.len() <= u32::MAX,
        ensures
            r.wf(),
            r@ == data@.map_values(|o: GageStudyData| o@),
    {
        let n_total = data.len() as u32;
        let mut r = GageStudyDataSet {
            data,
            parts: Vec::new(),
            operators: Vec::new(),
            trials: Vec::new(),
            n_part: 0,
            n_operator: 0,
            n_trial: 0,
            n_total,
        };
        let parts = r.unique_parts();
        let operators = r.unique_operators();
        let trials = r.unique_trials();
        proof {
            lemma_dedup_props(parts_of(r@));
            lemma_dedup_props(operators_of(r@));
            lemma_dedup_props(trials_of(r@));
        }
        let n_part = parts.len() as u32;
        let n_operator = operators.len() as u32;
        let n_trial = trials.len() as u32;
        r.parts = parts;
        r.operators = operators;
        r.trials = trials;
        r.n_part = n_part;
        r.n_operator = n_operator;
        r.n_trial = n_trial;
        r
    }

    /// The distinct part ids of the data, in first-appearance order.
    pub fn unique_parts(&self) -> (r: Vec<String>)
        ensures
            strs_view(r@) == dedup(parts_of(self@)),
    {
        let ghost ps = parts_of(self@);
        let mut r: Vec<String> = Vec::new();
        let mut i: usize = 0;
        while i < self.data.len()
            invariant
                i <= self.data.len(),
                ps == parts_of(self@),
                ps.len() == self.data.len(),
                strs_view(r@) == dedup_to(ps, i as int),
            decreases self.data.len() - i,
        {
            assert(ps[i as int] == self.data@[i as int]@.part);
            if !vec_contains_string(&r, &self.data[i].part) {
                r.push(self.data[i].part.clone());
                assert(strs_view(r@) =~= dedup_to(ps, i + 1));
            }
            i += 1;
        }
        r
    }

    /// The distinct operator ids of the data, in first-appearance order.
    pub fn unique_operators(&self) -> (r: Vec<u32>)
        ensures
            ints_view(r@) == dedup(operators_of(self@)),
    {
        let ghost os = operators_of(self@);
        let mut r: Vec<u32> = Vec::new();
        let mut i: usize = 0;
        while i < self.data.len()
            invariant
                i <= self.data.len(),
                os == operators_of(self@),
                os.len() == self.data.len(),
                ints_view(r@) == dedup_to(os, i as int),
            decreases self.data.len() - i,
        {
            assert(os[i as int] == self.data@[i as int]@.operator);
            if !vec_contains_u32(&r, self.data[i].operator) {
                r.push(self.data[i].operator);
                assert(ints_view(r@) =~= dedup_to(os, i + 1));
            }
            i += 1;
        }
        r
    }

    /// The distinct trial ids of the data, in first-appearance order.
    pub fn unique_trials(&self) -> (r: Vec<u32>)
        ensures
            ints_view(r@) == dedup(trials_of(self@)),
    {
        let ghost ts = trials_of(self@);
        let mut r: Vec<u32> = Vec::new();
        let mut i: usize = 0;
        while i < self.data.len()
            invariant
                i <= self.data.len(),
                ts == trials_of(self@),
                ts.len() == self.data.len(),
                ints_view(r@) == dedup_to(ts, i as int),
            decreases self.data.len() - i,
        {
            assert(ts[i as int] == self.data@[i as int]@.trial);
            if !vec_contains_u32(&r, self.data[i].trial) {
                r.push(self.data[i].trial);
                assert(ints_view(r@) =~= dedup_to(ts, i + 1));
            }
            i += 1;
        }
        r
    }
}

} // verus!
