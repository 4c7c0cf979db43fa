use gage_rr::anova::{stddev_defined, AnovaResult, Error};
use gage_rr::data::{GageStudyData, GageStudyDataSet};
use gage_rr::rat::Rat;

fn obs(part: &str, operator: u32, trial: u32, num: i64, den: i64) -> GageStudyData {
    GageStudyData::new(part, operator, trial, Rat::new(num, den))
}

/// Three parts, one operator, two trials: the worked example.
fn example_set() -> GageStudyDataSet {
    GageStudyDataSet::new_with_data(vec![
        obs("P1", 1, 1, 100, 10),
        obs("P1", 1, 2, 102, 10),
        obs("P2", 1, 1, 201, 10),
        obs("P2", 1, 2, 199, 10),
        obs("P3", 1, 1, 150, 10),
        obs("P3", 1, 2, 154, 10),
    ])
}

fn calc(set: &GageStudyDataSet) -> AnovaResult {
    match set.calculate() {
        Ok(a) => a,
        Err(_) => panic!("expected a result"),
    }
}

#[test]
fn end_to_end_example() {
    let set = example_set();
    assert_eq!(set.n_part, 3);
    assert_eq!(set.n_operator, 1);
    assert_eq!(set.n_trial, 2);
    assert_eq!(set.n_total, 6);
    let a = calc(&set);
    assert!(a.mean.eq_rat(&Rat::new(151, 10)));
    assert_eq!(a.df_part, 2);
    assert_eq!(a.df_operator, 0);
    assert_eq!(a.df_part_operator, 0);
    assert_eq!(a.df_repeatability, 3);
    assert_eq!(a.df_total, 5);
    assert!(a.ss_total.eq_rat(&Rat::new(2454, 25)));
    assert!(a.ss_part.eq_rat(&Rat::new(2451, 25)));
    assert!(a.ss_operator.is_zero());
    assert!(a.ss_part_operator.is_zero());
    assert!(a.ss_repeatability.eq_rat(&Rat::new(3, 25)));
    assert!(a.ms_part.eq_rat(&Rat::new(2451, 50)));
    assert!(a.ms_repeatability.eq_rat(&Rat::new(1, 25)));
    assert!(a.f_part.eq_rat(&Rat::new(2451, 2)));
    assert!(a.varcomp_part.eq_rat(&Rat::new(2449, 100)));
    assert!(a.varcomp_total_gagerr.eq_rat(&Rat::new(1, 25)));
    assert!(a.varcomp_total.eq_rat(&Rat::new(2453, 100)));
    assert!(a.p.is_zero());
    assert!(a.study_variation.eq_rat(&Rat::new(103, 20)));
}

#[test]
fn optional_fields_absent_for_single_operator() {
    let a = calc(&example_set());
    assert!(a.ms_operator.is_none());
    assert!(a.ms_part_operator.is_none());
    assert!(a.f_operator.is_none());
    assert!(a.f_part_operator.is_none());
    assert!(a.varcomp_operator.is_none());
}

#[test]
fn additivity_of_sums_of_squares() {
    let a = calc(&example_set());
    let sum = a
        .ss_part
        .add(&a.ss_operator)
        .and_then(|x| x.add(&a.ss_part_operator))
        .and_then(|x| x.add(&a.ss_repeatability))
        .expect("within range");
    assert!(sum.eq_rat(&a.ss_total));
}

#[test]
fn degrees_of_freedom_accounting() {
    let a = calc(&example_set());
    assert_eq!(
        a.df_part + a.df_operator + a.df_part_operator + a.df_repeatability,
        a.df_total
    );
}

#[test]
fn determinism_under_reordering() {
    let a = calc(&example_set());
    let reordered = GageStudyDataSet::new_with_data(vec![
        obs("P3", 1, 2, 154, 10),
        obs("P2", 1, 1, 201, 10),
        obs("P1", 1, 2, 102, 10),
        obs("P3", 1, 1, 150, 10),
        obs("P1", 1, 1, 100, 10),
        obs("P2", 1, 2, 199, 10),
    ]);
    let b = calc(&reordered);
    assert_eq!(a.n_part, b.n_part);
    assert_eq!(a.n_operator, b.n_operator);
    assert_eq!(a.n_trial, b.n_trial);
    assert_eq!(a.n_total, b.n_total);
    assert_eq!(a.df_total, b.df_total);
    assert!(a.mean.eq_rat(&b.mean));
    assert!(a.ss_total.eq_rat(&b.ss_total));
    assert!(a.ss_part.eq_rat(&b.ss_part));
    assert!(a.ss_operator.eq_rat(&b.ss_operator));
    assert!(a.ss_part_operator.eq_rat(&b.ss_part_operator));
    assert!(a.ss_repeatability.eq_rat(&b.ss_repeatability));
    assert!(a.ms_part.eq_rat(&b.ms_part));
    assert!(a.ms_repeatability.eq_rat(&b.ms_repeatability));
    assert!(a.f_part.eq_rat(&b.f_part));
    assert!(a.varcomp_part.eq_rat(&b.varcomp_part));
    assert!(a.varcomp_total_gagerr.eq_rat(&b.varcomp_total_gagerr));
    assert!(a.varcomp_total.eq_rat(&b.varcomp_total));
}

#[test]
fn empty_input_is_rejected() {
    let set = GageStudyDataSet::new_with_data(vec![]);
    assert!(matches!(set.calculate(), Err(Error::EmptyInput)));
}

#[test]
fn two_operators_are_rejected() {
    let set = GageStudyDataSet::new_with_data(vec![
        obs("P1", 1, 1, 10, 1),
        obs("P1", 2, 1, 11, 1),
        obs("P2", 1, 1, 20, 1),
        obs("P2", 2, 1, 21, 1),
    ]);
    assert!(matches!(set.calculate(), Err(Error::UnsupportedDesign)));
}

#[test]
fn single_part_is_rejected() {
    let set = GageStudyDataSet::new_with_data(vec![
        obs("P1", 1, 1, 10, 1),
        obs("P1", 1, 2, 11, 1),
    ]);
    assert!(matches!(set.calculate(), Err(Error::DegenerateDesign)));
}

#[test]
fn zero_repeatability_is_rejected() {
    let set = GageStudyDataSet::new_with_data(vec![
        obs("P1", 1, 1, 1, 1),
        obs("P1", 1, 2, 1, 1),
        obs("P2", 1, 1, 2, 1),
        obs("P2", 1, 2, 2, 1),
    ]);
    assert!(matches!(set.calculate(), Err(Error::DegenerateDesign)));
}

#[test]
fn negative_variance_component_is_preserved() {
    let set = GageStudyDataSet::new_with_data(vec![
        obs("P1", 1, 1, 0, 1),
        obs("P1", 1, 2, 10, 1),
        obs("P2", 1, 1, 10, 1),
        obs("P2", 1, 2, 0, 1),
    ]);
    let a = calc(&set);
    assert!(a.varcomp_part.is_negative());
    assert!(a.varcomp_part.eq_rat(&Rat::new(-25, 1)));
    assert!(!stddev_defined(&a.varcomp_part));
    assert!(stddev_defined(&a.varcomp_total_gagerr));
}

#[test]
fn unique_ids_in_first_appearance_order() {
    let set = GageStudyDataSet::new_with_data(vec![
        obs("B", 2, 2, 1, 1),
        obs("A", 1, 1, 2, 1),
        obs("B", 2, 1, 3, 1),
        obs("A", 1, 2, 4, 1),
    ]);
    assert_eq!(set.unique_parts(), vec!["B".to_owned(), "A".to_owned()]);
    assert_eq!(set.unique_operators(), vec![2, 1]);
    assert_eq!(set.unique_trials(), vec![2, 1]);
    assert_eq!(set.n_part, 2);
    assert_eq!(set.n_operator, 2);
    assert_eq!(set.n_trial, 2);
}

#[test]
fn mean_and_sums_of_squares_directly() {
    let set = example_set();
    let mean = set.mean().expect("within range");
    assert!(mean.eq_rat(&Rat::new(151, 10)));
    let sst = set.ss_total(&mean).expect("within range");
    assert!(sst.eq_rat(&Rat::new(2454, 25)));
    let ssp = set.ss_part(&mean).expect("within range");
    assert!(ssp.eq_rat(&Rat::new(2451, 25)));
    let sso = set.ss_operator(&mean).expect("within range");
    assert!(sso.is_zero());
    let rep = sst
        .sub(&ssp)
        .and_then(|x| x.sub(&sso))
        .expect("within range");
    let sspo = GageStudyDataSet::ss_part_operator(&sst, &ssp, &sso, &rep).expect("within range");
    assert!(sspo.is_zero());
}

#[test]
fn machine_range_exhaustion_is_reported() {
    let set = GageStudyDataSet::new_with_data(vec![
        obs("P1", 1, 1, i64::MAX, 1),
        obs("P1", 1, 2, i64::MAX, 1),
        obs("P2", 1, 1, i64::MAX, 1),
        obs("P2", 1, 2, i64::MAX - 2, 1),
    ]);
    assert!(matches!(set.calculate(), Err(Error::Overflow)));
}

#[test]
fn empty_set_constructor() {
    let set = GageStudyDataSet::new();
    assert_eq!(set.n_total, 0);
    assert!(matches!(set.calculate(), Err(Error::EmptyInput)));
}
