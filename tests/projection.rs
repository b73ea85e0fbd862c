use step_series::projection::{Ratio, ValueType};
use step_series::series::{DataSeries, InvalidAccessPolicy};

fn as_float(r: &Ratio) -> f64 {
    r.num as f64 / r.den as f64
}

fn floats(ds: &DataSeries<i32, Ratio>) -> Vec<f64> {
    ds.as_arrays().1.iter().map(as_float).collect()
}

fn sample() -> DataSeries<i32, i32> {
    let mut ds: DataSeries<i32, i32> = DataSeries::new();
    ds.push(1, 2);
    ds.push(3, 3);
    ds.push(5, 7);
    ds.push(10, 0);
    ds
}

#[test]
fn test_get_projection_countable() {
    let ds = sample();
    let index_new: Vec<i32> = vec![1, 2, 3, 4, 5];
    let proj = ds.get_projection(&index_new, ValueType::Countable);
    assert_eq!(proj.as_arrays().0, &vec![1, 2, 3, 4, 5]);
    assert_eq!(floats(&proj), vec![1., 1., 1.5, 1.5, 7.]);

    let index_new: Vec<i32> = vec![1, 5, 6];
    let proj = ds.get_projection(&index_new, ValueType::Countable);
    assert_eq!(proj.as_arrays().0, &vec![1, 5, 6]);
    assert_eq!(floats(&proj), vec![5., 1.4, 5.6]);
}

#[test]
fn test_get_projection_non_countable() {
    let ds = sample();
    let index_new: Vec<i32> = vec![1, 2, 3, 4, 5];
    let proj = ds.get_projection(&index_new, ValueType::NonCountable);
    assert_eq!(proj.as_arrays().0, &vec![1, 2, 3, 4, 5]);
    assert_eq!(floats(&proj), vec![2., 2., 3., 3., 7.]);

    let index_new: Vec<i32> = vec![1, 5, 6];
    let proj = ds.get_projection(&index_new, ValueType::NonCountable);
    assert_eq!(proj.as_arrays().0, &vec![1, 5, 6]);
    assert_eq!(floats(&proj), vec![2.5, 7., 7.]);
}

#[test]
fn test_get_projection_edges() {
    let ds: DataSeries<i32, i32> = DataSeries::new();
    let index_new: Vec<i32> = vec![1, 2, 3, 4, 5];
    let proj = ds.get_projection(&index_new, ValueType::NonCountable);
    assert_eq!(proj.as_arrays().0, &Vec::<i32>::new());
    assert_eq!(proj.as_arrays().1, &Vec::<Ratio>::new());
}

#[test]
fn empty_series_projects_to_empty_for_both_kinds() {
    let ds: DataSeries<i32, i32> = DataSeries::new();
    let index_new: Vec<i32> = vec![0, 4];
    assert!(ds.get_projection(&index_new, ValueType::Countable).as_arrays().0.is_empty());
    assert!(ds.get_projection(&index_new, ValueType::NonCountable).as_arrays().0.is_empty());
}

#[test]
fn countable_projection_keeps_the_total() {
    let ds = sample();
    let index_new: Vec<i32> = vec![1, 4, 6, 10];
    let proj = ds.get_projection(&index_new, ValueType::Countable);
    assert_eq!(proj.as_arrays().0, &vec![1, 4, 6]);
    let total: f64 = floats(&proj).iter().sum();
    assert!((total - 12.0).abs() < 1e-12);
    let vals = proj.as_arrays().1;
    // [1, 4): 2 + 3 / 2; [4, 6): 3 / 2 + 7 / 5; [6, 10): 7 * 4 / 5.
    assert_eq!(vals[0].num * 2, vals[0].den * 7);
    assert_eq!(vals[1].num * 10, vals[1].den * 29);
    assert_eq!(vals[2].num * 5, vals[2].den * 28);
}

#[test]
fn countable_exact_fractions() {
    let ds = sample();
    let index_new: Vec<i32> = vec![2, 4];
    let proj = ds.get_projection(&index_new, ValueType::Countable);
    let (idx, vals) = proj.as_arrays();
    assert_eq!(idx, &vec![2, 4]);
    // [2, 4): half of 2 plus half of 3; [4, 5): half of 3.
    assert_eq!(vals[0].num * 2, vals[0].den * 5);
    assert_eq!(vals[1].num * 2, vals[1].den * 3);
}

#[test]
fn non_countable_on_own_breakpoints_is_identity() {
    let ds = sample();
    let index_new: Vec<i32> = vec![1, 3, 5, 10];
    let proj = ds.get_projection(&index_new, ValueType::NonCountable);
    assert_eq!(proj.as_arrays().0, &vec![1, 3, 5]);
    assert_eq!(floats(&proj), vec![2., 3., 7.]);
}

#[test]
fn non_countable_extends_beyond_domain() {
    let ds = sample();
    // [0, 3) covers the old domain on [1, 3) only: 2 * 2 / 3.
    let index_new: Vec<i32> = vec![0, 3];
    let proj = ds.get_projection(&index_new, ValueType::NonCountable);
    let (idx, vals) = proj.as_arrays();
    assert_eq!(idx, &vec![0, 3]);
    assert_eq!(vals[0], Ratio { num: 4, den: 3 });
    assert_eq!(vals[1], Ratio { num: 6, den: 2 });
}

#[test]
fn breakpoints_outside_domain_are_dropped() {
    let ds = sample();
    let index_new: Vec<i32> = vec![-5, -1, 10, 12];
    let proj = ds.get_projection(&index_new, ValueType::Countable);
    let (idx, vals) = proj.as_arrays();
    assert_eq!(idx, &vec![-1]);
    assert_eq!(as_float(&vals[0]), 12.0);
}

#[test]
fn single_breakpoint_inside_domain() {
    let ds = sample();
    let index_new: Vec<i32> = vec![6];
    let proj = ds.get_projection(&index_new, ValueType::NonCountable);
    assert_eq!(proj.as_arrays().0, &vec![6]);
    assert_eq!(floats(&proj), vec![7.]);
    let proj = ds.get_projection(&index_new, ValueType::Countable);
    assert_eq!(floats(&proj), vec![5.6]);
}

#[test]
fn projection_copies_policy() {
    let mut ds = sample();
    ds.set_invalid_access_policy(InvalidAccessPolicy::ReturnClosest);
    let index_new: Vec<i32> = vec![1, 5];
    let proj = ds.get_projection(&index_new, ValueType::NonCountable);
    assert_eq!(proj.at(&100).map(as_float), Some(7.0));
    assert_eq!(proj.at(&0).map(as_float), Some(2.5));
}

#[test]
fn extreme_keys_and_values_stay_exact() {
    let limit: i32 = step_series::projection::VALUE_LIMIT;
    let mut ds: DataSeries<u32, i32> = DataSeries::new();
    assert!(ds.push(0, limit));
    assert!(ds.push(1, -limit));
    assert!(ds.push(u32::MAX - 1, limit));
    assert!(ds.push(u32::MAX, 0));
    let index_new: Vec<u32> = vec![0, 2, u32::MAX - 1];
    let proj = ds.get_projection(&index_new, ValueType::Countable);
    let (idx, vals) = proj.as_arrays();
    assert_eq!(idx, &vec![0, 2, u32::MAX - 1]);
    let long: i128 = (u32::MAX as i128) - 2;
    let l = limit as i128;
    // [0, 2): all of the first value and 1 / long of the second.
    assert_eq!(vals[0].num * long, vals[0].den * (l * long - l));
    // [2, MAX - 1): the rest of the second value.
    assert_eq!(vals[1].num * long, vals[1].den * (-l * (long - 1)));
    // [MAX - 1, MAX): the whole third value.
    assert_eq!(vals[2].num, vals[2].den * l);

    let proj = ds.get_projection(&index_new, ValueType::NonCountable);
    let vals = proj.as_arrays().1;
    assert_eq!(vals[0], Ratio { num: l - l, den: 2 });
    assert_eq!(vals[1].num, -l * (long - 1));
    assert_eq!(vals[1].den, long - 1);
}
