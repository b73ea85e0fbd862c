use step_series::series::{DataSeries, InvalidAccessPolicy};

fn create_dataseries() -> DataSeries<u32, f32> {
    let mut ds: DataSeries<u32, f32> = DataSeries::new();
    assert!(ds.push(1, 2.));
    assert!(ds.push(3, 5.));
    let (idx, vals) = ds.as_arrays();
    assert_eq!(idx.len(), vals.len());
    assert_eq!(idx.len(), 2);
    ds
}

#[test]
fn test_push() {
    let mut ds = create_dataseries();
    assert_eq!(ds.at(&1).unwrap(), &2.);
    assert_eq!(ds.at(&3).unwrap(), &5.);
    assert!(!ds.push(3, 5.));
}

#[test]
fn test_at() {
    let mut ds = create_dataseries();
    ds.set_invalid_access_policy(InvalidAccessPolicy::ReturnClosest);
    assert_eq!(ds.at(&0).unwrap(), &2.);
    assert_eq!(ds.at(&1).unwrap(), &2.);
    assert_eq!(ds.at(&2).unwrap(), &2.);
    assert_eq!(ds.at(&4).unwrap(), &5.);
    ds.set_invalid_access_policy(InvalidAccessPolicy::ReturnNone);
    assert_eq!(ds.at(&4).is_none(), true);
}

#[test]
fn test_as_arrays() {
    let ds = create_dataseries();
    let (idx, vals) = ds.as_arrays();
    assert!(idx == &vec![1, 3]);
    assert!(vals == &vec![2., 5.]);
}

#[test]
fn empty_series_has_no_values() {
    let mut ds: DataSeries<i32, i64> = DataSeries::new();
    assert!(ds.at(&0).is_none());
    ds.set_invalid_access_policy(InvalidAccessPolicy::ReturnClosest);
    assert!(ds.at(&0).is_none());
}

#[test]
fn rejected_push_leaves_series_unchanged() {
    let mut ds: DataSeries<i32, i64> = DataSeries::new();
    assert!(ds.push(5, 50));
    assert!(!ds.push(5, 51));
    assert!(!ds.push(4, 40));
    assert!(ds.push(7, 70));
    let (idx, vals) = ds.as_arrays();
    assert_eq!(idx, &vec![5, 7]);
    assert_eq!(vals, &vec![50, 70]);
}

#[test]
fn lookups_stay_in_their_interval() {
    let mut ds: DataSeries<i32, i64> = DataSeries::new();
    assert!(ds.push(-4, 1));
    assert!(ds.push(0, 2));
    assert!(ds.push(10, 3));
    assert_eq!(ds.at(&-4), Some(&1));
    assert_eq!(ds.at(&-1), Some(&1));
    assert_eq!(ds.at(&0), Some(&2));
    assert_eq!(ds.at(&9), Some(&2));
    assert_eq!(ds.at(&10), Some(&3));
}

#[test]
fn lookups_outside_domain_follow_policy() {
    let mut ds: DataSeries<i32, i64> = DataSeries::new();
    assert!(ds.push(2, 20));
    assert!(ds.push(6, 60));
    assert_eq!(ds.at(&1), None);
    assert_eq!(ds.at(&7), None);
    ds.set_invalid_access_policy(InvalidAccessPolicy::ReturnClosest);
    assert_eq!(ds.at(&1), Some(&20));
    assert_eq!(ds.at(&7), Some(&60));
    assert_eq!(ds.at(&i32::MIN), Some(&20));
    ds.set_invalid_access_policy(InvalidAccessPolicy::ReturnNone);
    assert_eq!(ds.at(&1), None);
}
