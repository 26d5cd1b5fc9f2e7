use wilee_core::sampled_fn::{SampledFn, SampledFnError};

fn approx(value: f64, reference: f64, precision: f64) -> bool {
    let mut error: f64 = (value - reference).abs();
    if reference != 0.0 {
        error /= reference.abs();
    }
    error < precision
}

fn approx_vec(value: &[f64], reference: &[f64], precision: f64) -> bool {
    let count_of_true: usize = value
        .iter()
        .zip(reference.iter())
        .filter(|(v, r)| approx(**v, **r, precision))
        .count();
    count_of_true == value.len()
}

#[test]
fn test_sampled_fn_constructor() {
    let args: Vec<f64> = vec![0.0, 2.0, 1.0];
    let values: Vec<f64> = vec![0.0, 4.0, 1.0];

    let args_reference: Vec<f64> = vec![0.0, 1.0, 2.0];
    let values_reference: Vec<f64> = vec![0.0, 1.0, 4.0];

    let fun: SampledFn<f64> = SampledFn::new(args.clone(), values.clone());

    let precision: f64 = 0.01;
    assert!(approx_vec(&fun.get_x_vec(), &args_reference, precision));
    assert!(approx_vec(&fun.get_y_vec(), &values_reference, precision));
}

#[test]
fn test_sampled_fn_search_interval_must_return_none() {
    let args: Vec<f64> = vec![0.0, 2.0, 1.0];
    let values: Vec<f64> = vec![0.0, 4.0, 1.0];

    let fun: SampledFn<f64> = SampledFn::new(args, values);

    assert!(fun.search_interval(-0.75).is_none());
    assert!(fun.search_interval(2.98).is_none());
}

#[test]
fn test_sampled_fn_search_interval_must_return_some_index() {
    let args: Vec<f64> = vec![0.0, 1.0, 2.0, 3.0];
    let values: Vec<f64> = vec![0.0, 1.0, 4.0, 9.0];

    let fun: SampledFn<f64> = SampledFn::new(args, values);

    match fun.search_interval(0.65) {
        Some(index) => assert_eq!(index, 0),
        None => assert!(false),
    }

    match fun.search_interval(1.54) {
        Some(index) => assert_eq!(index, 1),
        None => assert!(false),
    }

    match fun.search_interval(2.75) {
        Some(index) => assert_eq!(index, 2),
        None => assert!(false),
    }
}

#[test]
fn search_interval_on_empty_function_returns_none() {
    let fun: SampledFn<i64> = SampledFn::new(vec![], vec![]);
    assert!(fun.search_interval(0).is_none());
    assert!(fun.search_interval(-5).is_none());
}

#[test]
fn search_interval_on_single_sample_returns_none() {
    let fun: SampledFn<i64> = SampledFn::new(vec![5], vec![25]);
    assert!(fun.search_interval(4).is_none());
    assert!(fun.search_interval(5).is_none());
    assert!(fun.search_interval(6).is_none());
}

#[test]
fn search_interval_query_on_sample_point_starts_there() {
    let args: Vec<i64> = vec![0, 1, 2, 3];
    let values: Vec<i64> = vec![0, 1, 4, 9];
    let fun: SampledFn<i64> = SampledFn::new(args, values);

    // a query equal to a sample is not strictly below it, so the
    // interval starting at that sample is returned
    assert_eq!(fun.search_interval(0), Some(0));
    assert_eq!(fun.search_interval(1), Some(1));
    assert_eq!(fun.search_interval(2), Some(2));
    // a query equal to the last sample has no sample strictly above it
    assert_eq!(fun.search_interval(3), None);
    assert_eq!(fun.search_interval(-1), None);
}

#[test]
fn constructor_sorts_integer_samples() {
    let args: Vec<i64> = vec![7, -2, 3, 0];
    let values: Vec<i64> = vec![49, 4, 9, 0];
    let fun: SampledFn<i64> = SampledFn::new(args, values);

    assert_eq!(fun.get_x_vec(), vec![-2, 0, 3, 7]);
    assert_eq!(fun.get_y_vec(), vec![4, 0, 9, 49]);
}

#[test]
fn constructor_keeps_duplicate_x_values() {
    let args: Vec<i64> = vec![5, 3, 5, 1];
    let values: Vec<i64> = vec![50, 30, 51, 10];
    let fun: SampledFn<i64> = SampledFn::new(args, values);

    assert_eq!(fun.get_x_vec(), vec![1, 3, 5, 5]);
    let ys = fun.get_y_vec();
    assert_eq!(ys[0], 10);
    assert_eq!(ys[1], 30);
    // the relative order of samples tied on x is unspecified
    assert!(ys[2..4] == [50, 51] || ys[2..4] == [51, 50]);
}

#[test]
fn try_new_rejects_mismatched_lengths() {
    let result = SampledFn::try_new(vec![0i64, 1], vec![0i64, 1, 2]);
    assert_eq!(result.err(), Some(SampledFnError::InvalidArgument));
}

#[test]
fn try_new_accepts_equal_lengths() {
    let result = SampledFn::try_new(vec![0i64, 2, 1], vec![0i64, 4, 1]);
    let fun = result.unwrap();
    assert_eq!(fun.get_x_vec(), vec![0, 1, 2]);
    assert_eq!(fun.get_y_vec(), vec![0, 1, 4]);
}

#[test]
fn search_interval_is_idempotent() {
    let args: Vec<f64> = vec![0.0, 1.0, 2.0, 3.0];
    let values: Vec<f64> = vec![0.0, 1.0, 4.0, 9.0];
    let fun: SampledFn<f64> = SampledFn::new(args, values);

    let queries: Vec<f64> = vec![-0.75, 0.0, 0.65, 1.54, 2.75, 3.0, 4.5];
    for q in queries {
        let first = fun.search_interval(q);
        assert_eq!(fun.search_interval(q), first);
        assert_eq!(fun.search_interval(q), first);
    }
}

#[test]
fn constructor_ignores_input_order() {
    let fun_a: SampledFn<i64> = SampledFn::new(vec![0, 2, 1, -4], vec![0, 4, 1, 16]);
    let fun_b: SampledFn<i64> = SampledFn::new(vec![-4, 1, 2, 0], vec![16, 1, 4, 0]);

    assert_eq!(fun_a.get_x_vec(), fun_b.get_x_vec());
    assert_eq!(fun_a.get_y_vec(), fun_b.get_y_vec());
    assert_eq!(fun_a.get_x_vec(), vec![-4, 0, 1, 2]);
}
