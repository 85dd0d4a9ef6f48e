use derivative_pricing::convergence_table::ConvergenceTable;
use derivative_pricing::partition::{partition_paths, PathBlock};
use derivative_pricing::payoff_factory::{
    ErrorType, FactoryError, OptionType, PayoffFactory, RegistrationError,
};

#[test]
fn test_convergence_table() {
    let mut conv_table: ConvergenceTable<f64> = ConvergenceTable::new();

    let num_paths = 1024u32;
    let expected_results = (2..=num_paths)
        .filter(|n| n.is_power_of_two())
        .map(|n| vec![n as f64 * 0.5, n as f64])
        .collect::<Vec<Vec<f64>>>();

    let mut results_len = 0usize;
    for _i in 1..=num_paths {
        results_len += 1;
        conv_table.dump_one_result(results_len as f64 * 0.5);
    }

    let results = conv_table.get_results_so_far(results_len as f64 * 0.5);
    assert_eq!(results.len(), expected_results.len());
    for (actual, expected) in results.iter().zip(expected_results.iter()) {
        assert_eq!(actual.0, expected[0]);
        assert_eq!(actual.1 as f64, expected[1]);
    }
}

#[test]
fn convergence_marks_are_powers_of_two_then_current() {
    let mut t: ConvergenceTable<u32> = ConvergenceTable::new();
    for i in 1..=1000u32 {
        t.dump_one_result(i * 10);
    }
    assert_eq!(t.paths_done(), 1000);
    let rows = t.get_results_so_far(77);
    let marks: Vec<u64> = rows.iter().map(|r| r.1).collect();
    assert_eq!(marks, vec![2, 4, 8, 16, 32, 64, 128, 256, 512, 1000]);
    assert_eq!(rows[0].0, 20);
    assert_eq!(rows[8].0, 5120);
    assert_eq!(rows[9].0, 77);
}

#[test]
fn convergence_table_edge_counts() {
    let mut t: ConvergenceTable<i32> = ConvergenceTable::new();
    assert_eq!(t.get_results_so_far(-1), vec![(-1, 0)]);
    t.dump_one_result(5);
    assert_eq!(t.get_results_so_far(5), vec![]);
    t.dump_one_result(6);
    assert_eq!(t.get_results_so_far(6), vec![(6, 2)]);
    t.dump_one_result(7);
    assert_eq!(t.get_results_so_far(7), vec![(6, 2), (7, 3)]);
}

#[test]
fn partition_splits_evenly_with_remainder_first() {
    let blocks = partition_paths(10, 3);
    assert_eq!(
        blocks,
        vec![
            PathBlock { first_path: 0, number_of_paths: 4 },
            PathBlock { first_path: 4, number_of_paths: 3 },
            PathBlock { first_path: 7, number_of_paths: 3 },
        ]
    );
}

#[test]
fn partition_with_more_workers_than_paths() {
    let blocks = partition_paths(2, 4);
    let sizes: Vec<usize> = blocks.iter().map(|b| b.number_of_paths).collect();
    let starts: Vec<usize> = blocks.iter().map(|b| b.first_path).collect();
    assert_eq!(sizes, vec![1, 1, 0, 0]);
    assert_eq!(starts, vec![0, 1, 2, 2]);
    let none = partition_paths(0, 2);
    assert_eq!(none[1], PathBlock { first_path: 0, number_of_paths: 0 });
}

#[test]
fn registry_creates_standard_payoffs() {
    let factory = PayoffFactory::instance().unwrap();
    assert_eq!(factory.create_payoff("call"), Ok(OptionType::Call));
    assert_eq!(factory.create_payoff("put"), Ok(OptionType::Put));
    assert!(factory.is_registered("call"));
    assert!(!factory.is_registered("digital"));
}

#[test]
fn registry_unknown_name_is_not_found() {
    let factory = PayoffFactory::instance().unwrap();
    assert_eq!(
        factory.create_payoff("digital"),
        Err(FactoryError::NotFound("digital".to_string()))
    );
}

#[test]
fn registry_refuses_duplicates() {
    let mut factory = PayoffFactory::new();
    assert_eq!(factory.register("call", OptionType::Put), Ok(()));
    assert_eq!(
        factory.register("call", OptionType::Call),
        Err(FactoryError::DuplicateError("call".to_string()))
    );
    assert_eq!(factory.create_payoff("call"), Ok(OptionType::Put));
}

#[test]
fn registration_error_keeps_its_cause() {
    let e = RegistrationError::new(ErrorType::DuplicateError("call".to_string()));
    assert_eq!(e.error_type, ErrorType::DuplicateError("call".to_string()));
    let p = RegistrationError::new(ErrorType::PoisonError("lock".to_string()));
    assert!(matches!(p.error_type, ErrorType::PoisonError(_)));
}
