use evalcheck::composite::Composition;
use evalcheck::oracle::{Error, MultilinearOracleSet, MultilinearPolyOracle, MultilinearPolyVariant};

#[test]
fn committed_oracles_get_their_index_as_handle() {
    let mut oracles = MultilinearOracleSet::new();
    assert_eq!(oracles.size(), 0);
    let a = oracles.add_committed(5, 0);
    let b = oracles.add_committed(7, 3);
    assert_eq!((a, b), (0, 1));
    assert_eq!(oracles.size(), 2);
    assert!(oracles.is_valid_oracle_id(1));
    assert!(!oracles.is_valid_oracle_id(2));
    assert_eq!(oracles.n_vars(a), 5);
    assert_eq!(oracles.n_vars(b), 7);
    assert_eq!(oracles.tower_level(b), 3);
    let record = oracles.oracle(b);
    assert_eq!(record.id(), 1);
    assert_eq!(record.n_vars(), 7);
    assert_eq!(record.binary_tower_level(), 3);
    assert!(record.is_committed());
    assert_eq!(record.variant, MultilinearPolyVariant::Committed);
    assert!(record.inner.is_empty());
    assert_eq!(oracles[a].n_vars(), 5);
    assert_eq!(oracles[b].id(), 1);
}

#[test]
fn cloned_descriptor_is_the_same() {
    let record = MultilinearPolyOracle {
        id: 4,
        n_vars: 6,
        tower_level: 2,
        variant: MultilinearPolyVariant::Shifted,
        inner: vec![3],
    };
    let copy = record.clone();
    assert_eq!(copy.id, 4);
    assert_eq!(copy.n_vars, 6);
    assert_eq!(copy.tower_level, 2);
    assert_eq!(copy.variant, MultilinearPolyVariant::Shifted);
    assert_eq!(copy.inner, vec![3]);
    assert!(!copy.is_committed());
}

#[test]
fn composite_is_registered_with_the_greatest_tower_level() {
    let mut oracles = MultilinearOracleSet::new();
    let a = oracles.add_committed(4, 1);
    let b = oracles.add_committed(4, 5);
    let composition = Composition { n_vars: 3, degree: 2, tower_level: 3 };
    let c = oracles.add_composite(4, vec![a, b, a], composition).unwrap();
    assert_eq!(c, 2);
    let record = oracles.oracle(c);
    assert_eq!(record.n_vars(), 4);
    assert_eq!(record.binary_tower_level(), 5);
    assert_eq!(record.variant, MultilinearPolyVariant::Composite(composition));
    assert_eq!(record.inner, vec![a, b, a]);

    let low = oracles.add_composite(4, vec![a, a, a], composition).unwrap();
    assert_eq!(oracles.tower_level(low), 3);
}

#[test]
fn composite_registration_fails_as_the_construction_does() {
    let mut oracles = MultilinearOracleSet::new();
    let a = oracles.add_committed(4, 1);
    let b = oracles.add_committed(3, 1);
    let composition = Composition { n_vars: 2, degree: 2, tower_level: 0 };
    assert_eq!(oracles.add_composite(4, vec![a], composition), Err(Error::CompositionMismatch));
    assert_eq!(
        oracles.add_composite(4, vec![a, b], composition),
        Err(Error::IncorrectNumberOfVariables { expected: 4 })
    );
    assert_eq!(
        oracles.add_composite(4, vec![a, 9], composition),
        Err(Error::InvalidOracleId { id: 9 })
    );
    assert_eq!(
        oracles.add_composite(4, vec![7, 9, a], composition),
        Err(Error::InvalidOracleId { id: 7 })
    );
    assert_eq!(oracles.size(), 2);
}

#[test]
fn an_oracle_cannot_name_itself() {
    let mut oracles = MultilinearOracleSet::new();
    let composition = Composition { n_vars: 1, degree: 1, tower_level: 0 };
    assert_eq!(oracles.add_composite(4, vec![0], composition), Err(Error::InvalidOracleId { id: 0 }));
    assert_eq!(oracles.add_shifted(0), Err(Error::InvalidOracleId { id: 0 }));
    assert_eq!(oracles.size(), 0);
}

#[test]
fn shifted_keeps_variables_and_level() {
    let mut oracles = MultilinearOracleSet::new();
    let a = oracles.add_committed(6, 2);
    let s = oracles.add_shifted(a).unwrap();
    let record = oracles.oracle(s);
    assert_eq!(record.n_vars(), 6);
    assert_eq!(record.binary_tower_level(), 2);
    assert_eq!(record.variant, MultilinearPolyVariant::Shifted);
    assert_eq!(record.inner, vec![a]);
    assert_eq!(oracles.add_shifted(5), Err(Error::InvalidOracleId { id: 5 }));
}

#[test]
fn packed_trades_variables_for_levels() {
    let mut oracles = MultilinearOracleSet::new();
    let a = oracles.add_committed(6, 2);
    let p = oracles.add_packed(a, 4).unwrap();
    let record = oracles.oracle(p);
    assert_eq!(record.n_vars(), 2);
    assert_eq!(record.binary_tower_level(), 6);
    assert_eq!(record.variant, MultilinearPolyVariant::Packed);
    assert_eq!(record.inner, vec![a]);

    let whole = oracles.add_packed(a, 6).unwrap();
    assert_eq!(oracles.n_vars(whole), 0);
    assert_eq!(oracles.tower_level(whole), 8);
    let same = oracles.add_packed(a, 0).unwrap();
    assert_eq!(oracles.n_vars(same), 6);
    assert_eq!(oracles.tower_level(same), 2);

    assert_eq!(oracles.add_packed(a, 7), Err(Error::IncorrectNumberOfVariables { expected: 7 }));
    assert_eq!(oracles.add_packed(17, 1), Err(Error::InvalidOracleId { id: 17 }));
}

#[test]
fn packed_level_that_does_not_fit_is_refused() {
    let mut oracles = MultilinearOracleSet::new();
    let a = oracles.add_committed(6, usize::MAX - 2);
    assert_eq!(oracles.add_packed(a, 3), Err(Error::TowerLevelOverflow));
    let p = oracles.add_packed(a, 2).unwrap();
    assert_eq!(oracles.tower_level(p), usize::MAX);
    assert_eq!(oracles.size(), 2);
}

#[test]
fn projected_drops_variables_and_keeps_the_level() {
    let mut oracles = MultilinearOracleSet::new();
    let a = oracles.add_committed(6, 2);
    let p = oracles.add_projected(a, 2).unwrap();
    let record = oracles.oracle(p);
    assert_eq!(record.n_vars(), 4);
    assert_eq!(record.binary_tower_level(), 2);
    assert_eq!(record.variant, MultilinearPolyVariant::Projected);
    assert_eq!(record.inner, vec![a]);
    assert_eq!(oracles.add_projected(a, 7), Err(Error::IncorrectNumberOfVariables { expected: 7 }));
    assert_eq!(oracles.add_projected(3, 0), Err(Error::InvalidOracleId { id: 3 }));
}

#[test]
fn linear_combination_takes_the_greatest_level() {
    let mut oracles = MultilinearOracleSet::new();
    let a = oracles.add_committed(3, 2);
    let b = oracles.add_committed(3, 6);
    let c = oracles.add_committed(2, 0);
    let lc = oracles.add_linear_combination(3, vec![a, b]).unwrap();
    let record = oracles.oracle(lc);
    assert_eq!(record.n_vars(), 3);
    assert_eq!(record.binary_tower_level(), 6);
    assert_eq!(record.variant, MultilinearPolyVariant::LinearCombination);
    assert_eq!(record.inner, vec![a, b]);

    let none = oracles.add_linear_combination(3, vec![]).unwrap();
    assert_eq!(oracles.tower_level(none), 0);
    assert_eq!(
        oracles.add_linear_combination(3, vec![a, c]),
        Err(Error::IncorrectNumberOfVariables { expected: 3 })
    );
    assert_eq!(
        oracles.add_linear_combination(3, vec![a, 40]),
        Err(Error::InvalidOracleId { id: 40 })
    );
}
