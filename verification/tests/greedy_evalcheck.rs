use evalcheck::claim::{ConstraintSet, ConstraintSetEqIndPoint, EvalcheckMultilinearClaim};
use evalcheck::composite::Composition;
use evalcheck::evalcheck::Error;
use evalcheck::field::Field;
use evalcheck::greedy_evalcheck::{
    prove, DriverState, GreedyEvalcheckDriver, ProveError, SumcheckEngine,
};
use evalcheck::memoized::MemoizedData;
use evalcheck::oracle::{MultilinearOracleSet, MultilinearPolyVariant, OracleId};

/// The binary tower field of 256 elements: addition is exclusive or, and
/// each level of the tower adjoins a root of `x^2 + a x + 1`, where `a` is
/// the root adjoined one level below.
#[derive(Clone, Copy, Debug, PartialEq, Eq)]
struct Tower8(u8);

fn tower_mul(a: u8, b: u8, bits: u32) -> u8 {
    if bits == 1 {
        return a & b;
    }
    let half = bits / 2;
    let mask = (1u8 << half) - 1;
    let (a0, a1) = (a & mask, a >> half);
    let (b0, b1) = (b & mask, b >> half);
    let z0 = tower_mul(a0, b0, half);
    let z2 = tower_mul(a1, b1, half);
    let z1 = tower_mul(a0 ^ a1, b0 ^ b1, half) ^ z0 ^ z2;
    let alpha = if half == 1 { 1 } else { 1u8 << (half / 2) };
    let hi = z1 ^ tower_mul(z2, alpha, half);
    let lo = z0 ^ z2;
    lo | (hi << half)
}

impl Tower8 {
    fn plus(self, rhs: Self) -> Self {
        Tower8(self.0 ^ rhs.0)
    }
}

impl Field for Tower8 {
    fn mul_spec(self, rhs: Self) -> Self {
        self.times(rhs)
    }

    fn times(self, rhs: Self) -> Self {
        Tower8(tower_mul(self.0, rhs.0, 8))
    }

    fn same(self, rhs: Self) -> bool {
        self.0 == rhs.0
    }

    fn lemma_mul_associative(_a: Self, _b: Self, _c: Self) {}
}

/// The value at `point` of the multilinear polynomial with the values
/// `table` on the boolean hypercube.
fn evaluate(table: &[Tower8], point: &[Tower8]) -> Tower8 {
    assert_eq!(table.len(), 1 << point.len());
    let mut acc = Tower8(0);
    for (x, value) in table.iter().enumerate() {
        let mut weight = Tower8(1);
        for (i, p) in point.iter().enumerate() {
            let factor = if (x >> i) & 1 == 1 { *p } else { p.plus(Tower8(1)) };
            weight = weight.times(factor);
        }
        acc = acc.plus(weight.times(*value));
    }
    acc
}

fn point(coordinates: &[u8]) -> Vec<Tower8> {
    coordinates.iter().map(|v| Tower8(*v)).collect()
}

fn claim(id: usize, at: &[u8], eval: u8) -> EvalcheckMultilinearClaim<Tower8> {
    EvalcheckMultilinearClaim { id, eval_point: point(at), eval: Tower8(eval) }
}

fn as_tuples(claims: &[EvalcheckMultilinearClaim<Tower8>]) -> Vec<(usize, Vec<u8>, u8)> {
    claims
        .iter()
        .map(|c| (c.id, c.eval_point.iter().map(|x| x.0).collect(), c.eval.0))
        .collect()
}

/// An engine that answers every constraint with one claim for each oracle
/// that the constraint is over, at the point of the constraint cut or padded
/// to the variables of that oracle. Values come from `tables` where there is
/// one, and are 0 else. It writes every value that it claims to the
/// transcript.
struct TableEngine<'a> {
    oracles: &'a MultilinearOracleSet,
    tables: Vec<(OracleId, Vec<Tower8>)>,
    fail_at_call: Option<usize>,
    calls: usize,
}

impl<'a> TableEngine<'a> {
    fn new(oracles: &'a MultilinearOracleSet) -> Self {
        TableEngine { oracles, tables: Vec::new(), fail_at_call: None, calls: 0 }
    }

    fn answer(
        &mut self,
        constraint: &ConstraintSet<Tower8>,
        transcript: &mut Vec<u8>,
    ) -> Vec<EvalcheckMultilinearClaim<Tower8>> {
        let mut out = Vec::new();
        for id in &constraint.oracle_ids {
            let mut at = constraint.eval_point.clone();
            at.resize(self.oracles.n_vars(*id), Tower8(transcript.len() as u8));
            let eval = match self.tables.iter().find(|(known, _)| known == id) {
                Some((_, table)) => evaluate(table, &at),
                None => Tower8(0),
            };
            transcript.push(eval.0);
            out.push(EvalcheckMultilinearClaim { id: *id, eval_point: at, eval });
        }
        out
    }

    fn count(&mut self) -> Result<(), String> {
        self.calls += 1;
        if self.fail_at_call == Some(self.calls) {
            Err(format!("sumcheck {} failed", self.calls))
        } else {
            Ok(())
        }
    }
}

impl<'a> SumcheckEngine<Tower8> for TableEngine<'a> {
    type Transcript = Vec<u8>;
    type Error = String;

    fn reduce_bivariate_sumchecks(
        &mut self,
        constraints: &Vec<ConstraintSet<Tower8>>,
        transcript: &mut Vec<u8>,
    ) -> Result<Vec<EvalcheckMultilinearClaim<Tower8>>, String> {
        self.count()?;
        let mut out = Vec::new();
        for constraint in constraints {
            out.extend(self.answer(constraint, transcript));
        }
        Ok(out)
    }

    fn reduce_mlecheck(
        &mut self,
        constraint: &ConstraintSetEqIndPoint<Tower8>,
        _memoized_data: &MemoizedData<Tower8>,
        transcript: &mut Vec<u8>,
    ) -> Result<Vec<EvalcheckMultilinearClaim<Tower8>>, String> {
        self.count()?;
        assert_eq!(constraint.eq_ind_challenges, constraint.constraint_set.eval_point);
        Ok(self.answer(&constraint.constraint_set, transcript))
    }
}

/// An engine that answers with claims set beforehand, whatever is asked.
struct FixedEngine {
    answers: Vec<EvalcheckMultilinearClaim<Tower8>>,
}

impl SumcheckEngine<Tower8> for FixedEngine {
    type Transcript = Vec<u8>;
    type Error = String;

    fn reduce_bivariate_sumchecks(
        &mut self,
        _constraints: &Vec<ConstraintSet<Tower8>>,
        _transcript: &mut Vec<u8>,
    ) -> Result<Vec<EvalcheckMultilinearClaim<Tower8>>, String> {
        Ok(self.answers.clone())
    }

    fn reduce_mlecheck(
        &mut self,
        _constraint: &ConstraintSetEqIndPoint<Tower8>,
        _memoized_data: &MemoizedData<Tower8>,
        _transcript: &mut Vec<u8>,
    ) -> Result<Vec<EvalcheckMultilinearClaim<Tower8>>, String> {
        Ok(self.answers.clone())
    }
}

const L_TABLE: [u8; 8] = [3, 1, 4, 1, 5, 9, 2, 6];

fn l_table() -> Vec<Tower8> {
    L_TABLE.iter().map(|v| Tower8(*v)).collect()
}

/// The composition `x0 * x1 + 125 * x2`.
fn byte_composition() -> Composition {
    Composition { n_vars: 3, degree: 2, tower_level: 3 }
}

fn compose(x0: Tower8, x1: Tower8, x2: Tower8) -> Tower8 {
    x0.times(x1).plus(Tower8(125).times(x2))
}

#[test]
fn tower_multiplication_is_a_field_multiplication() {
    for a in 0..=255u8 {
        assert_eq!(tower_mul(a, 1, 8), a);
        assert_eq!(tower_mul(a, 0, 8), 0);
        if a != 0 {
            assert!((1..=255u8).any(|b| tower_mul(a, b, 8) == 1));
        }
    }
    for a in (0..=255u8).step_by(7) {
        for b in (0..=255u8).step_by(11) {
            assert_eq!(tower_mul(a, b, 8), tower_mul(b, a, 8));
            for c in (0..=255u8).step_by(13) {
                assert_eq!(
                    tower_mul(tower_mul(a, b, 8), c, 8),
                    tower_mul(a, tower_mul(b, c, 8), 8)
                );
                assert_eq!(tower_mul(a, b ^ c, 8), tower_mul(a, b, 8) ^ tower_mul(a, c, 8));
            }
        }
    }
}

#[test]
fn composite_over_one_leaf_resolves_to_one_leaf_claim() {
    let mut oracles = MultilinearOracleSet::new();
    let l = oracles.add_committed(3, 3);
    let c = oracles.add_composite(3, vec![l, l, l], byte_composition()).unwrap();

    let p = point(&[17, 200, 99]);
    let l_at_p = evaluate(&l_table(), &p);
    let v = compose(l_at_p, l_at_p, l_at_p);

    let mut engine = TableEngine::new(&oracles);
    engine.tables.push((l, l_table()));
    let mut transcript = Vec::new();
    let top = EvalcheckMultilinearClaim { id: c, eval_point: p.clone(), eval: v };
    let out = prove(&oracles, vec![top], &mut transcript, &mut engine).unwrap();

    assert_eq!(out.eval_claims.len(), 1);
    assert_eq!(out.eval_claims[0].id, l);
    assert_eq!(out.eval_claims[0].eval_point, p);
    assert_eq!(out.eval_claims[0].eval, l_at_p);
    assert_eq!(engine.calls, 1);
    assert_eq!(transcript, vec![l_at_p.0; 3]);
    assert_eq!(out.memoized_data.get(c, &p), Some(v));
    assert_eq!(out.memoized_data.get(l, &p), Some(l_at_p));
    assert_eq!(out.memoized_data.len(), 2);
}

#[test]
fn composite_over_three_leaves_resolves_to_three_leaf_claims() {
    let mut oracles = MultilinearOracleSet::new();
    let l0 = oracles.add_committed(3, 3);
    let l1 = oracles.add_committed(3, 3);
    let l2 = oracles.add_committed(3, 3);
    let c = oracles.add_composite(3, vec![l0, l1, l2], byte_composition()).unwrap();

    let tables: Vec<Vec<Tower8>> = (0..3u8)
        .map(|k| L_TABLE.iter().map(|v| Tower8(v.wrapping_mul(k + 3) ^ k)).collect())
        .collect();
    let p = point(&[1, 2, 250]);
    let evals: Vec<Tower8> = tables.iter().map(|t| evaluate(t, &p)).collect();
    let v = compose(evals[0], evals[1], evals[2]);

    let mut engine = TableEngine::new(&oracles);
    for (id, table) in [l0, l1, l2].iter().zip(tables.iter()) {
        engine.tables.push((*id, table.clone()));
    }
    let mut transcript = Vec::new();
    let top = EvalcheckMultilinearClaim { id: c, eval_point: p.clone(), eval: v };
    let out = prove(&oracles, vec![top], &mut transcript, &mut engine).unwrap();

    assert_eq!(
        as_tuples(&out.eval_claims),
        vec![
            (l0, vec![1, 2, 250], evals[0].0),
            (l1, vec![1, 2, 250], evals[1].0),
            (l2, vec![1, 2, 250], evals[2].0),
        ]
    );
}

#[test]
fn multilinear_evaluation_at_a_corner_is_the_table_entry() {
    for x in 0..8usize {
        let corner: Vec<Tower8> = (0..3).map(|i| Tower8(((x >> i) & 1) as u8)).collect();
        assert_eq!(evaluate(&l_table(), &corner), Tower8(L_TABLE[x]));
    }
}

/// Leaf 0 (four variables); 1 = 0 shifted; 2 = 1 projected by one;
/// 3 = 2 packed by one; 4 = composite of 3, 3; leaf 5 (two variables);
/// 6 = linear combination of 4, 5: a graph of depth 5.
fn deep_oracles() -> MultilinearOracleSet {
    let mut oracles = MultilinearOracleSet::new();
    oracles.add_committed(4, 0);
    oracles.add_shifted(0).unwrap();
    oracles.add_projected(1, 1).unwrap();
    oracles.add_packed(2, 1).unwrap();
    let square = Composition { n_vars: 2, degree: 2, tower_level: 0 };
    oracles.add_composite(2, vec![3, 3], square).unwrap();
    oracles.add_committed(2, 0);
    oracles.add_linear_combination(2, vec![4, 5]).unwrap();
    oracles
}

#[test]
fn reduction_ends_within_the_depth_of_the_graph() {
    let oracles = deep_oracles();
    for top in 0..7usize {
        let depth = [0usize, 1, 2, 3, 4, 0, 5][top];
        let n_vars = oracles.n_vars(top);
        let at: Vec<u8> = (0..n_vars as u8).map(|i| i + 40).collect();
        let mut engine = TableEngine::new(&oracles);
        let mut transcript = Vec::new();
        let mut driver = GreedyEvalcheckDriver::new(&oracles, vec![claim(top, &at, 0)]).unwrap();
        assert_eq!(driver.state(), DriverState::Seeded);
        let mut handed = 0;
        while driver.state() != DriverState::Fixpoint {
            let mut new_claims = Vec::new();
            if !driver.bivariate_sumchecks_constraints().is_empty() {
                new_claims.extend(
                    engine
                        .reduce_bivariate_sumchecks(
                            driver.bivariate_sumchecks_constraints(),
                            &mut transcript,
                        )
                        .unwrap(),
                );
            }
            for unit in driver.mlechecks_constraints() {
                new_claims.extend(
                    engine.reduce_mlecheck(unit, driver.memoized_data(), &mut transcript).unwrap(),
                );
            }
            driver.advance(new_claims).unwrap();
            handed += 1;
            assert!(handed <= depth + 1);
        }
        assert_eq!(driver.rounds(), depth);
        assert_eq!(handed, depth + 1);
        assert!(driver.bivariate_sumchecks_constraints().is_empty());
        assert!(driver.mlechecks_constraints().is_empty());
        let out = driver.finish();
        assert!(!out.eval_claims.is_empty());
        for c in &out.eval_claims {
            assert_eq!(oracles.oracle(c.id).variant, MultilinearPolyVariant::Committed);
            assert_eq!(c.eval_point.len(), oracles.n_vars(c.id));
        }
    }
}

#[test]
fn reduction_of_the_deep_graph_leaves_its_two_leaves() {
    let oracles = deep_oracles();
    let mut engine = TableEngine::new(&oracles);
    let mut transcript = Vec::new();
    let out = prove(&oracles, vec![claim(6, &[8, 9], 0)], &mut transcript, &mut engine).unwrap();
    let ids: Vec<usize> = out.eval_claims.iter().map(|c| c.id).collect();
    assert_eq!(ids, vec![5, 0]);
    assert_eq!(out.eval_claims[0].eval_point, point(&[8, 9]));
    assert_eq!(out.eval_claims[1].eval_point.len(), 4);
    assert_eq!(engine.calls, 5);
    assert_eq!(out.memoized_data.len(), 7);
}

#[test]
fn claims_on_leaves_alone_need_no_round() {
    let oracles = deep_oracles();
    let mut engine = TableEngine::new(&oracles);
    let mut transcript = Vec::new();
    let claims = vec![claim(5, &[1, 2], 3), claim(0, &[1, 2, 3, 4], 5), claim(5, &[1, 2], 3)];
    let out = prove(&oracles, claims, &mut transcript, &mut engine).unwrap();
    assert_eq!(as_tuples(&out.eval_claims), vec![(5, vec![1, 2], 3), (0, vec![1, 2, 3, 4], 5)]);
    assert_eq!(engine.calls, 0);
    assert!(transcript.is_empty());

    let mut driver =
        GreedyEvalcheckDriver::new(&oracles, vec![claim(5, &[1, 2], 3)]).unwrap();
    assert_eq!(driver.state(), DriverState::Seeded);
    driver.advance(vec![]).unwrap();
    assert_eq!(driver.state(), DriverState::Fixpoint);
    assert_eq!(driver.rounds(), 0);
}

#[test]
fn no_claim_at_all_leaves_nothing() {
    let oracles = deep_oracles();
    let mut engine = TableEngine::new(&oracles);
    let mut transcript = Vec::new();
    let out = prove(&oracles, vec![], &mut transcript, &mut engine).unwrap();
    assert!(out.eval_claims.is_empty());
    assert_eq!(out.memoized_data.len(), 0);
}

#[test]
fn same_inputs_give_the_same_transcript_and_claims() {
    let oracles = deep_oracles();
    let run = || {
        let mut engine = TableEngine::new(&oracles);
        engine.tables.push((5, point(&[7, 8, 9, 10])));
        engine.tables.push((0, (0..16u8).map(|v| Tower8(v.wrapping_mul(29))).collect()));
        let mut transcript = vec![0xAAu8];
        let five_at = evaluate(&point(&[7, 8, 9, 10]), &point(&[8, 9]));
        let claims = vec![claim(6, &[8, 9], 0), claim(4, &[3, 3], 1), claim(5, &[8, 9], five_at.0)];
        let out = prove(&oracles, claims, &mut transcript, &mut engine).unwrap();
        (transcript, as_tuples(&out.eval_claims), as_tuples(&out.memoized_data.entries()))
    };
    let first = run();
    let second = run();
    assert_eq!(first, second);
    assert!(first.0.len() > 1);
    assert!(!first.1.is_empty());
}

#[test]
fn unexpected_claim_from_the_engine_is_an_error() {
    let oracles = deep_oracles();
    let mut transcript = Vec::new();
    // The composite 4 is over the oracle 3 alone; the engine answers on 2.
    let mut engine = FixedEngine { answers: vec![claim(2, &[1, 2, 3], 0)] };
    let r = prove(&oracles, vec![claim(4, &[3, 3], 1)], &mut transcript, &mut engine);
    assert!(matches!(r, Err(ProveError::Evalcheck(Error::UnexpectedClaim { id: 2 }))));

    // A claim on the oracle that was reduced is unexpected as well.
    let mut engine = FixedEngine { answers: vec![claim(3, &[3, 3], 1), claim(4, &[3, 3], 1)] };
    let r = prove(&oracles, vec![claim(4, &[3, 3], 1)], &mut transcript, &mut engine);
    assert!(matches!(r, Err(ProveError::Evalcheck(Error::UnexpectedClaim { id: 4 }))));

    let mut driver = GreedyEvalcheckDriver::new(&oracles, vec![claim(4, &[3, 3], 1)]).unwrap();
    assert_eq!(driver.advance(vec![claim(5, &[3, 3], 1)]), Err(Error::UnexpectedClaim { id: 5 }));
    assert_eq!(driver.state(), DriverState::Seeded);
    assert_eq!(driver.rounds(), 0);
    assert_eq!(driver.mlechecks_constraints().len(), 1);
}

#[test]
fn malformed_claim_from_the_engine_is_an_error() {
    let oracles = deep_oracles();
    let mut transcript = Vec::new();
    let mut engine = FixedEngine { answers: vec![claim(3, &[3, 3, 3], 1)] };
    let r = prove(&oracles, vec![claim(4, &[3, 3], 1)], &mut transcript, &mut engine);
    assert!(matches!(
        r,
        Err(ProveError::Evalcheck(Error::IncorrectEvalPointLength { id: 3, expected: 2, actual: 3 }))
    ));

    let mut engine = FixedEngine { answers: vec![claim(3, &[3, 3], 1), claim(3, &[3, 3], 2)] };
    let r = prove(&oracles, vec![claim(4, &[3, 3], 1)], &mut transcript, &mut engine);
    assert!(matches!(r, Err(ProveError::Evalcheck(Error::ConflictingEvaluation { id: 3 }))));
}

#[test]
fn malformed_initial_claim_is_an_error() {
    let oracles = deep_oracles();
    let mut transcript = Vec::new();
    let mut engine = TableEngine::new(&oracles);
    let r = prove(&oracles, vec![claim(4, &[3], 1)], &mut transcript, &mut engine);
    assert!(matches!(
        r,
        Err(ProveError::Evalcheck(Error::IncorrectEvalPointLength { id: 4, expected: 2, actual: 1 }))
    ));
    let r = prove(&oracles, vec![claim(7, &[3], 1)], &mut transcript, &mut engine);
    assert!(matches!(r, Err(ProveError::Evalcheck(Error::UnknownOracle { id: 7 }))));
    assert_eq!(engine.calls, 0);
    assert!(GreedyEvalcheckDriver::new(&oracles, vec![claim(7, &[3], 1)]).is_err());
}

#[test]
fn failure_of_the_engine_is_handed_on() {
    let oracles = deep_oracles();
    for failing in 1..=5usize {
        let mut engine = TableEngine::new(&oracles);
        engine.fail_at_call = Some(failing);
        let mut transcript = Vec::new();
        let r = prove(&oracles, vec![claim(6, &[8, 9], 0)], &mut transcript, &mut engine);
        match r {
            Err(ProveError::Sumcheck(message)) => {
                assert_eq!(message, format!("sumcheck {} failed", failing))
            },
            _ => panic!("the failure of the engine was not handed on"),
        }
        assert_eq!(engine.calls, failing);
    }
}

#[test]
fn claims_at_the_fixpoint_are_an_error() {
    let oracles = deep_oracles();
    let mut driver = GreedyEvalcheckDriver::new(&oracles, vec![claim(1, &[1, 2, 3, 4], 0)]).unwrap();
    assert_eq!(driver.bivariate_sumchecks_constraints().len(), 1);
    driver.advance(vec![claim(0, &[1, 2, 3, 4], 9)]).unwrap();
    assert_eq!(driver.state(), DriverState::Reducing);
    assert_eq!(driver.rounds(), 1);
    driver.advance(vec![]).unwrap();
    assert_eq!(driver.state(), DriverState::Fixpoint);
    assert_eq!(driver.advance(vec![]), Err(Error::NotReducing));
    assert_eq!(driver.advance(vec![claim(0, &[1, 2, 3, 4], 9)]), Err(Error::NotReducing));
    assert_eq!(driver.state(), DriverState::Fixpoint);
    assert_eq!(driver.rounds(), 1);
    let out = driver.finish();
    assert_eq!(as_tuples(&out.eval_claims), vec![(0, vec![1, 2, 3, 4], 9)]);
}

#[test]
fn a_round_without_claims_drops_the_pending_constraints() {
    let oracles = deep_oracles();
    let mut driver = GreedyEvalcheckDriver::new(&oracles, vec![claim(4, &[1, 2], 0)]).unwrap();
    assert_eq!(driver.mlechecks_constraints().len(), 1);
    driver.advance(vec![]).unwrap();
    assert_eq!(driver.state(), DriverState::Fixpoint);
    assert!(driver.mlechecks_constraints().is_empty());
    assert!(driver.finish().eval_claims.is_empty());
}
