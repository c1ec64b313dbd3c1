//! The greedy reduction of evaluation claims: claims on virtual oracles are
//! reduced, round by round, to claims on their inner oracles, until only
//! claims on committed oracles are left.

use vstd::prelude::*;
use crate::claim::{
    claims_of, constraints_of, eq_ind_constraints_of, ClaimSpec, ConstraintSet,
    ConstraintSetEqIndPoint, EvalcheckMultilinearClaim,
};
use crate::evalcheck::{
    claim_on_leaf, claims_within, consistent, drained, extends, first_unawaited, initial,
    lemma_awaited_is_shallower, lemma_first_unawaited, lemma_run, lemma_run_error, run, within,
    Error,
    EvalcheckProver, ProverSpec,
};
use crate::field::Field;
use crate::memoized::{distinct_keys, MemoizedData};
use crate::oracle::{
    depth, graph_depth, lemma_depth_within_graph, lemma_graph_depth_at_most, well_formed,
    MultilinearOracleSet, OracleSpec,
};

verus! {

/// Where a reduction stands.
#[derive(Clone, Copy, Debug, PartialEq, Eq, Structural)]
pub enum DriverState {
    /// The initial claims are taken; no round of reduction has been made.
    Seeded,
    /// At least one round of reduction has been made, and the last one
    /// brought new claims.
    Reducing,
    /// A round brought no new claim: the reduction is over.
    Fixpoint,
}

/// The state of a reduction.
pub struct DriverSpec<F: Field> {
    pub state: DriverState,
    /// How many rounds brought new claims.
    pub rounds: usize,
    pub prover: ProverSpec<F>,
}

/// What the claims that a round of reduction brought make of the state.
///
/// At the fixpoint they are an error. No claim at all ends the reduction.
/// A claim on an oracle that no pending constraint is over is an error, and
/// nothing changes. Else the pending constraints are dropped as reduced and
/// the claims are taken in order; where they are all taken the round is
/// counted.
pub open spec fn advanced<F: Field>(oracles: Seq<OracleSpec>, d: DriverSpec<F>, claims: Seq<ClaimSpec<F>>) -> (
    DriverSpec<F>,
    Option<Error>,
) {
    if d.state == DriverState::Fixpoint {
        (d, Some(Error::NotReducing))
    } else if claims.len() == 0 {
        (DriverSpec { state: DriverState::Fixpoint, rounds: d.rounds, prover: drained(d.prover) }, None)
    } else {
        match first_unawaited(d.prover, claims) {
            Some(id) => (d, Some(Error::UnexpectedClaim { id })),
            None => {
                let (prover, failed) = run(oracles, drained(d.prover), claims);
                let rounds = if failed is None && d.rounds < usize::MAX {
                    (d.rounds + 1) as usize
                } else {
                    d.rounds
                };
                (DriverSpec { state: DriverState::Reducing, rounds, prover }, failed)
            },
        }
    }
}

/// The transitions of the machine. The fixpoint is final: claims handed in
/// there are an error and change nothing. From the other states a round
/// without claims leads to the fixpoint, and a round whose claims are all
/// taken leads to `Reducing`. No round leads back to `Seeded`, and the count
/// of rounds never falls.
pub proof fn lemma_transitions<F: Field>(oracles: Seq<OracleSpec>, d: DriverSpec<F>, claims: Seq<ClaimSpec<F>>)
    ensures
        d.state == DriverState::Fixpoint ==> advanced(oracles, d, claims) == (
            d,
            Some(Error::NotReducing),
        ),
        d.state != DriverState::Fixpoint && claims.len() == 0 ==> advanced(oracles, d, claims).0.state
            == DriverState::Fixpoint && advanced(oracles, d, claims).1 is None,
        d.state != DriverState::Fixpoint && claims.len() > 0 && advanced(oracles, d, claims).1
            is None ==> advanced(oracles, d, claims).0.state == DriverState::Reducing,
        advanced(oracles, d, claims).0.state == DriverState::Seeded ==> d.state
            == DriverState::Seeded && advanced(oracles, d, claims).0 == d,
        advanced(oracles, d, claims).0.rounds >= d.rounds,
{
}

/// Whether a reduction over `oracles` is on its way from initial claims on
/// oracles of depth `bound` at most: its prover is in a consistent state,
/// and each round so far has lowered by one at least the depth of the
/// deepest oracle with a pending constraint.
pub open spec fn on_course<F: Field>(oracles: Seq<OracleSpec>, d: DriverSpec<F>, bound: nat) -> bool {
    &&& consistent(oracles, d.prover)
    &&& d.rounds <= bound
    &&& within(oracles, d.prover, bound - d.rounds)
}

/// A reduction starts on course: the state after the initial claims is
/// consistent, no round is made, and no pending constraint is for an oracle
/// deeper than the deepest oracle of an initial claim, nor deeper than the
/// graph.
pub proof fn lemma_seeded_on_course<F: Field>(oracles: Seq<OracleSpec>, claims: Seq<ClaimSpec<F>>, bound: nat)
    requires
        claims_within(oracles, claims, bound as int),
    ensures
        on_course(
            oracles,
            DriverSpec {
                state: DriverState::Seeded,
                rounds: 0,
                prover: run(oracles, initial::<F>(), claims).0,
            },
            bound,
        ),
{
    lemma_run(oracles, initial::<F>(), claims, bound as int);
}

/// Every claim is on an oracle no deeper than the graph.
pub proof fn lemma_claims_within_graph<F: Field>(oracles: Seq<OracleSpec>, claims: Seq<ClaimSpec<F>>)
    ensures
        claims_within(oracles, claims, graph_depth(oracles) as int),
{
    assert forall|i: int| 0 <= i < claims.len() implies depth(oracles, (#[trigger] claims[i]).id as int)
        <= graph_depth(oracles) by {
        lemma_depth_within_graph(oracles, claims[i].id as int);
    }
}

/// A round keeps a reduction on course, so the rounds that bring new claims
/// are never more than the depth that it started from. A round that takes
/// all of its claims is counted.
pub proof fn lemma_advanced_on_course<F: Field>(
    oracles: Seq<OracleSpec>,
    d: DriverSpec<F>,
    claims: Seq<ClaimSpec<F>>,
    bound: nat,
)
    requires
        well_formed(oracles),
        on_course(oracles, d, bound),
    ensures
        on_course(oracles, advanced(oracles, d, claims).0, bound),
        bound <= usize::MAX && d.state != DriverState::Fixpoint && claims.len() > 0 && advanced(
            oracles,
            d,
            claims,
        ).1 is None ==> advanced(oracles, d, claims).0.rounds == d.rounds + 1,
{
    if d.state != DriverState::Fixpoint && claims.len() > 0 && first_unawaited(d.prover, claims)
        is None {
        let lower = bound - d.rounds - 1;
        lemma_first_unawaited(d.prover, claims);
        assert(claims_within(oracles, claims, lower)) by {
            assert forall|i: int| 0 <= i < claims.len() implies depth(
                oracles,
                (#[trigger] claims[i]).id as int,
            ) <= lower by {
                lemma_awaited_is_shallower(oracles, d.prover, claims[i].id, bound - d.rounds);
            }
        }
        assert(depth(oracles, claims[0].id as int) <= lower);
        lemma_run(oracles, drained(d.prover), claims, lower);
    }
}

/// The state of a reduction that started from `claims` and was handed
/// `replies`, round by round. It is a function of these alone: two
/// reductions over the same oracles that are given the same claims stand in
/// the same state.
pub open spec fn course<F: Field>(
    oracles: Seq<OracleSpec>,
    claims: Seq<ClaimSpec<F>>,
    replies: Seq<Seq<ClaimSpec<F>>>,
) -> DriverSpec<F>
    decreases replies.len(),
{
    if replies.len() == 0 {
        DriverSpec {
            state: DriverState::Seeded,
            rounds: 0,
            prover: run(oracles, initial::<F>(), claims).0,
        }
    } else {
        advanced(oracles, course(oracles, claims, replies.drop_last()), replies.last()).0
    }
}

/// Whatever claims the rounds bring, a reduction over a well-formed set
/// counts no more rounds than the graph is deep, and its committed claims
/// are claims on committed oracles, no two of them for one oracle and point.
pub proof fn lemma_course<F: Field>(
    oracles: Seq<OracleSpec>,
    claims: Seq<ClaimSpec<F>>,
    replies: Seq<Seq<ClaimSpec<F>>>,
)
    requires
        well_formed(oracles),
    ensures
        on_course(oracles, course(oracles, claims, replies), graph_depth(oracles)),
        course(oracles, claims, replies).rounds <= graph_depth(oracles),
        leaf_claims(oracles, course(oracles, claims, replies).prover.committed),
    decreases replies.len(),
{
    if replies.len() == 0 {
        lemma_claims_within_graph(oracles, claims);
        lemma_seeded_on_course(oracles, claims, graph_depth(oracles));
    } else {
        lemma_course(oracles, claims, replies.drop_last());
        lemma_advanced_on_course(
            oracles,
            course(oracles, claims, replies.drop_last()),
            replies.last(),
            graph_depth(oracles),
        );
    }
}

/// Two reductions over the same oracles that start from the same claims and
/// are handed the same claims in every round stand in the same state: the
/// same committed claims, the same record, the same pending constraints and
/// the same count of rounds.
pub proof fn lemma_course_is_determined<F: Field>(
    oracles: Seq<OracleSpec>,
    claims: Seq<ClaimSpec<F>>,
    replies: Seq<Seq<ClaimSpec<F>>>,
    other_claims: Seq<ClaimSpec<F>>,
    other_replies: Seq<Seq<ClaimSpec<F>>>,
)
    requires
        claims.len() == other_claims.len(),
        forall|i: int| 0 <= i < claims.len() ==> claims[i] == other_claims[i],
        replies.len() == other_replies.len(),
        forall|r: int|
            0 <= r < replies.len() ==> (#[trigger] replies[r]).len() == other_replies[r].len(),
        forall|r: int, i: int|
            0 <= r < replies.len() && 0 <= i < replies[r].len() ==> (#[trigger] replies[r][i])
                == other_replies[r][i],
    ensures
        course(oracles, claims, replies) == course(oracles, other_claims, other_replies),
{
    assert(claims =~= other_claims);
    assert forall|r: int| 0 <= r < replies.len() implies replies[r] == other_replies[r] by {
        assert(replies[r] =~= other_replies[r]);
    }
    assert(replies =~= other_replies);
}

/// In a consistent state the committed claims are claims on committed
/// oracles, no two of them for one oracle and point, and each is on record.
pub proof fn lemma_committed_claims<F: Field>(oracles: Seq<OracleSpec>, st: ProverSpec<F>)
    requires
        consistent(oracles, st),
    ensures
        leaf_claims(oracles, st.committed),
        forall|i: int| 0 <= i < st.committed.len() ==> st.memo.contains(#[trigger] st.committed[i]),
{
}

/// Whether `claims` are claims on committed oracles of the set, each at a
/// point with as many coordinates as its oracle has variables, no two of
/// them for one oracle and point.
pub open spec fn leaf_claims<F: Field>(oracles: Seq<OracleSpec>, claims: Seq<ClaimSpec<F>>) -> bool {
    &&& forall|i: int| 0 <= i < claims.len() ==> claim_on_leaf(oracles, #[trigger] claims[i])
    &&& distinct_keys(claims)
}

/// The reduction as a machine that is handed, round by round, the claims
/// that reducing its pending constraints brought.
pub struct GreedyEvalcheckDriver<'a, F: Field> {
    prover: EvalcheckProver<'a, F>,
    state: DriverState,
    rounds: usize,
}

impl<'a, F: Field> View for GreedyEvalcheckDriver<'a, F> {
    type V = DriverSpec<F>;

    closed spec fn view(&self) -> DriverSpec<F> {
        DriverSpec { state: self.state, rounds: self.rounds, prover: self.prover@ }
    }
}

impl<'a, F: Field> GreedyEvalcheckDriver<'a, F> {
    /// The oracles that the reduction is over.
    pub closed spec fn oracles(&self) -> Seq<OracleSpec> {
        self.prover.oracles()
    }

    /// Starts a reduction over `oracles` with the initial claims.
    ///
    /// Fails with the error of the first claim that cannot be taken.
    pub fn new(oracles: &'a MultilinearOracleSet, claims: Vec<EvalcheckMultilinearClaim<F>>) -> (r: Result<
        Self,
        Error,
    >)
        ensures
            match r {
                Ok(driver) => {
                    &&& run(oracles@, initial::<F>(), claims_of(claims@)).1 is None
                    &&& driver.oracles() == oracles@
                    &&& driver@ == (DriverSpec {
                        state: DriverState::Seeded,
                        rounds: 0,
                        prover: run(oracles@, initial::<F>(), claims_of(claims@)).0,
                    })
                },
                Err(e) => run(oracles@, initial::<F>(), claims_of(claims@)).1 == Some(e),
            },
    {
        let mut prover = EvalcheckProver::new(oracles);
        match prover.prove(claims) {
            Ok(()) => Ok(GreedyEvalcheckDriver { prover, state: DriverState::Seeded, rounds: 0 }),
            Err(e) => Err(e),
        }
    }

    /// Where the reduction stands.
    pub fn state(&self) -> (r: DriverState)
        ensures
            r == self@.state,
    {
        self.state
    }

    /// How many rounds brought new claims.
    pub fn rounds(&self) -> (r: usize)
        ensures
            r == self@.rounds,
    {
        self.rounds
    }

    /// The constraints for bivariate sumchecks to reduce in this round.
    pub fn bivariate_sumchecks_constraints(&self) -> (r: &Vec<ConstraintSet<F>>)
        ensures
            constraints_of(r@) == self@.prover.bivariate,
    {
        self.prover.new_bivariate_sumchecks_constraints()
    }

    /// The constraints for checks against an equality indicator to reduce in
    /// this round.
    pub fn mlechecks_constraints(&self) -> (r: &Vec<ConstraintSetEqIndPoint<F>>)
        ensures
            eq_ind_constraints_of(r@) == self@.prover.mlechecks,
    {
        self.prover.new_mlechecks_constraints()
    }

    /// The record of the claims taken so far.
    pub fn memoized_data(&self) -> (r: &MemoizedData<F>)
        ensures
            r@ == self@.prover.memo,
    {
        self.prover.memoized_data()
    }

    /// Hands the machine the claims that reducing the pending constraints
    /// brought.
    pub fn advance(&mut self, new_claims: Vec<EvalcheckMultilinearClaim<F>>) -> (r: Result<(), Error>)
        ensures
            final(self).oracles() == old(self).oracles(),
            final(self)@ == advanced(old(self).oracles(), old(self)@, claims_of(new_claims@)).0,
            match advanced(old(self).oracles(), old(self)@, claims_of(new_claims@)).1 {
                Some(e) => r == Err::<(), Error>(e),
                None => r is Ok,
            },
    {
        if self.state == DriverState::Fixpoint {
            return Err(Error::NotReducing);
        }
        if new_claims.len() == 0 {
            let _ = self.prover.take_new_bivariate_sumchecks_constraints();
            let _ = self.prover.take_new_mlechecks_constraints();
            self.state = DriverState::Fixpoint;
            return Ok(());
        }
        if let Some(id) = self.prover.find_unawaited(&new_claims) {
            return Err(Error::UnexpectedClaim { id });
        }
        let _ = self.prover.take_new_bivariate_sumchecks_constraints();
        let _ = self.prover.take_new_mlechecks_constraints();
        let outcome = self.prover.prove(new_claims);
        self.state = DriverState::Reducing;
        if outcome.is_ok() && self.rounds < usize::MAX {
            self.rounds = self.rounds + 1;
        }
        outcome
    }

    /// Ends the reduction and hands out the committed claims and the record
    /// of all claims.
    pub fn finish(self) -> (r: GreedyEvalcheckProveOutput<F>)
        ensures
            claims_of(r.eval_claims@) == self@.prover.committed,
            r.memoized_data@ == self@.prover.memo,
    {
        let (eval_claims, memoized_data) = self.prover.finish();
        GreedyEvalcheckProveOutput { eval_claims, memoized_data }
    }
}

/// What a reduction leaves: the claims on committed oracles, to be opened,
/// and the record of all claims.
pub struct GreedyEvalcheckProveOutput<F: Field> {
    pub eval_claims: Vec<EvalcheckMultilinearClaim<F>>,
    pub memoized_data: MemoizedData<F>,
}

/// The engine that reduces constraints by sumcheck protocols.
///
/// It writes its messages to the transcript and draws its challenges from
/// it. Nothing is assumed of the claims that it returns.
pub trait SumcheckEngine<F: Field> {
    /// The transcript that the engine writes to.
    type Transcript;

    /// Why a reduction failed.
    type Error;

    /// Reduces a batch of constraints for bivariate sumchecks to claims on
    /// the oracles that they are over.
    fn reduce_bivariate_sumchecks(
        &mut self,
        constraints: &Vec<ConstraintSet<F>>,
        transcript: &mut Self::Transcript,
    ) -> (r: Result<Vec<EvalcheckMultilinearClaim<F>>, Self::Error>);

    /// Reduces one constraint for a check against an equality indicator to
    /// claims on the oracles that it is over.
    fn reduce_mlecheck(
        &mut self,
        constraint: &ConstraintSetEqIndPoint<F>,
        memoized_data: &MemoizedData<F>,
        transcript: &mut Self::Transcript,
    ) -> (r: Result<Vec<EvalcheckMultilinearClaim<F>>, Self::Error>);
}

/// Why a reduction failed.
#[derive(Debug)]
pub enum ProveError<E> {
    /// A claim could not be taken.
    Evalcheck(Error),
    /// The engine failed; its error is handed on as it came.
    Sumcheck(E),
}

/// Reduces `claims` over `oracles` to claims on committed oracles.
///
/// Takes the claims, then hands the pending constraints to `engine` and
/// takes the claims that come back, round after round, until a round brings
/// no claim. Every round lowers the depth of the deepest oracle with a
/// pending constraint, so the rounds that bring claims are at most as many
/// as the graph is deep, whatever the engine returns.
///
/// On success the claims left are claims on committed oracles, no two for one
/// oracle and point, and all on record; they begin with those among `claims`,
/// and are exactly those where `claims` leave no constraint pending.
///
/// Fails with the error of the first of `claims` that cannot be taken; with
/// the error of the engine, as it came; or with the error of a claim that
/// the engine brought and that cannot be taken: on an oracle that no
/// constraint reduced was over, at a point of wrong length, or against the
/// record.
pub fn prove<F: Field, E: SumcheckEngine<F>>(
    oracles: &MultilinearOracleSet,
    claims: Vec<EvalcheckMultilinearClaim<F>>,
    transcript: &mut E::Transcript,
    engine: &mut E,
) -> (r: Result<GreedyEvalcheckProveOutput<F>, ProveError<E::Error>>)
    ensures
        match run(oracles@, initial::<F>(), claims_of(claims@)) {
            (_, Some(e)) => r matches Err(ProveError::Evalcheck(failed)) && failed == e,
            (seeded, None) => match r {
                Ok(out) => {
                    &&& leaf_claims(oracles@, claims_of(out.eval_claims@))
                    &&& extends(claims_of(out.eval_claims@), seeded.committed)
                    &&& extends(out.memoized_data@, seeded.memo)
                    &&& distinct_keys(out.memoized_data@)
                    &&& forall|i: int|
                        0 <= i < out.eval_claims@.len() ==> out.memoized_data@.contains(
                            #[trigger] claims_of(out.eval_claims@)[i],
                        )
                    &&& seeded.bivariate.len() == 0 && seeded.mlechecks.len() == 0 ==> {
                        &&& claims_of(out.eval_claims@) == seeded.committed
                        &&& out.memoized_data@ == seeded.memo
                    }
                },
                Err(ProveError::Evalcheck(e)) => {
                    &&& seeded.bivariate.len() > 0 || seeded.mlechecks.len() > 0
                    &&& e is UnexpectedClaim || e is IncorrectEvalPointLength
                        || e is ConflictingEvaluation
                },
                Err(ProveError::Sumcheck(_)) => seeded.bivariate.len() > 0 || seeded.mlechecks.len()
                    > 0,
            },
        },
{
    let ghost given = claims_of(claims@);
    let ghost seeded = run(oracles@, initial::<F>(), given).0;
    let ghost bound = graph_depth(oracles@);
    proof {
        use_type_invariant(oracles);
        oracles.lemma_inv();
        lemma_claims_within_graph(oracles@, claims_of(claims@));
        lemma_seeded_on_course(oracles@, claims_of(claims@), bound);
        lemma_graph_depth_at_most(oracles@, oracles@.len());
    }
    let mut driver = match GreedyEvalcheckDriver::new(oracles, claims) {
        Ok(driver) => driver,
        Err(e) => {
            return Err(ProveError::Evalcheck(e));
        },
    };
    loop
        invariant
            given == claims_of(claims@),
            run(oracles@, initial::<F>(), given) == (seeded, None::<Error>),
            well_formed(oracles@),
            bound <= usize::MAX,
            driver.oracles() == oracles@,
            on_course(oracles@, driver@, bound),
            driver@.state != DriverState::Fixpoint,
            extends(driver@.prover.committed, seeded.committed),
            extends(driver@.prover.memo, seeded.memo),
            driver@.rounds == 0 ==> driver@.prover == seeded,
            driver@.rounds > 0 ==> seeded.bivariate.len() > 0 || seeded.mlechecks.len() > 0,
        decreases bound - driver@.rounds,
    {
        let mut new_claims: Vec<EvalcheckMultilinearClaim<F>> = Vec::new();
        let constraints = driver.bivariate_sumchecks_constraints();
        if constraints.len() > 0 {
            match engine.reduce_bivariate_sumchecks(constraints, transcript) {
                Ok(mut reduced) => {
                    new_claims.append(&mut reduced);
                },
                Err(e) => {
                    assert(constraints_of(constraints@).len() == constraints@.len());
                    return Err(ProveError::Sumcheck(e));
                },
            }
        }
        let units = driver.mlechecks_constraints();
        let memoized_data = driver.memoized_data();
        let mut i: usize = 0;
        while i < units.len()
            invariant
                i <= units.len(),
                units@.len() > 0 || constraints@.len() > 0 || new_claims@.len() == 0,
                given == claims_of(claims@),
                run(oracles@, initial::<F>(), given) == (seeded, None::<Error>),
                eq_ind_constraints_of(units@) == driver@.prover.mlechecks,
                driver@.rounds == 0 ==> driver@.prover == seeded,
                driver@.rounds > 0 ==> seeded.bivariate.len() > 0 || seeded.mlechecks.len() > 0,
            decreases units.len() - i,
        {
            match engine.reduce_mlecheck(&units[i], memoized_data, transcript) {
                Ok(mut reduced) => {
                    new_claims.append(&mut reduced);
                },
                Err(e) => {
                    assert(eq_ind_constraints_of(units@).len() == units@.len());
                    return Err(ProveError::Sumcheck(e));
                },
            }
            i += 1;
        }
        if new_claims.len() == 0 {
            proof {
                lemma_committed_claims(oracles@, driver@.prover);
                assert(constraints_of(constraints@).len() == constraints@.len());
                assert(eq_ind_constraints_of(units@).len() == units@.len());
            }
            return Ok(driver.finish());
        }
        let ghost before = driver@;
        let ghost brought = claims_of(new_claims@);
        proof {
            assert(brought.len() > 0);
            assert(constraints_of(constraints@).len() == constraints@.len());
            assert(eq_ind_constraints_of(units@).len() == units@.len());
            assert(before.prover.bivariate.len() > 0 || before.prover.mlechecks.len() > 0);
            lemma_advanced_on_course(oracles@, before, brought, bound);
            if first_unawaited(before.prover, brought) is None {
                lemma_run(oracles@, drained(before.prover), brought, 0);
                lemma_run_error(oracles@, drained(before.prover), brought);
                lemma_first_unawaited(before.prover, brought);
                assert forall|i: int| 0 <= i < brought.len() implies (#[trigger] brought[i]).id
                    < oracles@.len() by {
                    lemma_awaited_is_shallower(
                        oracles@,
                        before.prover,
                        brought[i].id,
                        bound - before.rounds,
                    );
                }
            }
        }
        let outcome = driver.advance(new_claims);
        if let Err(e) = outcome {
            return Err(ProveError::Evalcheck(e));
        }
    }
}

} // verus!
