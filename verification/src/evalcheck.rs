//! The evalcheck prover: it takes evaluation claims, records those on
//! committed oracles, and turns those on virtual oracles into constraints
//! over their inner oracles.

use vstd::prelude::*;
use crate::claim::{
    claims_of, constraints_of, eq_ind_constraints_of, ClaimSpec, ConstraintSet,
    ConstraintSetEqIndPoint, ConstraintSpec, EqIndConstraintSpec, EvalcheckMultilinearClaim,
};
use crate::field::{copy_elements, Field};
use crate::memoized::{distinct_keys, lemma_lookup, lookup, MemoizedData};
use crate::oracle::{
    copy_ids, depth, MultilinearOracleSet, MultilinearPolyVariant, OracleId, OracleSpec,
};

verus! {

/// Why a claim was not taken.
#[derive(Clone, Copy, Debug, PartialEq, Eq, Structural)]
pub enum Error {
    /// The claim is on an oracle that the set does not hold.
    UnknownOracle { id: usize },
    /// The point of the claim has `actual` coordinates, the oracle `expected`
    /// variables.
    IncorrectEvalPointLength { id: usize, expected: usize, actual: usize },
    /// Another value is on record for the oracle at the point of the claim.
    ConflictingEvaluation { id: usize },
    /// A claim came back from a reduction on an oracle that none of the
    /// constraints reduced was over.
    UnexpectedClaim { id: usize },
    /// Claims came back from a reduction while none was under way.
    NotReducing,
}

/// The state of the prover.
pub struct ProverSpec<F: Field> {
    /// The claims on committed oracles, in the order in which they came.
    pub committed: Seq<ClaimSpec<F>>,
    /// The pending constraints for bivariate sumchecks.
    pub bivariate: Seq<ConstraintSpec<F>>,
    /// The pending constraints for checks against an equality indicator.
    pub mlechecks: Seq<EqIndConstraintSpec<F>>,
    /// Every claim taken so far.
    pub memo: Seq<ClaimSpec<F>>,
}

/// The state before any claim.
pub open spec fn initial<F: Field>() -> ProverSpec<F> {
    ProverSpec {
        committed: Seq::empty(),
        bivariate: Seq::empty(),
        mlechecks: Seq::empty(),
        memo: Seq::empty(),
    }
}

/// The state with both queues of constraints emptied.
pub open spec fn drained<F: Field>(st: ProverSpec<F>) -> ProverSpec<F> {
    ProverSpec { bivariate: Seq::empty(), mlechecks: Seq::empty(), ..st }
}

/// The constraint that stands for the claim `c` on the virtual oracle `o`.
pub open spec fn constraint_for<F: Field>(o: OracleSpec, c: ClaimSpec<F>) -> ConstraintSpec<F> {
    ConstraintSpec {
        oracle_id: c.id,
        n_vars: o.n_vars,
        oracle_ids: o.inner,
        eval_point: c.eval_point,
        claimed_value: c.eval,
    }
}

/// Where a new claim on the oracle `o` goes: among the committed claims if
/// `o` is committed; as a constraint into the queue of bivariate sumchecks if
/// `o` is one inner oracle shifted, packed or projected; as a constraint into
/// the queue of checks against an equality indicator, bound at the point of
/// the claim, if `o` combines inner oracles at that point.
pub open spec fn dispatched<F: Field>(o: OracleSpec, st: ProverSpec<F>, c: ClaimSpec<F>) -> ProverSpec<F> {
    match o.variant {
        MultilinearPolyVariant::Committed => ProverSpec { committed: st.committed.push(c), ..st },
        MultilinearPolyVariant::Shifted
        | MultilinearPolyVariant::Packed
        | MultilinearPolyVariant::Projected => ProverSpec {
            bivariate: st.bivariate.push(constraint_for(o, c)),
            ..st
        },
        MultilinearPolyVariant::Composite(_) | MultilinearPolyVariant::LinearCombination => ProverSpec {
            mlechecks: st.mlechecks.push(
                EqIndConstraintSpec {
                    eq_ind_challenges: c.eval_point,
                    constraint_set: constraint_for(o, c),
                },
            ),
            ..st
        },
    }
}

/// What taking one claim makes of the state.
///
/// A claim on an unknown oracle, or at a point with another number of
/// coordinates than the oracle has variables, is an error. A claim whose
/// oracle and point are on record changes nothing if its value is the one on
/// record, and is an error if not. Any other claim is put on record and
/// dispatched.
pub open spec fn step<F: Field>(oracles: Seq<OracleSpec>, st: ProverSpec<F>, c: ClaimSpec<F>) -> Result<
    ProverSpec<F>,
    Error,
> {
    if c.id >= oracles.len() {
        Err(Error::UnknownOracle { id: c.id })
    } else if c.eval_point.len() != oracles[c.id as int].n_vars {
        Err(
            Error::IncorrectEvalPointLength {
                id: c.id,
                expected: oracles[c.id as int].n_vars,
                actual: c.eval_point.len() as usize,
            },
        )
    } else {
        match lookup(st.memo, c.id, c.eval_point) {
            Some(eval) => if eval == c.eval {
                Ok(st)
            } else {
                Err(Error::ConflictingEvaluation { id: c.id })
            },
            None => Ok(
                dispatched(oracles[c.id as int], ProverSpec { memo: st.memo.push(c), ..st }, c),
            ),
        }
    }
}

/// What taking claims in order makes of the state: the state after the last
/// claim and no error, or the state before the first claim that is an error
/// and that error.
pub open spec fn run<F: Field>(oracles: Seq<OracleSpec>, st: ProverSpec<F>, claims: Seq<ClaimSpec<F>>) -> (
    ProverSpec<F>,
    Option<Error>,
)
    decreases claims.len(),
{
    if claims.len() == 0 {
        (st, None)
    } else {
        let (before, failed) = run(oracles, st, claims.drop_last());
        if failed is Some {
            (before, failed)
        } else {
            match step(oracles, before, claims.last()) {
                Ok(after) => (after, None),
                Err(e) => (before, Some(e)),
            }
        }
    }
}

/// Once a claim is an error, the claims after it change nothing.
pub proof fn lemma_run_stops<F: Field>(
    oracles: Seq<OracleSpec>,
    st: ProverSpec<F>,
    claims: Seq<ClaimSpec<F>>,
    n: int,
)
    requires
        0 <= n <= claims.len(),
        run(oracles, st, claims.take(n)).1 is Some,
    ensures
        run(oracles, st, claims) == run(oracles, st, claims.take(n)),
    decreases claims.len() - n,
{
    if n < claims.len() {
        assert(claims.take(n + 1).drop_last() =~= claims.take(n));
        lemma_run_stops(oracles, st, claims, n + 1);
    } else {
        assert(claims.take(n) =~= claims);
    }
}

/// Whether `c` is a claim on a committed oracle, at a point with as many
/// coordinates as the oracle has variables.
pub open spec fn claim_on_leaf<F: Field>(oracles: Seq<OracleSpec>, c: ClaimSpec<F>) -> bool {
    &&& c.id < oracles.len()
    &&& oracles[c.id as int].variant == MultilinearPolyVariant::Committed
    &&& c.eval_point.len() == oracles[c.id as int].n_vars
}

/// Whether `k` is the constraint of a claim on a virtual oracle of the set.
pub open spec fn constraint_ok<F: Field>(oracles: Seq<OracleSpec>, k: ConstraintSpec<F>) -> bool {
    &&& k.oracle_id < oracles.len()
    &&& oracles[k.oracle_id as int].variant != MultilinearPolyVariant::Committed
    &&& k.n_vars == oracles[k.oracle_id as int].n_vars
    &&& k.oracle_ids == oracles[k.oracle_id as int].inner
    &&& k.eval_point.len() == k.n_vars
}

/// Whether a state is one that taking claims over `oracles` can lead to:
/// the committed claims are claims on committed oracles, on record, no two
/// for one oracle and point; no two entries of the record are for one oracle
/// and point; and every pending constraint is that of a claim on a virtual
/// oracle, bound at its own point.
pub open spec fn consistent<F: Field>(oracles: Seq<OracleSpec>, st: ProverSpec<F>) -> bool {
    &&& forall|i: int|
        0 <= i < st.committed.len() ==> claim_on_leaf(oracles, #[trigger] st.committed[i])
    &&& forall|i: int| 0 <= i < st.committed.len() ==> st.memo.contains(#[trigger] st.committed[i])
    &&& distinct_keys(st.committed)
    &&& distinct_keys(st.memo)
    &&& forall|i: int|
        0 <= i < st.bivariate.len() ==> constraint_ok(oracles, #[trigger] st.bivariate[i])
    &&& forall|i: int|
        0 <= i < st.mlechecks.len() ==> {
            &&& constraint_ok(oracles, (#[trigger] st.mlechecks[i]).constraint_set)
            &&& st.mlechecks[i].eq_ind_challenges == st.mlechecks[i].constraint_set.eval_point
        }
}

/// Whether every pending constraint is for an oracle of depth `bound` at
/// most.
pub open spec fn within<F: Field>(oracles: Seq<OracleSpec>, st: ProverSpec<F>, bound: int) -> bool {
    &&& forall|i: int|
        0 <= i < st.bivariate.len() ==> depth(oracles, (#[trigger] st.bivariate[i]).oracle_id as int)
            <= bound
    &&& forall|i: int|
        0 <= i < st.mlechecks.len() ==> depth(
            oracles,
            (#[trigger] st.mlechecks[i]).constraint_set.oracle_id as int,
        ) <= bound
}

/// Whether every one of `claims` is on an oracle of depth `bound` at most.
pub open spec fn claims_within<F: Field>(oracles: Seq<OracleSpec>, claims: Seq<ClaimSpec<F>>, bound: int) -> bool {
    forall|i: int| 0 <= i < claims.len() ==> depth(oracles, (#[trigger] claims[i]).id as int) <= bound
}

/// The error of taking claims is that of taking one of them: it names the
/// oracle of that claim, which is unknown to the set, or known with a claim
/// at a point of wrong length, or with another value on record.
pub proof fn lemma_run_error<F: Field>(oracles: Seq<OracleSpec>, st: ProverSpec<F>, claims: Seq<ClaimSpec<F>>)
    ensures
        match run(oracles, st, claims).1 {
            None => true,
            Some(Error::UnknownOracle { id }) => exists|i: int|
                0 <= i < claims.len() && (#[trigger] claims[i]).id == id && id >= oracles.len(),
            Some(Error::IncorrectEvalPointLength { id, expected, actual }) => exists|i: int|
                0 <= i < claims.len() && (#[trigger] claims[i]).id == id && id < oracles.len()
                    && expected == oracles[id as int].n_vars && claims[i].eval_point.len()
                    != expected,
            Some(Error::ConflictingEvaluation { id }) => exists|i: int|
                0 <= i < claims.len() && (#[trigger] claims[i]).id == id && id < oracles.len(),
            Some(Error::UnexpectedClaim { .. }) => false,
            Some(Error::NotReducing) => false,
        },
    decreases claims.len(),
{
    if claims.len() > 0 {
        let front = claims.drop_last();
        lemma_run_error(oracles, st, front);
        let (before, failed) = run(oracles, st, front);
        match failed {
            Some(Error::UnknownOracle { id }) => {
                let i = choose|i: int|
                    0 <= i < front.len() && (#[trigger] front[i]).id == id && id >= oracles.len();
                assert(claims[i] == front[i]);
            },
            Some(Error::IncorrectEvalPointLength { id, expected, actual }) => {
                let i = choose|i: int|
                    0 <= i < front.len() && (#[trigger] front[i]).id == id && id < oracles.len()
                        && expected == oracles[id as int].n_vars && front[i].eval_point.len()
                        != expected;
                assert(claims[i] == front[i]);
            },
            Some(Error::ConflictingEvaluation { id }) => {
                let i = choose|i: int|
                    0 <= i < front.len() && (#[trigger] front[i]).id == id && id < oracles.len();
                assert(claims[i] == front[i]);
            },
            Some(_) => {},
            None => {
                assert(claims[claims.len() - 1] == claims.last());
            },
        }
    }
}

/// Whether `longer` is `shorter` with entries added at its end.
pub open spec fn extends<T>(longer: Seq<T>, shorter: Seq<T>) -> bool {
    &&& shorter.len() <= longer.len()
    &&& forall|i: int| 0 <= i < shorter.len() ==> longer[i] == shorter[i]
}

/// Taking a claim keeps a consistent state consistent; the committed claims
/// and the record only grow at their ends; and where no pending constraint
/// nor the claim is for an oracle deeper than `bound`, no pending constraint
/// is afterwards.
pub proof fn lemma_step<F: Field>(oracles: Seq<OracleSpec>, st: ProverSpec<F>, c: ClaimSpec<F>, bound: int)
    requires
        consistent(oracles, st),
        step(oracles, st, c) is Ok,
    ensures
        consistent(oracles, step(oracles, st, c)->Ok_0),
        extends(step(oracles, st, c)->Ok_0.committed, st.committed),
        extends(step(oracles, st, c)->Ok_0.memo, st.memo),
        within(oracles, st, bound) && depth(oracles, c.id as int) <= bound ==> within(
            oracles,
            step(oracles, st, c)->Ok_0,
            bound,
        ),
{
    let after = step(oracles, st, c)->Ok_0;
    if lookup(st.memo, c.id, c.eval_point) is None {
        let o = oracles[c.id as int];
        lemma_lookup(st.memo, c.id, c.eval_point);
        assert(after.memo == st.memo.push(c));
        assert(after.memo[st.memo.len() as int] == c);
        assert forall|i: int, j: int| 0 <= i < j < after.memo.len() implies !((
        #[trigger] after.memo[i]).id == (#[trigger] after.memo[j]).id && after.memo[i].eval_point
            == after.memo[j].eval_point) by {
            if j < st.memo.len() {
                assert(after.memo[i] == st.memo[i] && after.memo[j] == st.memo[j]);
            } else {
                assert(after.memo[i] == st.memo[i]);
            }
        }
        assert forall|i: int| 0 <= i < after.committed.len() implies after.memo.contains(
            #[trigger] after.committed[i],
        ) && claim_on_leaf(oracles, after.committed[i]) by {
            if i < st.committed.len() {
                assert(after.committed[i] == st.committed[i]);
                assert(st.memo.contains(st.committed[i]));
                let j = choose|j: int| 0 <= j < st.memo.len() && st.memo[j] == st.committed[i];
                assert(after.memo[j] == st.committed[i]);
            } else {
                assert(after.committed[i] == c);
            }
        }
        assert forall|i: int, j: int| 0 <= i < j < after.committed.len() implies !((
        #[trigger] after.committed[i]).id == (#[trigger] after.committed[j]).id
            && after.committed[i].eval_point == after.committed[j].eval_point) by {
            if j < st.committed.len() {
                assert(after.committed[i] == st.committed[i] && after.committed[j]
                    == st.committed[j]);
            } else {
                assert(after.committed[i] == st.committed[i]);
                assert(st.memo.contains(st.committed[i]));
                let m = choose|m: int| 0 <= m < st.memo.len() && st.memo[m] == st.committed[i];
                assert(!(st.memo[m].id == c.id && st.memo[m].eval_point == c.eval_point));
            }
        }
        assert forall|i: int| 0 <= i < after.bivariate.len() implies constraint_ok(
            oracles,
            #[trigger] after.bivariate[i],
        ) && (within(oracles, st, bound) && depth(oracles, c.id as int) <= bound ==> depth(
            oracles,
            after.bivariate[i].oracle_id as int,
        ) <= bound) by {
            if i < st.bivariate.len() {
                assert(after.bivariate[i] == st.bivariate[i]);
            } else {
                assert(after.bivariate[i] == constraint_for(o, c));
            }
        }
        assert forall|i: int| 0 <= i < after.mlechecks.len() implies constraint_ok(
            oracles,
            (#[trigger] after.mlechecks[i]).constraint_set,
        ) && after.mlechecks[i].eq_ind_challenges == after.mlechecks[i].constraint_set.eval_point
            && (within(oracles, st, bound) && depth(oracles, c.id as int) <= bound ==> depth(
            oracles,
            after.mlechecks[i].constraint_set.oracle_id as int,
        ) <= bound) by {
            if i < st.mlechecks.len() {
                assert(after.mlechecks[i] == st.mlechecks[i]);
            } else {
                assert(after.mlechecks[i].constraint_set == constraint_for(o, c));
            }
        }
    }
}

/// Taking claims keeps a consistent state consistent, and the committed
/// claims and the record only grow at their ends. Where no pending
/// constraint and no claim is for an oracle deeper than `bound`, no pending
/// constraint is afterwards.
pub proof fn lemma_run<F: Field>(
    oracles: Seq<OracleSpec>,
    st: ProverSpec<F>,
    claims: Seq<ClaimSpec<F>>,
    bound: int,
)
    requires
        consistent(oracles, st),
    ensures
        consistent(oracles, run(oracles, st, claims).0),
        extends(run(oracles, st, claims).0.committed, st.committed),
        extends(run(oracles, st, claims).0.memo, st.memo),
        within(oracles, st, bound) && claims_within(oracles, claims, bound) ==> within(
            oracles,
            run(oracles, st, claims).0,
            bound,
        ),
    decreases claims.len(),
{
    if claims.len() > 0 {
        let front = claims.drop_last();
        lemma_run(oracles, st, front, bound);
        let (before, failed) = run(oracles, st, front);
        if claims_within(oracles, claims, bound) {
            assert forall|i: int| 0 <= i < front.len() implies depth(
                oracles,
                (#[trigger] front[i]).id as int,
            ) <= bound by {
                assert(front[i] == claims[i]);
            }
            assert(claims.last() == claims[claims.len() - 1]);
        }
        if failed is None && step(oracles, before, claims.last()) is Ok {
            lemma_step(oracles, before, claims.last(), bound);
        }
    }
}

/// Whether a pending constraint is over the oracle `id`: whether a reduction
/// of the pending constraints may come back with a claim on it.
pub open spec fn awaited<F: Field>(st: ProverSpec<F>, id: OracleId) -> bool {
    ||| exists|i: int|
        0 <= i < st.bivariate.len() && (#[trigger] st.bivariate[i]).oracle_ids.contains(id)
    ||| exists|i: int|
        0 <= i < st.mlechecks.len() && (#[trigger] st.mlechecks[i]).constraint_set.oracle_ids.contains(
            id,
        )
}

/// The oracle of the first of `claims` that no pending constraint is over.
pub open spec fn first_unawaited<F: Field>(st: ProverSpec<F>, claims: Seq<ClaimSpec<F>>) -> Option<OracleId>
    decreases claims.len(),
{
    if claims.len() == 0 {
        None
    } else if first_unawaited(st, claims.drop_last()) is Some {
        first_unawaited(st, claims.drop_last())
    } else if !awaited(st, claims.last().id) {
        Some(claims.last().id)
    } else {
        None
    }
}

/// Where none of `claims` is unawaited, each is on an oracle that a pending
/// constraint is over.
pub proof fn lemma_first_unawaited<F: Field>(st: ProverSpec<F>, claims: Seq<ClaimSpec<F>>)
    ensures
        first_unawaited(st, claims) is None ==> forall|i: int|
            0 <= i < claims.len() ==> awaited(st, (#[trigger] claims[i]).id),
    decreases claims.len(),
{
    if claims.len() > 0 {
        lemma_first_unawaited(st, claims.drop_last());
        if first_unawaited(st, claims) is None {
            assert forall|i: int| 0 <= i < claims.len() implies awaited(
                st,
                (#[trigger] claims[i]).id,
            ) by {
                if i < claims.len() - 1 {
                    assert(claims.drop_last()[i] == claims[i]);
                }
            }
        }
    }
}

/// An unawaited claim found in a prefix is the first unawaited claim of the
/// whole.
proof fn lemma_first_unawaited_prefix<F: Field>(st: ProverSpec<F>, claims: Seq<ClaimSpec<F>>, n: int)
    requires
        0 <= n <= claims.len(),
        first_unawaited(st, claims.take(n)) is Some,
    ensures
        first_unawaited(st, claims) == first_unawaited(st, claims.take(n)),
    decreases claims.len() - n,
{
    if n < claims.len() {
        assert(claims.take(n + 1).drop_last() =~= claims.take(n));
        lemma_first_unawaited_prefix(st, claims, n + 1);
    } else {
        assert(claims.take(n) =~= claims);
    }
}

/// In a consistent state over a well-formed set, an awaited oracle is an
/// oracle of the set and lies less deep than the deepest oracle with a
/// pending constraint.
pub proof fn lemma_awaited_is_shallower<F: Field>(
    oracles: Seq<OracleSpec>,
    st: ProverSpec<F>,
    id: OracleId,
    bound: int,
)
    requires
        crate::oracle::well_formed(oracles),
        consistent(oracles, st),
        within(oracles, st, bound),
        awaited(st, id),
    ensures
        id < oracles.len(),
        depth(oracles, id as int) < bound,
{
    let k = if exists|i: int|
        0 <= i < st.bivariate.len() && (#[trigger] st.bivariate[i]).oracle_ids.contains(id) {
        let i = choose|i: int|
            0 <= i < st.bivariate.len() && (#[trigger] st.bivariate[i]).oracle_ids.contains(id);
        st.bivariate[i]
    } else {
        let i = choose|i: int|
            0 <= i < st.mlechecks.len() && (
            #[trigger] st.mlechecks[i]).constraint_set.oracle_ids.contains(id);
        st.mlechecks[i].constraint_set
    };
    assert(constraint_ok(oracles, k));
    assert(depth(oracles, k.oracle_id as int) <= bound);
    let j = choose|j: int| 0 <= j < k.oracle_ids.len() && k.oracle_ids[j] == id;
    crate::oracle::lemma_depth_of_virtual(oracles, k.oracle_id as int);
    assert(crate::oracle::entry_ok(oracles, k.oracle_id as int));
    assert(oracles[k.oracle_id as int].inner[j] == id);
}

/// Tells whether `id` is one of `ids`.
pub fn holds_id(ids: &Vec<OracleId>, id: OracleId) -> (r: bool)
    ensures
        r == ids@.contains(id),
{
    let mut i: usize = 0;
    while i < ids.len()
        invariant
            i <= ids.len(),
            forall|j: int| 0 <= j < i ==> ids@[j] != id,
        decreases ids.len() - i,
    {
        if ids[i] == id {
            return true;
        }
        i += 1;
    }
    false
}

/// The prover of evaluation claims over one set of oracles.
pub struct EvalcheckProver<'a, F: Field> {
    oracles: &'a MultilinearOracleSet,
    committed_eval_claims: Vec<EvalcheckMultilinearClaim<F>>,
    new_bivariate_sumchecks_constraints: Vec<ConstraintSet<F>>,
    new_mlechecks_constraints: Vec<ConstraintSetEqIndPoint<F>>,
    memoized_data: MemoizedData<F>,
}

impl<'a, F: Field> View for EvalcheckProver<'a, F> {
    type V = ProverSpec<F>;

    closed spec fn view(&self) -> ProverSpec<F> {
        ProverSpec {
            committed: claims_of(self.committed_eval_claims@),
            bivariate: constraints_of(self.new_bivariate_sumchecks_constraints@),
            mlechecks: eq_ind_constraints_of(self.new_mlechecks_constraints@),
            memo: self.memoized_data@,
        }
    }
}

impl<'a, F: Field> EvalcheckProver<'a, F> {
    /// The oracles that the prover works over.
    pub closed spec fn oracles(&self) -> Seq<OracleSpec> {
        self.oracles@
    }

    /// A prover over `oracles` that has taken no claim.
    pub fn new(oracles: &'a MultilinearOracleSet) -> (r: Self)
        ensures
            r.oracles() == oracles@,
            r@ == initial::<F>(),
    {
        let r = EvalcheckProver {
            oracles,
            committed_eval_claims: Vec::new(),
            new_bivariate_sumchecks_constraints: Vec::new(),
            new_mlechecks_constraints: Vec::new(),
            memoized_data: MemoizedData::new(),
        };
        assert(r@.committed =~= Seq::empty());
        assert(r@.bivariate =~= Seq::empty());
        assert(r@.mlechecks =~= Seq::empty());
        r
    }

    /// Takes one claim.
    fn prove_one(&mut self, claim: &EvalcheckMultilinearClaim<F>) -> (r: Result<(), Error>)
        ensures
            final(self).oracles() == old(self).oracles(),
            match step(old(self).oracles(), old(self)@, claim@) {
                Ok(after) => r is Ok && final(self)@ == after,
                Err(e) => r == Err::<(), Error>(e) && final(self)@ == old(self)@,
            },
    {
        if !self.oracles.is_valid_oracle_id(claim.id) {
            return Err(Error::UnknownOracle { id: claim.id });
        }
        let oracle = &self.oracles[claim.id];
        if claim.eval_point.len() != oracle.n_vars {
            return Err(
                Error::IncorrectEvalPointLength {
                    id: claim.id,
                    expected: oracle.n_vars,
                    actual: claim.eval_point.len(),
                },
            );
        }
        match self.memoized_data.get(claim.id, &claim.eval_point) {
            Some(eval) => {
                if eval.same(claim.eval) {
                    return Ok(());
                } else {
                    return Err(Error::ConflictingEvaluation { id: claim.id });
                }
            },
            None => {},
        }
        let ghost before = self@;
        self.memoized_data.record(claim.id, &claim.eval_point, claim.eval);
        match oracle.variant {
            MultilinearPolyVariant::Committed => {
                self.committed_eval_claims.push(claim.clone());
                assert(self@.committed =~= before.committed.push(claim@));
            },
            MultilinearPolyVariant::Shifted
            | MultilinearPolyVariant::Packed
            | MultilinearPolyVariant::Projected => {
                let constraint = ConstraintSet {
                    oracle_id: claim.id,
                    n_vars: oracle.n_vars,
                    oracle_ids: copy_ids(&oracle.inner),
                    eval_point: copy_elements(&claim.eval_point),
                    claimed_value: claim.eval,
                };
                self.new_bivariate_sumchecks_constraints.push(constraint);
                assert(self@.bivariate =~= before.bivariate.push(constraint_for(oracle@, claim@)));
            },
            MultilinearPolyVariant::Composite(_) | MultilinearPolyVariant::LinearCombination => {
                let constraint = ConstraintSet {
                    oracle_id: claim.id,
                    n_vars: oracle.n_vars,
                    oracle_ids: copy_ids(&oracle.inner),
                    eval_point: copy_elements(&claim.eval_point),
                    claimed_value: claim.eval,
                };
                let unit = ConstraintSetEqIndPoint {
                    eq_ind_challenges: copy_elements(&claim.eval_point),
                    constraint_set: constraint,
                };
                self.new_mlechecks_constraints.push(unit);
                assert(self@.mlechecks =~= before.mlechecks.push(
                    EqIndConstraintSpec {
                        eq_ind_challenges: claim@.eval_point,
                        constraint_set: constraint_for(oracle@, claim@),
                    },
                ));
            },
        }
        Ok(())
    }

    /// Takes the claims in order, up to the first that is an error.
    ///
    /// A claim on a committed oracle is recorded among the committed claims.
    /// A claim on a virtual oracle becomes a constraint over the inner
    /// oracles in one of the two queues. A claim that was taken before is
    /// passed over.
    pub fn prove(&mut self, claims: Vec<EvalcheckMultilinearClaim<F>>) -> (r: Result<(), Error>)
        ensures
            final(self).oracles() == old(self).oracles(),
            final(self)@ == run(old(self).oracles(), old(self)@, claims_of(claims@)).0,
            match run(old(self).oracles(), old(self)@, claims_of(claims@)).1 {
                Some(e) => r == Err::<(), Error>(e),
                None => r is Ok,
            },
    {
        let ghost oracles = self.oracles();
        let ghost start = self@;
        let ghost all = claims_of(claims@);
        let mut i: usize = 0;
        while i < claims.len()
            invariant
                i <= claims.len(),
                all == claims_of(claims@),
                oracles == old(self).oracles(),
                start == old(self)@,
                self.oracles() == oracles,
                run(oracles, start, all.take(i as int)) == (self@, None::<Error>),
            decreases claims.len() - i,
        {
            assert(all.take(i as int + 1).drop_last() =~= all.take(i as int));
            assert(all.take(i as int + 1).last() == claims@[i as int]@);
            let outcome = self.prove_one(&claims[i]);
            if let Err(e) = outcome {
                proof {
                    lemma_run_stops(oracles, start, all, i as int + 1);
                }
                return Err(e);
            }
            i += 1;
        }
        assert(all.take(claims.len() as int) =~= all);
        Ok(())
    }

    /// Empties the queue of constraints for bivariate sumchecks and returns
    /// what it held.
    pub fn take_new_bivariate_sumchecks_constraints(&mut self) -> (r: Vec<ConstraintSet<F>>)
        ensures
            final(self).oracles() == old(self).oracles(),
            constraints_of(r@) == old(self)@.bivariate,
            final(self)@ == (ProverSpec { bivariate: Seq::empty(), ..old(self)@ }),
    {
        let mut taken: Vec<ConstraintSet<F>> = Vec::new();
        core::mem::swap(&mut self.new_bivariate_sumchecks_constraints, &mut taken);
        assert(self@.bivariate =~= Seq::empty());
        taken
    }

    /// Empties the queue of constraints for checks against an equality
    /// indicator and returns what it held.
    pub fn take_new_mlechecks_constraints(&mut self) -> (r: Vec<ConstraintSetEqIndPoint<F>>)
        ensures
            final(self).oracles() == old(self).oracles(),
            eq_ind_constraints_of(r@) == old(self)@.mlechecks,
            final(self)@ == (ProverSpec { mlechecks: Seq::empty(), ..old(self)@ }),
    {
        let mut taken: Vec<ConstraintSetEqIndPoint<F>> = Vec::new();
        core::mem::swap(&mut self.new_mlechecks_constraints, &mut taken);
        assert(self@.mlechecks =~= Seq::empty());
        taken
    }

    /// Tells whether a pending constraint is over the oracle `id`.
    pub fn awaits(&self, id: OracleId) -> (r: bool)
        ensures
            r == awaited(self@, id),
    {
        let mut i: usize = 0;
        while i < self.new_bivariate_sumchecks_constraints.len()
            invariant
                i <= self.new_bivariate_sumchecks_constraints.len(),
                forall|j: int| 0 <= j < i ==> !(#[trigger] self@.bivariate[j]).oracle_ids.contains(id),
            decreases self.new_bivariate_sumchecks_constraints.len() - i,
        {
            if holds_id(&self.new_bivariate_sumchecks_constraints[i].oracle_ids, id) {
                assert(self@.bivariate[i as int].oracle_ids.contains(id));
                return true;
            }
            i += 1;
        }
        let mut i: usize = 0;
        while i < self.new_mlechecks_constraints.len()
            invariant
                i <= self.new_mlechecks_constraints.len(),
                forall|j: int|
                    0 <= j < self@.bivariate.len() ==> !(#[trigger] self@.bivariate[j]).oracle_ids.contains(
                        id,
                    ),
                forall|j: int|
                    0 <= j < i ==> !(#[trigger] self@.mlechecks[j]).constraint_set.oracle_ids.contains(
                        id,
                    ),
            decreases self.new_mlechecks_constraints.len() - i,
        {
            if holds_id(&self.new_mlechecks_constraints[i].constraint_set.oracle_ids, id) {
                assert(self@.mlechecks[i as int].constraint_set.oracle_ids.contains(id));
                return true;
            }
            i += 1;
        }
        false
    }

    /// Finds the oracle of the first of `claims` that no pending constraint
    /// is over.
    pub fn find_unawaited(&self, claims: &Vec<EvalcheckMultilinearClaim<F>>) -> (r: Option<OracleId>)
        ensures
            r == first_unawaited(self@, claims_of(claims@)),
    {
        let ghost all = claims_of(claims@);
        let mut i: usize = 0;
        while i < claims.len()
            invariant
                i <= claims.len(),
                all == claims_of(claims@),
                first_unawaited(self@, all.take(i as int)) is None,
            decreases claims.len() - i,
        {
            assert(all.take(i as int + 1).drop_last() =~= all.take(i as int));
            assert(all.take(i as int + 1).last() == claims@[i as int]@);
            if !self.awaits(claims[i].id) {
                proof {
                    lemma_first_unawaited_prefix(self@, all, i as int + 1);
                }
                return Some(claims[i].id);
            }
            i += 1;
        }
        assert(all.take(claims.len() as int) =~= all);
        None
    }

    /// The pending constraints for bivariate sumchecks.
    pub fn new_bivariate_sumchecks_constraints(&self) -> (r: &Vec<ConstraintSet<F>>)
        ensures
            constraints_of(r@) == self@.bivariate,
    {
        &self.new_bivariate_sumchecks_constraints
    }

    /// The pending constraints for checks against an equality indicator.
    pub fn new_mlechecks_constraints(&self) -> (r: &Vec<ConstraintSetEqIndPoint<F>>)
        ensures
            eq_ind_constraints_of(r@) == self@.mlechecks,
    {
        &self.new_mlechecks_constraints
    }

    /// The claims on committed oracles taken so far.
    pub fn committed_eval_claims(&self) -> (r: &Vec<EvalcheckMultilinearClaim<F>>)
        ensures
            claims_of(r@) == self@.committed,
    {
        &self.committed_eval_claims
    }

    /// The record of the claims taken so far.
    pub fn memoized_data(&self) -> (r: &MemoizedData<F>)
        ensures
            r@ == self@.memo,
    {
        &self.memoized_data
    }

    /// Ends the prover's work and hands out the committed claims and the
    /// record of all claims.
    pub fn finish(self) -> (r: (Vec<EvalcheckMultilinearClaim<F>>, MemoizedData<F>))
        ensures
            claims_of(r.0@) == self@.committed,
            r.1@ == self@.memo,
    {
        (self.committed_eval_claims, self.memoized_data)
    }
}

} // verus!
