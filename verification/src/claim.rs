//! Evaluation claims and the constraints that claims on virtual oracles turn
//! into.

use vstd::prelude::*;
use crate::field::{copy_elements, same_elements, Field};
use crate::oracle::{copy_ids, OracleId};

verus! {

/// The claim that the polynomial of the oracle `id` takes the value `eval`
/// at the point `eval_point`.
#[derive(Debug)]
pub struct EvalcheckMultilinearClaim<F: Field> {
    pub id: OracleId,
    pub eval_point: Vec<F>,
    pub eval: F,
}

/// What a claim says, with its point as a sequence.
pub struct ClaimSpec<F: Field> {
    pub id: OracleId,
    pub eval_point: Seq<F>,
    pub eval: F,
}

impl<F: Field> View for EvalcheckMultilinearClaim<F> {
    type V = ClaimSpec<F>;

    open spec fn view(&self) -> ClaimSpec<F> {
        ClaimSpec { id: self.id, eval_point: self.eval_point@, eval: self.eval }
    }
}

impl<F: Field> Clone for EvalcheckMultilinearClaim<F> {
    fn clone(&self) -> (r: Self)
        ensures
            r@ == self@,
    {
        EvalcheckMultilinearClaim {
            id: self.id,
            eval_point: copy_elements(&self.eval_point),
            eval: self.eval,
        }
    }
}

impl<F: Field> EvalcheckMultilinearClaim<F> {
    /// Tells whether two claims say the same of the same oracle at the same
    /// point.
    pub fn same(&self, other: &Self) -> (r: bool)
        ensures
            r == (self@ == other@),
    {
        self.id == other.id && self.eval.same(other.eval) && same_elements(
            &self.eval_point,
            &other.eval_point,
        )
    }
}

/// The views of a sequence of claims.
pub open spec fn claims_of<F: Field>(claims: Seq<EvalcheckMultilinearClaim<F>>) -> Seq<ClaimSpec<F>> {
    Seq::new(claims.len(), |i: int| claims[i]@)
}

/// The constraint that stands for a claim on a virtual oracle: the claimed
/// value at the point, to be derived from the oracles `oracle_ids`, the inner
/// oracles of `oracle_id`.
#[derive(Debug)]
pub struct ConstraintSet<F: Field> {
    pub oracle_id: OracleId,
    pub n_vars: usize,
    pub oracle_ids: Vec<OracleId>,
    pub eval_point: Vec<F>,
    pub claimed_value: F,
}

/// What a constraint says, with its lists as sequences.
pub struct ConstraintSpec<F: Field> {
    pub oracle_id: OracleId,
    pub n_vars: usize,
    pub oracle_ids: Seq<OracleId>,
    pub eval_point: Seq<F>,
    pub claimed_value: F,
}

impl<F: Field> View for ConstraintSet<F> {
    type V = ConstraintSpec<F>;

    open spec fn view(&self) -> ConstraintSpec<F> {
        ConstraintSpec {
            oracle_id: self.oracle_id,
            n_vars: self.n_vars,
            oracle_ids: self.oracle_ids@,
            eval_point: self.eval_point@,
            claimed_value: self.claimed_value,
        }
    }
}

impl<F: Field> Clone for ConstraintSet<F> {
    fn clone(&self) -> (r: Self)
        ensures
            r@ == self@,
    {
        ConstraintSet {
            oracle_id: self.oracle_id,
            n_vars: self.n_vars,
            oracle_ids: copy_ids(&self.oracle_ids),
            eval_point: copy_elements(&self.eval_point),
            claimed_value: self.claimed_value,
        }
    }
}

/// The views of a sequence of constraints.
pub open spec fn constraints_of<F: Field>(constraints: Seq<ConstraintSet<F>>) -> Seq<ConstraintSpec<F>> {
    Seq::new(constraints.len(), |i: int| constraints[i]@)
}

/// A constraint together with the point that binds its equality indicator.
#[derive(Debug)]
pub struct ConstraintSetEqIndPoint<F: Field> {
    pub eq_ind_challenges: Vec<F>,
    pub constraint_set: ConstraintSet<F>,
}

/// What such a unit says, with its lists as sequences.
pub struct EqIndConstraintSpec<F: Field> {
    pub eq_ind_challenges: Seq<F>,
    pub constraint_set: ConstraintSpec<F>,
}

impl<F: Field> View for ConstraintSetEqIndPoint<F> {
    type V = EqIndConstraintSpec<F>;

    open spec fn view(&self) -> EqIndConstraintSpec<F> {
        EqIndConstraintSpec {
            eq_ind_challenges: self.eq_ind_challenges@,
            constraint_set: self.constraint_set@,
        }
    }
}

impl<F: Field> Clone for ConstraintSetEqIndPoint<F> {
    fn clone(&self) -> (r: Self)
        ensures
            r@ == self@,
    {
        ConstraintSetEqIndPoint {
            eq_ind_challenges: copy_elements(&self.eq_ind_challenges),
            constraint_set: self.constraint_set.clone(),
        }
    }
}

/// The views of a sequence of such units.
pub open spec fn eq_ind_constraints_of<F: Field>(units: Seq<ConstraintSetEqIndPoint<F>>) -> Seq<
    EqIndConstraintSpec<F>,
> {
    Seq::new(units.len(), |i: int| units[i]@)
}

} // verus!
