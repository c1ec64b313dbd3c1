//! Composite oracles: an algebraic composition over several inner oracles
//! that share one number of variables.

use vstd::prelude::*;
use crate::oracle::{views_of, Error, MultilinearPolyOracle, OracleId, OracleSpec};

verus! {

/// What the reduction reads of a composition polynomial.
#[derive(Clone, Copy, Debug, PartialEq, Eq, Structural)]
pub struct Composition {
    /// The arity: how many polynomials the composition takes.
    pub n_vars: usize,
    /// The total degree of the composition.
    pub degree: usize,
    /// The tower level of the constants of the composition.
    pub tower_level: usize,
}

/// A polynomial defined as a composition over inner multilinear oracles.
///
/// A value of this type always has as many inner oracles as its composition
/// has arguments, each with the composite's number of variables.
#[derive(Debug)]
pub struct CompositePolyOracle {
    n_vars: usize,
    inner: Vec<MultilinearPolyOracle>,
    composition: Composition,
}

/// What a composite oracle holds.
pub struct CompositeSpec {
    pub n_vars: usize,
    pub inner: Seq<OracleSpec>,
    pub composition: Composition,
}

/// Whether every one of `inner` has `n_vars` variables.
pub open spec fn all_have_n_vars(inner: Seq<OracleSpec>, n_vars: usize) -> bool {
    forall|i: int| 0 <= i < inner.len() ==> (#[trigger] inner[i]).n_vars == n_vars
}

/// What the construction of a composite oracle from these parts gives.
pub open spec fn construction(
    n_vars: usize,
    inner: Seq<OracleSpec>,
    composition: Composition,
) -> Result<CompositeSpec, Error> {
    if inner.len() != composition.n_vars {
        Err(Error::CompositionMismatch)
    } else if !all_have_n_vars(inner, n_vars) {
        Err(Error::IncorrectNumberOfVariables { expected: n_vars })
    } else {
        Ok(CompositeSpec { n_vars, inner, composition })
    }
}

/// The greatest tower level among `inner`, and 0 where there is none.
pub open spec fn max_tower_level(inner: Seq<OracleSpec>) -> usize
    decreases inner.len(),
{
    if inner.len() == 0 {
        0
    } else {
        let rest = max_tower_level(inner.drop_last());
        if inner.last().tower_level > rest {
            inner.last().tower_level
        } else {
            rest
        }
    }
}

/// The tower level of a composite: the greatest among that of its composition
/// and those of its inner oracles.
pub open spec fn composite_tower_level(composition: Composition, inner: Seq<OracleSpec>) -> usize {
    let most = max_tower_level(inner);
    if composition.tower_level > most {
        composition.tower_level
    } else {
        most
    }
}

/// The greatest tower level among inner oracles is at least that of each, and
/// is that of one of them unless there is none.
pub proof fn lemma_max_tower_level(inner: Seq<OracleSpec>)
    ensures
        forall|i: int|
            0 <= i < inner.len() ==> (#[trigger] inner[i]).tower_level <= max_tower_level(inner),
        inner.len() == 0 ==> max_tower_level(inner) == 0,
        inner.len() > 0 ==> exists|i: int|
            0 <= i < inner.len() && (#[trigger] inner[i]).tower_level == max_tower_level(inner),
    decreases inner.len(),
{
    if inner.len() > 0 {
        let front = inner.drop_last();
        lemma_max_tower_level(front);
        assert forall|i: int| 0 <= i < inner.len() implies (#[trigger] inner[i]).tower_level
            <= max_tower_level(inner) by {
            if i < front.len() {
                assert(front[i] == inner[i]);
            }
        }
        if inner.last().tower_level > max_tower_level(front) || front.len() == 0 {
            assert(inner[inner.len() - 1].tower_level == max_tower_level(inner));
        } else {
            let k = choose|k: int|
                0 <= k < front.len() && (#[trigger] front[k]).tower_level == max_tower_level(
                    front,
                );
            assert(inner[k] == front[k]);
        }
    }
}

/// The tower level of a composite is never below the level of its
/// composition nor below the level of any of its inner oracles, and it is
/// the level of one of them.
pub proof fn lemma_tower_level_monotonic(composition: Composition, inner: Seq<OracleSpec>)
    ensures
        composite_tower_level(composition, inner) >= composition.tower_level,
        forall|i: int|
            0 <= i < inner.len() ==> composite_tower_level(composition, inner) >= (
            #[trigger] inner[i]).tower_level,
        composite_tower_level(composition, inner) == composition.tower_level || exists|i: int|
            0 <= i < inner.len() && (#[trigger] inner[i]).tower_level == composite_tower_level(
                composition,
                inner,
            ),
{
    lemma_max_tower_level(inner);
}

/// Tells whether every one of `oracles` has `n_vars` variables.
pub fn have_n_vars(oracles: &Vec<MultilinearPolyOracle>, n_vars: usize) -> (r: bool)
    ensures
        r == all_have_n_vars(views_of(oracles@), n_vars),
{
    let mut i: usize = 0;
    while i < oracles.len()
        invariant
            i <= oracles.len(),
            forall|j: int| 0 <= j < i ==> (#[trigger] views_of(oracles@)[j]).n_vars == n_vars,
        decreases oracles.len() - i,
    {
        if oracles[i].n_vars() != n_vars {
            assert(views_of(oracles@)[i as int].n_vars != n_vars);
            return false;
        }
        i += 1;
    }
    true
}

/// Computes the greatest tower level among `oracles`.
pub fn greatest_tower_level(oracles: &Vec<MultilinearPolyOracle>) -> (r: usize)
    ensures
        r == max_tower_level(views_of(oracles@)),
{
    let mut most: usize = 0;
    let mut i: usize = 0;
    while i < oracles.len()
        invariant
            i <= oracles.len(),
            most == max_tower_level(views_of(oracles@).take(i as int)),
        decreases oracles.len() - i,
    {
        let level = oracles[i].binary_tower_level();
        assert(views_of(oracles@).take(i as int + 1).drop_last() =~= views_of(oracles@).take(
            i as int,
        ));
        if level > most {
            most = level;
        }
        i += 1;
    }
    assert(views_of(oracles@).take(oracles.len() as int) =~= views_of(oracles@));
    most
}

impl View for CompositePolyOracle {
    type V = CompositeSpec;

    closed spec fn view(&self) -> CompositeSpec {
        CompositeSpec {
            n_vars: self.n_vars,
            inner: views_of(self.inner@),
            composition: self.composition,
        }
    }
}

impl CompositePolyOracle {
    #[verifier::type_invariant]
    spec fn well_formed(&self) -> bool {
        construction(self.n_vars, views_of(self.inner@), self.composition) is Ok
    }

    /// Builds the composite of `inner` under `composition`.
    ///
    /// Fails with `CompositionMismatch` where the number of inner oracles is
    /// not the arity of the composition, else with
    /// `IncorrectNumberOfVariables` where one of them has not `n_vars`
    /// variables.
    pub fn new(n_vars: usize, inner: Vec<MultilinearPolyOracle>, composition: Composition) -> (r:
        Result<Self, Error>)
        ensures
            match r {
                Ok(c) => construction(n_vars, views_of(inner@), composition) == Ok::<
                    CompositeSpec,
                    Error,
                >(c@),
                Err(e) => construction(n_vars, views_of(inner@), composition) == Err::<
                    CompositeSpec,
                    Error,
                >(e),
            },
    {
        if inner.len() != composition.n_vars {
            return Err(Error::CompositionMismatch);
        }
        if !have_n_vars(&inner, n_vars) {
            return Err(Error::IncorrectNumberOfVariables { expected: n_vars });
        }
        Ok(CompositePolyOracle { n_vars, inner, composition })
    }

    /// The greatest degree in a single variable: the degree of the
    /// composition.
    pub fn max_individual_degree(&self) -> (r: usize)
        ensures
            r == self@.composition.degree,
    {
        self.composition.degree
    }

    /// The number of multilinear polynomials composed.
    pub fn n_multilinears(&self) -> (r: usize)
        ensures
            r == self@.composition.n_vars,
            r == self@.inner.len(),
    {
        proof {
            use_type_invariant(self);
        }
        self.composition.n_vars
    }

    /// The tower level of the composite.
    pub fn binary_tower_level(&self) -> (r: usize)
        ensures
            r == composite_tower_level(self@.composition, self@.inner),
    {
        let most = greatest_tower_level(&self.inner);
        if self.composition.tower_level > most {
            self.composition.tower_level
        } else {
            most
        }
    }

    /// The number of variables of the composite and of each inner oracle.
    pub fn n_vars(&self) -> (r: usize)
        ensures
            r == self@.n_vars,
            all_have_n_vars(self@.inner, r),
    {
        proof {
            use_type_invariant(self);
        }
        self.n_vars
    }

    /// The handles of the inner oracles, in order.
    pub fn inner_polys_oracle_ids(&self) -> (r: Vec<OracleId>)
        ensures
            r@.len() == self@.inner.len(),
            forall|i: int| 0 <= i < r@.len() ==> r@[i] == (#[trigger] self@.inner[i]).id,
    {
        let mut ids: Vec<OracleId> = Vec::new();
        let mut i: usize = 0;
        while i < self.inner.len()
            invariant
                i <= self.inner.len(),
                ids@.len() == i,
                forall|j: int| 0 <= j < i ==> ids@[j] == (#[trigger] views_of(self.inner@)[j]).id,
            decreases self.inner.len() - i,
        {
            ids.push(self.inner[i].id());
            i += 1;
        }
        ids
    }

    /// The inner oracles, in order.
    pub fn inner_polys(&self) -> (r: Vec<MultilinearPolyOracle>)
        ensures
            views_of(r@) == self@.inner,
    {
        let mut polys: Vec<MultilinearPolyOracle> = Vec::new();
        let mut i: usize = 0;
        while i < self.inner.len()
            invariant
                i <= self.inner.len(),
                polys@.len() == i,
                views_of(polys@) == views_of(self.inner@).take(i as int),
            decreases self.inner.len() - i,
        {
            let ghost before = polys@;
            polys.push(self.inner[i].clone());
            assert forall|j: int| 0 <= j < i + 1 implies views_of(polys@)[j] == views_of(
                self.inner@,
            ).take(i as int + 1)[j] by {
                if j < i {
                    assert(views_of(before)[j] == views_of(self.inner@).take(i as int)[j]);
                }
            }
            assert(views_of(polys@) =~= views_of(self.inner@).take(i as int + 1));
            i += 1;
        }
        assert(views_of(self.inner@).take(self.inner.len() as int) =~= views_of(self.inner@));
        polys
    }

    /// The composition.
    pub fn composition(&self) -> (r: Composition)
        ensures
            r == self@.composition,
    {
        self.composition
    }
}

} // verus!
