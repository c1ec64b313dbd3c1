//! Descriptors of multilinear polynomial oracles.
//!
//! An oracle is a handle plus the metadata that the reduction reads: how many
//! variables the polynomial has, how high in the tower of binary fields its
//! values lie, how it is obtained, and from which other oracles.

use vstd::prelude::*;
use crate::composite::{
    all_have_n_vars, composite_tower_level, construction, greatest_tower_level, have_n_vars,
    max_tower_level, Composition, CompositePolyOracle,
};

verus! {

/// The handle of an oracle: its index in the set that registered it.
pub type OracleId = usize;

/// Why an oracle could not be built.
#[derive(Clone, Copy, Debug, PartialEq, Eq, Structural)]
pub enum Error {
    /// The number of inner oracles is not the arity of the composition.
    CompositionMismatch,
    /// An oracle has another number of variables than `expected`.
    IncorrectNumberOfVariables { expected: usize },
    /// No oracle of the set has the handle `id`.
    InvalidOracleId { id: usize },
    /// The tower level of the oracle does not fit the machine's integers.
    TowerLevelOverflow,
}

/// How the polynomial of an oracle is obtained.
#[derive(Clone, Copy, Debug, PartialEq, Eq, Structural)]
pub enum MultilinearPolyVariant {
    /// A committed polynomial: a leaf of the graph.
    Committed,
    /// The composition of the inner polynomials.
    Composite(Composition),
    /// The one inner polynomial with its values shifted.
    Shifted,
    /// The one inner polynomial with blocks of values packed into elements of
    /// a higher field.
    Packed,
    /// The one inner polynomial with some variables fixed.
    Projected,
    /// A linear combination of the inner polynomials.
    LinearCombination,
}

/// The descriptor of one oracle.
#[derive(Debug)]
pub struct MultilinearPolyOracle {
    pub id: OracleId,
    pub n_vars: usize,
    pub tower_level: usize,
    pub variant: MultilinearPolyVariant,
    pub inner: Vec<OracleId>,
}

/// What a descriptor says, with its inner handles as a sequence.
pub struct OracleSpec {
    pub id: OracleId,
    pub n_vars: usize,
    pub tower_level: usize,
    pub variant: MultilinearPolyVariant,
    pub inner: Seq<OracleId>,
}

impl View for MultilinearPolyOracle {
    type V = OracleSpec;

    open spec fn view(&self) -> OracleSpec {
        OracleSpec {
            id: self.id,
            n_vars: self.n_vars,
            tower_level: self.tower_level,
            variant: self.variant,
            inner: self.inner@,
        }
    }
}

/// The views of a sequence of descriptors.
pub open spec fn views_of(oracles: Seq<MultilinearPolyOracle>) -> Seq<OracleSpec> {
    Seq::new(oracles.len(), |i: int| oracles[i]@)
}

/// Copies a list of handles.
pub fn copy_ids(ids: &Vec<OracleId>) -> (r: Vec<OracleId>)
    ensures
        r@ == ids@,
{
    let mut out: Vec<OracleId> = Vec::new();
    let mut i: usize = 0;
    while i < ids.len()
        invariant
            i <= ids.len(),
            out@ == ids@.take(i as int),
        decreases ids.len() - i,
    {
        out.push(ids[i]);
        assert(ids@.take(i as int + 1) =~= ids@.take(i as int).push(ids@[i as int]));
        i += 1;
    }
    assert(ids@.take(ids.len() as int) =~= ids@);
    out
}

impl Clone for MultilinearPolyOracle {
    fn clone(&self) -> (r: Self)
        ensures
            r@ == self@,
    {
        MultilinearPolyOracle {
            id: self.id,
            n_vars: self.n_vars,
            tower_level: self.tower_level,
            variant: self.variant,
            inner: copy_ids(&self.inner),
        }
    }
}

impl MultilinearPolyOracle {
    /// The handle of the oracle.
    pub fn id(&self) -> (r: OracleId)
        ensures
            r == self@.id,
    {
        self.id
    }

    /// The number of variables of the polynomial.
    pub fn n_vars(&self) -> (r: usize)
        ensures
            r == self@.n_vars,
    {
        self.n_vars
    }

    /// The least height in the tower of binary fields at which every value of
    /// the polynomial can be written.
    pub fn binary_tower_level(&self) -> (r: usize)
        ensures
            r == self@.tower_level,
    {
        self.tower_level
    }

    /// Whether the oracle is a committed leaf.
    pub fn is_committed(&self) -> (r: bool)
        ensures
            r == (self@.variant == MultilinearPolyVariant::Committed),
    {
        self.variant == MultilinearPolyVariant::Committed
    }
}

/// The descriptors that `ids` name in `oracles`, in order.
pub open spec fn inner_of(oracles: Seq<OracleSpec>, ids: Seq<OracleId>) -> Seq<OracleSpec> {
    Seq::new(ids.len(), |k: int| oracles[ids[k] as int])
}

/// The first of `ids` that names no oracle of a set of `size` oracles.
pub open spec fn first_unknown(ids: Seq<OracleId>, size: nat) -> Option<OracleId>
    decreases ids.len(),
{
    if ids.len() == 0 {
        None
    } else if first_unknown(ids.drop_last(), size) is Some {
        first_unknown(ids.drop_last(), size)
    } else if ids.last() >= size {
        Some(ids.last())
    } else {
        None
    }
}

/// Whether the entry at `i` is a descriptor that may stand there: it carries
/// its own index as handle, every inner handle is smaller, and its number of
/// variables and its tower level follow from its inner oracles as its variant
/// demands.
pub open spec fn entry_ok(oracles: Seq<OracleSpec>, i: int) -> bool {
    let o = oracles[i];
    let inner = inner_of(oracles, o.inner);
    &&& o.id == i
    &&& forall|k: int| 0 <= k < o.inner.len() ==> (#[trigger] o.inner[k]) < i
    &&& match o.variant {
        MultilinearPolyVariant::Committed => o.inner.len() == 0,
        MultilinearPolyVariant::Composite(c) => {
            &&& construction(o.n_vars, inner, c) is Ok
            &&& o.tower_level == composite_tower_level(c, inner)
        },
        MultilinearPolyVariant::Shifted => {
            &&& o.inner.len() == 1
            &&& inner[0].n_vars == o.n_vars
            &&& inner[0].tower_level == o.tower_level
        },
        MultilinearPolyVariant::Packed => {
            &&& o.inner.len() == 1
            &&& inner[0].n_vars >= o.n_vars
            &&& o.tower_level == inner[0].tower_level + (inner[0].n_vars - o.n_vars)
        },
        MultilinearPolyVariant::Projected => {
            &&& o.inner.len() == 1
            &&& inner[0].n_vars >= o.n_vars
            &&& inner[0].tower_level == o.tower_level
        },
        MultilinearPolyVariant::LinearCombination => {
            &&& all_have_n_vars(inner, o.n_vars)
            &&& o.tower_level == max_tower_level(inner)
        },
    }
}

/// Whether `oracles` is the content of an oracle set: every entry may stand
/// where it stands. Inner handles being smaller, the graph has no cycle.
pub open spec fn well_formed(oracles: Seq<OracleSpec>) -> bool {
    forall|i: int| 0 <= i < oracles.len() ==> #[trigger] entry_ok(oracles, i)
}

/// How many reductions lie between the oracle `id` and the committed leaves
/// below it: 0 for a leaf, and for a virtual oracle one more than the
/// greatest depth among its inner oracles.
pub open spec fn depth(oracles: Seq<OracleSpec>, id: int) -> nat
    decreases id, (if 0 <= id < oracles.len() { oracles[id].inner.len() + 1 } else { 0 }),
{
    if 0 <= id < oracles.len() && oracles[id].variant != MultilinearPolyVariant::Committed {
        1 + max_depth_below(oracles, oracles[id].inner, id)
    } else {
        0
    }
}

/// The greatest depth among those of `ids` that are smaller than `bound`.
pub open spec fn max_depth_below(oracles: Seq<OracleSpec>, ids: Seq<OracleId>, bound: int) -> nat
    decreases bound, ids.len(),
{
    if ids.len() == 0 {
        0
    } else {
        let rest = max_depth_below(oracles, ids.drop_last(), bound);
        let last = if ids.last() < bound {
            depth(oracles, ids.last() as int)
        } else {
            0
        };
        if last > rest {
            last
        } else {
            rest
        }
    }
}

/// The greatest depth among `ids`.
pub open spec fn max_depth(oracles: Seq<OracleSpec>, ids: Seq<OracleId>) -> nat
    decreases ids.len(),
{
    if ids.len() == 0 {
        0
    } else {
        let rest = max_depth(oracles, ids.drop_last());
        let last = depth(oracles, ids.last() as int);
        if last > rest {
            last
        } else {
            rest
        }
    }
}

/// The greatest depth among the first `count` oracles.
pub open spec fn max_depth_among_first(oracles: Seq<OracleSpec>, count: nat) -> nat
    decreases count,
{
    if count == 0 {
        0
    } else {
        let rest = max_depth_among_first(oracles, (count - 1) as nat);
        let last = depth(oracles, count - 1);
        if last > rest {
            last
        } else {
            rest
        }
    }
}

/// The depth of the graph: the greatest depth among its oracles.
pub open spec fn graph_depth(oracles: Seq<OracleSpec>) -> nat {
    max_depth_among_first(oracles, oracles.len())
}

/// Each of `ids` is at most as deep as the deepest of them.
pub proof fn lemma_max_depth(oracles: Seq<OracleSpec>, ids: Seq<OracleId>, k: int)
    requires
        0 <= k < ids.len(),
    ensures
        depth(oracles, ids[k] as int) <= max_depth(oracles, ids),
    decreases ids.len(),
{
    if k < ids.len() - 1 {
        lemma_max_depth(oracles, ids.drop_last(), k);
    }
}

/// Where every one of `ids` lies below `bound`, the bound changes nothing.
pub proof fn lemma_max_depth_below(oracles: Seq<OracleSpec>, ids: Seq<OracleId>, bound: int)
    requires
        forall|k: int| 0 <= k < ids.len() ==> (#[trigger] ids[k]) < bound,
    ensures
        max_depth_below(oracles, ids, bound) == max_depth(oracles, ids),
    decreases ids.len(),
{
    if ids.len() > 0 {
        assert(ids.last() == ids[ids.len() - 1]);
        assert forall|k: int| 0 <= k < ids.drop_last().len() implies (#[trigger] ids.drop_last()[k])
            < bound by {
            assert(ids.drop_last()[k] == ids[k]);
        }
        lemma_max_depth_below(oracles, ids.drop_last(), bound);
    }
}

/// In a well-formed set a virtual oracle is one deeper than the deepest of
/// its inner oracles, and so deeper than each of them.
pub proof fn lemma_depth_of_virtual(oracles: Seq<OracleSpec>, id: int)
    requires
        well_formed(oracles),
        0 <= id < oracles.len(),
        oracles[id].variant != MultilinearPolyVariant::Committed,
    ensures
        depth(oracles, id) == 1 + max_depth(oracles, oracles[id].inner),
        forall|k: int|
            0 <= k < oracles[id].inner.len() ==> depth(oracles, (#[trigger] oracles[id].inner[k]) as int)
                < depth(oracles, id),
{
    assert(entry_ok(oracles, id));
    lemma_max_depth_below(oracles, oracles[id].inner, id);
    assert forall|k: int| 0 <= k < oracles[id].inner.len() implies depth(
        oracles,
        (#[trigger] oracles[id].inner[k]) as int,
    ) < depth(oracles, id) by {
        lemma_max_depth(oracles, oracles[id].inner, k);
    }
}

/// None of the first `count` oracles is deeper than the deepest of them.
proof fn lemma_max_depth_among_first(oracles: Seq<OracleSpec>, count: nat, id: int)
    requires
        0 <= id < count,
    ensures
        depth(oracles, id) <= max_depth_among_first(oracles, count),
    decreases count,
{
    if id < count - 1 {
        lemma_max_depth_among_first(oracles, (count - 1) as nat, id);
    }
}

/// Where none of `ids` is deeper than `bound`, the deepest of them is not.
pub proof fn lemma_max_depth_at_most(oracles: Seq<OracleSpec>, ids: Seq<OracleId>, bound: nat)
    requires
        forall|k: int| 0 <= k < ids.len() ==> depth(oracles, (#[trigger] ids[k]) as int) <= bound,
    ensures
        max_depth(oracles, ids) <= bound,
    decreases ids.len(),
{
    if ids.len() > 0 {
        assert(ids.last() == ids[ids.len() - 1]);
        assert forall|k: int| 0 <= k < ids.drop_last().len() implies depth(
            oracles,
            (#[trigger] ids.drop_last()[k]) as int,
        ) <= bound by {
            assert(ids.drop_last()[k] == ids[k]);
        }
        lemma_max_depth_at_most(oracles, ids.drop_last(), bound);
    }
}

/// In a well-formed set the oracle `id` is at most `id + 1` deep.
pub proof fn lemma_depth_at_most(oracles: Seq<OracleSpec>, id: int)
    requires
        well_formed(oracles),
        0 <= id < oracles.len(),
    ensures
        depth(oracles, id) <= id + 1,
    decreases id,
{
    if oracles[id].variant != MultilinearPolyVariant::Committed {
        lemma_depth_of_virtual(oracles, id);
        assert(entry_ok(oracles, id));
        let inner = oracles[id].inner;
        assert forall|k: int| 0 <= k < inner.len() implies depth(oracles, (#[trigger] inner[k]) as int)
            <= id by {
            assert(entry_ok(oracles, inner[k] as int));
            lemma_depth_at_most(oracles, inner[k] as int);
        }
        lemma_max_depth_at_most(oracles, inner, id as nat);
    }
}

/// A well-formed set is at most as deep as it has oracles.
pub proof fn lemma_graph_depth_at_most(oracles: Seq<OracleSpec>, count: nat)
    requires
        well_formed(oracles),
        count <= oracles.len(),
    ensures
        max_depth_among_first(oracles, count) <= count,
    decreases count,
{
    if count > 0 {
        lemma_graph_depth_at_most(oracles, (count - 1) as nat);
        lemma_depth_at_most(oracles, count - 1);
    }
}

/// No oracle is deeper than the graph.
pub proof fn lemma_depth_within_graph(oracles: Seq<OracleSpec>, id: int)
    ensures
        depth(oracles, id) <= graph_depth(oracles),
{
    if 0 <= id < oracles.len() {
        lemma_max_depth_among_first(oracles, oracles.len(), id);
    }
}

/// What registering an entry does to a set: where there is an entry, it is
/// appended and its handle returned; where there is an error, the set stays
/// as it was and the error is returned.
pub open spec fn registration(
    before: Seq<OracleSpec>,
    after: Seq<OracleSpec>,
    entry: Result<OracleSpec, Error>,
    r: Result<OracleId, Error>,
) -> bool {
    match entry {
        Ok(o) => after == before.push(o) && r == Ok::<OracleId, Error>(o.id),
        Err(e) => after == before && r == Err::<OracleId, Error>(e),
    }
}

/// The entry of a committed polynomial.
pub open spec fn committed_entry(oracles: Seq<OracleSpec>, n_vars: usize, tower_level: usize) -> OracleSpec {
    OracleSpec {
        id: oracles.len() as usize,
        n_vars,
        tower_level,
        variant: MultilinearPolyVariant::Committed,
        inner: Seq::empty(),
    }
}

/// The entry of the composite of `inner` under `composition`, or why there
/// is none: a handle that names no oracle, else what the construction of the
/// composite oracle refuses.
pub open spec fn composite_entry(
    oracles: Seq<OracleSpec>,
    n_vars: usize,
    inner: Seq<OracleId>,
    composition: Composition,
) -> Result<OracleSpec, Error> {
    match first_unknown(inner, oracles.len()) {
        Some(id) => Err(Error::InvalidOracleId { id }),
        None => match construction(n_vars, inner_of(oracles, inner), composition) {
            Err(e) => Err(e),
            Ok(_) => Ok(
                OracleSpec {
                    id: oracles.len() as usize,
                    n_vars,
                    tower_level: composite_tower_level(composition, inner_of(oracles, inner)),
                    variant: MultilinearPolyVariant::Composite(composition),
                    inner,
                },
            ),
        },
    }
}

/// The entry of the oracle `inner` shifted: as many variables, the same
/// tower level.
pub open spec fn shifted_entry(oracles: Seq<OracleSpec>, inner: OracleId) -> Result<OracleSpec, Error> {
    if inner >= oracles.len() {
        Err(Error::InvalidOracleId { id: inner })
    } else {
        Ok(
            OracleSpec {
                id: oracles.len() as usize,
                n_vars: oracles[inner as int].n_vars,
                tower_level: oracles[inner as int].tower_level,
                variant: MultilinearPolyVariant::Shifted,
                inner: seq![inner],
            },
        )
    }
}

/// The entry of the oracle `inner` packed by `log_degree`: that many
/// variables fewer, that many tower levels higher.
pub open spec fn packed_entry(oracles: Seq<OracleSpec>, inner: OracleId, log_degree: usize) -> Result<
    OracleSpec,
    Error,
> {
    if inner >= oracles.len() {
        Err(Error::InvalidOracleId { id: inner })
    } else if log_degree > oracles[inner as int].n_vars {
        Err(Error::IncorrectNumberOfVariables { expected: log_degree })
    } else if oracles[inner as int].tower_level + log_degree > usize::MAX {
        Err(Error::TowerLevelOverflow)
    } else {
        Ok(
            OracleSpec {
                id: oracles.len() as usize,
                n_vars: (oracles[inner as int].n_vars - log_degree) as usize,
                tower_level: (oracles[inner as int].tower_level + log_degree) as usize,
                variant: MultilinearPolyVariant::Packed,
                inner: seq![inner],
            },
        )
    }
}

/// The entry of the oracle `inner` with `n_projected` of its variables
/// fixed: that many variables fewer, the same tower level.
pub open spec fn projected_entry(oracles: Seq<OracleSpec>, inner: OracleId, n_projected: usize) -> Result<
    OracleSpec,
    Error,
> {
    if inner >= oracles.len() {
        Err(Error::InvalidOracleId { id: inner })
    } else if n_projected > oracles[inner as int].n_vars {
        Err(Error::IncorrectNumberOfVariables { expected: n_projected })
    } else {
        Ok(
            OracleSpec {
                id: oracles.len() as usize,
                n_vars: (oracles[inner as int].n_vars - n_projected) as usize,
                tower_level: oracles[inner as int].tower_level,
                variant: MultilinearPolyVariant::Projected,
                inner: seq![inner],
            },
        )
    }
}

/// The entry of a linear combination of `inner`, or why there is none: a
/// handle that names no oracle, else an inner oracle that has not `n_vars`
/// variables.
pub open spec fn linear_combination_entry(
    oracles: Seq<OracleSpec>,
    n_vars: usize,
    inner: Seq<OracleId>,
) -> Result<OracleSpec, Error> {
    match first_unknown(inner, oracles.len()) {
        Some(id) => Err(Error::InvalidOracleId { id }),
        None => if !all_have_n_vars(inner_of(oracles, inner), n_vars) {
            Err(Error::IncorrectNumberOfVariables { expected: n_vars })
        } else {
            Ok(
                OracleSpec {
                    id: oracles.len() as usize,
                    n_vars,
                    tower_level: max_tower_level(inner_of(oracles, inner)),
                    variant: MultilinearPolyVariant::LinearCombination,
                    inner,
                },
            )
        },
    }
}

/// Where none of `ids` is unknown, each names an oracle; where one is, the
/// first such is itself one of `ids` and names none.
pub proof fn lemma_first_unknown(ids: Seq<OracleId>, size: nat)
    ensures
        first_unknown(ids, size) is None ==> forall|k: int|
            0 <= k < ids.len() ==> (#[trigger] ids[k]) < size,
        first_unknown(ids, size) matches Some(id) ==> id >= size && ids.contains(id),
    decreases ids.len(),
{
    if ids.len() > 0 {
        let front = ids.drop_last();
        lemma_first_unknown(front, size);
        if first_unknown(front, size) is None {
            assert forall|k: int| 0 <= k < ids.len() && ids.last() < size implies (#[trigger] ids[k])
                < size by {
                if k < front.len() {
                    assert(front[k] == ids[k]);
                }
            }
            assert(ids[ids.len() - 1] == ids.last());
        } else {
            let id = first_unknown(front, size)->Some_0;
            let k = choose|k: int| 0 <= k < front.len() && front[k] == id;
            assert(ids[k] == id);
        }
    }
}

/// An unknown handle found in a prefix is the first unknown handle of the
/// whole.
proof fn lemma_first_unknown_prefix(ids: Seq<OracleId>, n: int, size: nat)
    requires
        0 <= n <= ids.len(),
        first_unknown(ids.take(n), size) is Some,
    ensures
        first_unknown(ids, size) == first_unknown(ids.take(n), size),
    decreases ids.len() - n,
{
    if n < ids.len() {
        assert(ids.take(n + 1).drop_last() =~= ids.take(n));
        lemma_first_unknown_prefix(ids, n + 1, size);
    } else {
        assert(ids.take(n) =~= ids);
    }
}

/// An entry that may stand in a set may stand in every extension of it.
proof fn lemma_entry_ok_extends(oracles: Seq<OracleSpec>, added: OracleSpec, i: int)
    requires
        0 <= i < oracles.len(),
        entry_ok(oracles, i),
    ensures
        entry_ok(oracles.push(added), i),
{
    let longer = oracles.push(added);
    let o = oracles[i];
    assert(longer[i] == o);
    assert(inner_of(longer, o.inner) =~= inner_of(oracles, o.inner));
}

/// The registry of the oracles of one proving session.
///
/// Handles are given out in order and never taken back. An oracle can only
/// name oracles that were registered before it.
#[derive(Debug)]
pub struct MultilinearOracleSet {
    oracles: Vec<MultilinearPolyOracle>,
}

impl View for MultilinearOracleSet {
    type V = Seq<OracleSpec>;

    closed spec fn view(&self) -> Seq<OracleSpec> {
        views_of(self.oracles@)
    }
}

impl core::ops::Index<OracleId> for MultilinearOracleSet {
    type Output = MultilinearPolyOracle;

    /// The descriptor of the oracle `id`.
    fn index(&self, id: OracleId) -> (r: &MultilinearPolyOracle)
        ensures
            r@ == self@[id as int],
    {
        &self.oracles[id]
    }
}

impl vstd::std_specs::core::IndexSpecImpl<OracleId> for MultilinearOracleSet {
    open spec fn index_req(&self, id: &OracleId) -> bool {
        *id < self@.len()
    }
}

impl MultilinearOracleSet {
    /// The invariant of the type: the content is well formed.
    #[verifier::type_invariant]
    pub closed spec fn inv(&self) -> bool {
        well_formed(views_of(self.oracles@))
    }

    /// A set that satisfies its invariant holds well-formed content, with
    /// no more oracles than the machine can count.
    pub proof fn lemma_inv(&self)
        requires
            self.inv(),
        ensures
            well_formed(self@),
            self@.len() <= usize::MAX,
    {
        assert(self@.len() == self.oracles.len());
    }

    /// The empty set.
    pub fn new() -> (r: Self)
        ensures
            r@.len() == 0,
    {
        MultilinearOracleSet { oracles: Vec::new() }
    }

    /// The number of oracles.
    pub fn size(&self) -> (r: usize)
        ensures
            r == self@.len(),
    {
        self.oracles.len()
    }

    /// Whether `id` names an oracle of the set.
    pub fn is_valid_oracle_id(&self, id: OracleId) -> (r: bool)
        ensures
            r == (id < self@.len()),
    {
        id < self.oracles.len()
    }

    /// The descriptor of the oracle `id`.
    pub fn oracle(&self, id: OracleId) -> (r: MultilinearPolyOracle)
        requires
            id < self@.len(),
        ensures
            r@ == self@[id as int],
    {
        self.oracles[id].clone()
    }

    /// The number of variables of the oracle `id`.
    pub fn n_vars(&self, id: OracleId) -> (r: usize)
        requires
            id < self@.len(),
        ensures
            r == self@[id as int].n_vars,
    {
        self.oracles[id].n_vars
    }

    /// The tower level of the oracle `id`.
    pub fn tower_level(&self, id: OracleId) -> (r: usize)
        requires
            id < self@.len(),
        ensures
            r == self@[id as int].tower_level,
    {
        self.oracles[id].tower_level
    }

    /// Appends a descriptor that may stand at the end of the set.
    fn register(
        &mut self,
        n_vars: usize,
        tower_level: usize,
        variant: MultilinearPolyVariant,
        inner: Vec<OracleId>,
    ) -> (id: OracleId)
        requires
            entry_ok(
                old(self)@.push(
                    OracleSpec {
                        id: old(self)@.len() as usize,
                        n_vars,
                        tower_level,
                        variant,
                        inner: inner@,
                    },
                ),
                old(self)@.len() as int,
            ),
        ensures
            id == old(self)@.len(),
            final(self)@ == old(self)@.push(
                OracleSpec { id, n_vars, tower_level, variant, inner: inner@ },
            ),
    {
        proof {
            use_type_invariant(&*self);
        }
        let id = self.oracles.len();
        let ghost before = views_of(self.oracles@);
        let ghost added = OracleSpec { id, n_vars, tower_level, variant, inner: inner@ };
        let record = MultilinearPolyOracle { id, n_vars, tower_level, variant, inner };
        proof {
            assert forall|i: int| 0 <= i < before.push(added).len() implies #[trigger] entry_ok(
                before.push(added),
                i,
            ) by {
                if i < before.len() {
                    lemma_entry_ok_extends(before, added, i);
                }
            }
            assert(views_of(self.oracles@.push(record)) =~= before.push(added));
        }
        let mut oracles: Vec<MultilinearPolyOracle> = Vec::new();
        core::mem::swap(&mut self.oracles, &mut oracles);
        oracles.push(record);
        core::mem::swap(&mut self.oracles, &mut oracles);
        id
    }
    /// Finds the descriptors that `ids` name, or the first of `ids` that
    /// names none.
    fn lookup_all(&self, ids: &Vec<OracleId>) -> (r: Result<Vec<MultilinearPolyOracle>, Error>)
        ensures
            match r {
                Ok(found) => first_unknown(ids@, self@.len()) is None && views_of(found@)
                    == inner_of(self@, ids@),
                Err(e) => first_unknown(ids@, self@.len()) matches Some(id) && e
                    == (Error::InvalidOracleId { id }),
            },
    {
        let mut found: Vec<MultilinearPolyOracle> = Vec::new();
        let mut i: usize = 0;
        while i < ids.len()
            invariant
                i <= ids.len(),
                found@.len() == i,
                first_unknown(ids@.take(i as int), self@.len()) is None,
                forall|j: int| 0 <= j < i ==> (#[trigger] views_of(found@)[j]) == self@[ids@[j] as int],
            decreases ids.len() - i,
        {
            assert(ids@.take(i as int + 1).drop_last() =~= ids@.take(i as int));
            if ids[i] >= self.oracles.len() {
                proof {
                    lemma_first_unknown_prefix(ids@, i as int + 1, self@.len());
                }
                return Err(Error::InvalidOracleId { id: ids[i] });
            }
            let ghost before = found@;
            found.push(self.oracles[ids[i]].clone());
            assert forall|j: int| 0 <= j < i + 1 implies (#[trigger] views_of(found@)[j])
                == self@[ids@[j] as int] by {
                if j < i {
                    assert(views_of(before)[j] == self@[ids@[j] as int]);
                }
            }
            i += 1;
        }
        assert(ids@.take(ids.len() as int) =~= ids@);
        assert(views_of(found@) =~= inner_of(self@, ids@));
        Ok(found)
    }

    /// Registers a committed polynomial of `n_vars` variables with values at
    /// `tower_level`, and returns its handle.
    pub fn add_committed(&mut self, n_vars: usize, tower_level: usize) -> (id: OracleId)
        ensures
            id == old(self)@.len(),
            final(self)@ == old(self)@.push(committed_entry(old(self)@, n_vars, tower_level)),
    {
        assert(self@.len() == self.oracles.len());
        self.register(n_vars, tower_level, MultilinearPolyVariant::Committed, Vec::new())
    }

    /// Registers the composite of the oracles `inner` under `composition`.
    pub fn add_composite(&mut self, n_vars: usize, inner: Vec<OracleId>, composition: Composition) -> (r:
        Result<OracleId, Error>)
        ensures
            registration(
                old(self)@,
                final(self)@,
                composite_entry(old(self)@, n_vars, inner@, composition),
                r,
            ),
    {
        let found = match self.lookup_all(&inner) {
            Ok(found) => found,
            Err(e) => {
                return Err(e);
            },
        };
        let composite = match CompositePolyOracle::new(n_vars, found, composition) {
            Ok(composite) => composite,
            Err(e) => {
                return Err(e);
            },
        };
        let tower_level = composite.binary_tower_level();
        proof {
            assert(self@.len() == self.oracles.len());
            lemma_first_unknown(inner@, self@.len());
            let entry = composite_entry(self@, n_vars, inner@, composition)->Ok_0;
            assert(inner_of(self@.push(entry), inner@) =~= inner_of(self@, inner@));
        }
        Ok(self.register(n_vars, tower_level, MultilinearPolyVariant::Composite(composition), inner))
    }

    /// Registers the oracle `inner` shifted.
    pub fn add_shifted(&mut self, inner: OracleId) -> (r: Result<OracleId, Error>)
        ensures
            registration(old(self)@, final(self)@, shifted_entry(old(self)@, inner), r),
    {
        if inner >= self.oracles.len() {
            return Err(Error::InvalidOracleId { id: inner });
        }
        let n_vars = self.oracles[inner].n_vars;
        let tower_level = self.oracles[inner].tower_level;
        let mut ids: Vec<OracleId> = Vec::new();
        ids.push(inner);
        proof {
            let entry = shifted_entry(self@, inner)->Ok_0;
            assert(ids@ =~= seq![inner]);
            assert(inner_of(self@.push(entry), ids@)[0] == self@[inner as int]);
        }
        Ok(self.register(n_vars, tower_level, MultilinearPolyVariant::Shifted, ids))
    }

    /// Registers the oracle `inner` packed by `log_degree`.
    pub fn add_packed(&mut self, inner: OracleId, log_degree: usize) -> (r: Result<OracleId, Error>)
        ensures
            registration(old(self)@, final(self)@, packed_entry(old(self)@, inner, log_degree), r),
    {
        if inner >= self.oracles.len() {
            return Err(Error::InvalidOracleId { id: inner });
        }
        if log_degree > self.oracles[inner].n_vars {
            return Err(Error::IncorrectNumberOfVariables { expected: log_degree });
        }
        let n_vars = self.oracles[inner].n_vars - log_degree;
        let tower_level = match self.oracles[inner].tower_level.checked_add(log_degree) {
            Some(level) => level,
            None => {
                return Err(Error::TowerLevelOverflow);
            },
        };
        let mut ids: Vec<OracleId> = Vec::new();
        ids.push(inner);
        proof {
            let entry = packed_entry(self@, inner, log_degree)->Ok_0;
            assert(ids@ =~= seq![inner]);
            assert(inner_of(self@.push(entry), ids@)[0] == self@[inner as int]);
        }
        Ok(self.register(n_vars, tower_level, MultilinearPolyVariant::Packed, ids))
    }

    /// Registers the oracle `inner` with `n_projected` of its variables
    /// fixed.
    pub fn add_projected(&mut self, inner: OracleId, n_projected: usize) -> (r: Result<OracleId, Error>)
        ensures
            registration(
                old(self)@,
                final(self)@,
                projected_entry(old(self)@, inner, n_projected),
                r,
            ),
    {
        if inner >= self.oracles.len() {
            return Err(Error::InvalidOracleId { id: inner });
        }
        if n_projected > self.oracles[inner].n_vars {
            return Err(Error::IncorrectNumberOfVariables { expected: n_projected });
        }
        let n_vars = self.oracles[inner].n_vars - n_projected;
        let tower_level = self.oracles[inner].tower_level;
        let mut ids: Vec<OracleId> = Vec::new();
        ids.push(inner);
        proof {
            let entry = projected_entry(self@, inner, n_projected)->Ok_0;
            assert(ids@ =~= seq![inner]);
            assert(inner_of(self@.push(entry), ids@)[0] == self@[inner as int]);
        }
        Ok(self.register(n_vars, tower_level, MultilinearPolyVariant::Projected, ids))
    }

    /// Registers a linear combination of the oracles `inner`, each of
    /// `n_vars` variables.
    pub fn add_linear_combination(&mut self, n_vars: usize, inner: Vec<OracleId>) -> (r: Result<
        OracleId,
        Error,
    >)
        ensures
            registration(
                old(self)@,
                final(self)@,
                linear_combination_entry(old(self)@, n_vars, inner@),
                r,
            ),
    {
        let found = match self.lookup_all(&inner) {
            Ok(found) => found,
            Err(e) => {
                return Err(e);
            },
        };
        if !have_n_vars(&found, n_vars) {
            return Err(Error::IncorrectNumberOfVariables { expected: n_vars });
        }
        let tower_level = greatest_tower_level(&found);
        proof {
            assert(self@.len() == self.oracles.len());
            lemma_first_unknown(inner@, self@.len());
            let entry = linear_combination_entry(self@, n_vars, inner@)->Ok_0;
            assert(inner_of(self@.push(entry), inner@) =~= inner_of(self@, inner@));
        }
        Ok(self.register(n_vars, tower_level, MultilinearPolyVariant::LinearCombination, inner))
    }
}

} // verus!
