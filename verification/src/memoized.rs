//! The evaluations that a proving session has already met, by oracle and
//! point.

use vstd::prelude::*;
use crate::claim::{claims_of, ClaimSpec, EvalcheckMultilinearClaim};
use crate::field::{copy_elements, same_elements, Field};
use crate::oracle::OracleId;

verus! {

/// The value on record for the oracle `id` at `point`: that of the latest
/// entry with this oracle and point, if there is one.
pub open spec fn lookup<F: Field>(entries: Seq<ClaimSpec<F>>, id: OracleId, point: Seq<F>) -> Option<F>
    decreases entries.len(),
{
    if entries.len() == 0 {
        None
    } else if entries.last().id == id && entries.last().eval_point == point {
        Some(entries.last().eval)
    } else {
        lookup(entries.drop_last(), id, point)
    }
}

/// Whether no two entries share oracle and point.
pub open spec fn distinct_keys<F: Field>(entries: Seq<ClaimSpec<F>>) -> bool {
    forall|i: int, j: int|
        0 <= i < j < entries.len() ==> !((#[trigger] entries[i]).id == (#[trigger] entries[j]).id
            && entries[i].eval_point == entries[j].eval_point)
}

/// What recording `eval` for the oracle `id` at `point` makes of the
/// entries: a new last entry where the oracle and point are new, and no
/// change where they are on record.
pub open spec fn recorded<F: Field>(entries: Seq<ClaimSpec<F>>, id: OracleId, point: Seq<F>, eval: F) -> Seq<
    ClaimSpec<F>,
> {
    if lookup(entries, id, point) is None {
        entries.push(ClaimSpec { id, eval_point: point, eval })
    } else {
        entries
    }
}

/// A value is on record exactly where an entry has the oracle and point, and
/// then it is the value of such an entry.
pub proof fn lemma_lookup<F: Field>(entries: Seq<ClaimSpec<F>>, id: OracleId, point: Seq<F>)
    ensures
        lookup(entries, id, point) is None <==> forall|i: int|
            0 <= i < entries.len() ==> !((#[trigger] entries[i]).id == id && entries[i].eval_point
                == point),
        lookup(entries, id, point) matches Some(eval) ==> exists|i: int|
            0 <= i < entries.len() && (#[trigger] entries[i]) == (ClaimSpec {
                id,
                eval_point: point,
                eval,
            }),
    decreases entries.len(),
{
    if entries.len() > 0 {
        let front = entries.drop_last();
        lemma_lookup(front, id, point);
        let last = entries.last();
        if last.id == id && last.eval_point == point {
            assert(entries[entries.len() - 1] == last);
        } else {
            assert forall|i: int| 0 <= i < front.len() implies front[i] == entries[i] by {}
            if lookup(front, id, point) is None {
                assert forall|i: int| 0 <= i < entries.len() implies !((#[trigger] entries[i]).id
                    == id && entries[i].eval_point == point) by {
                    if i < front.len() {
                        assert(front[i] == entries[i]);
                    }
                }
            } else {
                let eval = lookup(front, id, point)->Some_0;
                let i = choose|i: int|
                    0 <= i < front.len() && (#[trigger] front[i]) == (ClaimSpec {
                        id,
                        eval_point: point,
                        eval,
                    });
                assert(entries[i] == front[i]);
            }
        }
    }
}

/// Recording keeps the entries distinct, keeps every entry that was there,
/// and leaves a value on record for the oracle and point.
pub proof fn lemma_recorded<F: Field>(entries: Seq<ClaimSpec<F>>, id: OracleId, point: Seq<F>, eval: F)
    requires
        distinct_keys(entries),
    ensures
        distinct_keys(recorded(entries, id, point, eval)),
        recorded(entries, id, point, eval).take(entries.len() as int) == entries,
        lookup(recorded(entries, id, point, eval), id, point) is Some,
        lookup(entries, id, point) is None ==> lookup(recorded(entries, id, point, eval), id, point)
            == Some(eval),
{
    let after = recorded(entries, id, point, eval);
    lemma_lookup(entries, id, point);
    assert(after.take(entries.len() as int) =~= entries);
    if lookup(entries, id, point) is None {
        assert(after.drop_last() =~= entries);
    }
}

/// The record of the evaluations met in one proving session.
///
/// Entries are only ever added, and never for an oracle and point that are
/// on record already.
#[derive(Debug)]
pub struct MemoizedData<F: Field> {
    entries: Vec<EvalcheckMultilinearClaim<F>>,
}

impl<F: Field> View for MemoizedData<F> {
    type V = Seq<ClaimSpec<F>>;

    closed spec fn view(&self) -> Seq<ClaimSpec<F>> {
        claims_of(self.entries@)
    }
}

impl<F: Field> MemoizedData<F> {
    /// The empty record.
    pub fn new() -> (r: Self)
        ensures
            r@ == Seq::<ClaimSpec<F>>::empty(),
    {
        let r = MemoizedData { entries: Vec::new() };
        assert(r@ =~= Seq::<ClaimSpec<F>>::empty());
        r
    }

    /// The number of entries.
    pub fn len(&self) -> (r: usize)
        ensures
            r == self@.len(),
    {
        self.entries.len()
    }

    /// The value on record for the oracle `id` at `point`.
    pub fn get(&self, id: OracleId, point: &Vec<F>) -> (r: Option<F>)
        ensures
            r == lookup(self@, id, point@),
    {
        let mut i: usize = self.entries.len();
        assert(self@.take(i as int) =~= self@);
        while i > 0
            invariant
                i <= self.entries.len(),
                lookup(self@, id, point@) == lookup(self@.take(i as int), id, point@),
            decreases i,
        {
            let entry = &self.entries[i - 1];
            assert(self@.take(i as int).last() == entry@);
            assert(self@.take(i as int).drop_last() =~= self@.take(i as int - 1));
            if entry.id == id && same_elements(&entry.eval_point, point) {
                return Some(entry.eval);
            }
            i -= 1;
        }
        None
    }

    /// Records `eval` for the oracle `id` at `point`, unless a value is on
    /// record for them. Tells whether it made an entry.
    pub fn record(&mut self, id: OracleId, point: &Vec<F>, eval: F) -> (r: bool)
        ensures
            final(self)@ == recorded(old(self)@, id, point@, eval),
            r == (lookup(old(self)@, id, point@) is None),
    {
        if self.get(id, point).is_some() {
            return false;
        }
        let ghost before = self@;
        self.entries.push(EvalcheckMultilinearClaim { id, eval_point: copy_elements(point), eval });
        assert(self@ =~= before.push(ClaimSpec { id, eval_point: point@, eval }));
        true
    }

    /// The entries, oldest first.
    pub fn entries(&self) -> (r: Vec<EvalcheckMultilinearClaim<F>>)
        ensures
            claims_of(r@) == self@,
    {
        let mut out: Vec<EvalcheckMultilinearClaim<F>> = Vec::new();
        let mut i: usize = 0;
        while i < self.entries.len()
            invariant
                i <= self.entries.len(),
                out@.len() == i,
                forall|j: int| 0 <= j < i ==> (#[trigger] out@[j])@ == self.entries@[j]@,
            decreases self.entries.len() - i,
        {
            out.push(self.entries[i].clone());
            i += 1;
        }
        assert(claims_of(out@) =~= self@);
        out
    }
}

} // verus!
