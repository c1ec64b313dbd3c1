//! The grand product argument: the witness of a product over the boolean
//! hypercube, with the layers of partial products that the layered reduction
//! walks down.

use vstd::prelude::*;
use vstd::arithmetic::power2::{
    lemma_pow2_adds, lemma_pow2_pos, lemma_pow2_subtracts, lemma_pow2_unfold, pow2,
};
use vstd::arithmetic::mul::lemma_mul_inequality;
use crate::claim::{ClaimSpec, EvalcheckMultilinearClaim};
use crate::field::{copy_elements, same_elements, Field};
use crate::oracle::OracleId;

verus! {

/// Why a grand product argument could not be set up or carried out.
#[derive(Clone, Copy, Debug, PartialEq, Eq, Structural)]
pub enum Error {
    /// A table for `n_vars` variables does not hold `2^n_vars` values.
    WitnessSizeMismatch { n_vars: usize, actual: usize },
    /// A batch has not as many claims as witnesses.
    MismatchedWitnessClaimLength { witnesses: usize, claims: usize },
    /// The witness or the claim at `index` of a batch is not for as many
    /// variables as the first witness of the batch.
    NumberOfVariablesMismatch { index: usize, expected: usize },
    /// The reduction of a layer did not bring one claim for each witness.
    LayerClaimsCountMismatch { layer: usize, expected: usize, actual: usize },
    /// The claim at `index` that the reduction of a layer brought is not at
    /// a point of the layer, or not at the point of the first claim.
    LayerClaimPointMismatch { layer: usize, index: usize },
    /// There are not as many claims on tables as oracles to state them of.
    MismatchedOracleClaimLength { oracles: usize, claims: usize },
}

/// The claim that the values of a polynomial of `n_vars` variables on the
/// boolean hypercube multiply to `product`.
#[derive(Debug)]
pub struct GrandProductClaim<F: Field> {
    pub n_vars: usize,
    pub product: F,
}

impl<F: Field> Clone for GrandProductClaim<F> {
    fn clone(&self) -> (r: Self)
        ensures
            r == *self,
    {
        GrandProductClaim { n_vars: self.n_vars, product: self.product }
    }
}

impl<F: Field> Copy for GrandProductClaim<F> {

}

/// The product of the elements of a sequence that is not empty, taken from
/// left to right.
pub open spec fn product<F: Field>(values: Seq<F>) -> F
    decreases values.len(),
{
    if values.len() <= 1 {
        values[0]
    } else {
        product(values.drop_last()).mul_spec(values.last())
    }
}

/// The `i`-th block of `2^k` values.
pub open spec fn block<F: Field>(values: Seq<F>, k: nat, i: int) -> Seq<F> {
    values.subrange(i * pow2(k), (i + 1) * pow2(k))
}

/// The `k`-th layer of partial products: the product of each block of `2^k`
/// values.
pub open spec fn layer<F: Field>(values: Seq<F>, k: nat) -> Seq<F> {
    Seq::new((values.len() / pow2(k)) as nat, |i: int| product(block(values, k, i)))
}

/// The product of two sequences put end to end is the product of their
/// products.
pub proof fn lemma_product_concat<F: Field>(a: Seq<F>, b: Seq<F>)
    requires
        a.len() > 0,
        b.len() > 0,
    ensures
        product(a + b) == product(a).mul_spec(product(b)),
    decreases b.len(),
{
    let whole = a + b;
    if b.len() == 1 {
        assert(whole.drop_last() =~= a);
        assert(whole.last() == b[0]);
    } else {
        lemma_product_concat(a, b.drop_last());
        assert(whole.drop_last() =~= a + b.drop_last());
        assert(whole.last() == b.last());
        F::lemma_mul_associative(product(a), product(b.drop_last()), b.last());
    }
}

/// A cell of a layer is the product of its block.
pub proof fn lemma_layer_index<F: Field>(values: Seq<F>, k: nat, i: int)
    requires
        0 <= i < layer(values, k).len(),
    ensures
        layer(values, k)[i] == product(block(values, k, i)),
{
    lemma_pow2_pos(k);
    vstd::arithmetic::div_mod::lemma_div_pos_is_pos(values.len() as int, pow2(k) as int);
}

/// A table of `2^n` values has `2^(n - k)` blocks of `2^k` values.
pub proof fn lemma_layer_len<F: Field>(values: Seq<F>, n: nat, k: nat)
    requires
        values.len() == pow2(n),
        k <= n,
    ensures
        layer(values, k).len() == pow2((n - k) as nat),
        pow2((n - k) as nat) * pow2(k) == values.len(),
{
    lemma_pow2_subtracts(k, n);
    lemma_pow2_adds((n - k) as nat, k);
}

/// Each of the `2^(n - k)` blocks of `2^k` values lies within the table.
pub proof fn lemma_block_within<F: Field>(values: Seq<F>, n: nat, k: nat, i: int)
    requires
        values.len() == pow2(n),
        k <= n,
        0 <= i < pow2((n - k) as nat),
    ensures
        0 <= i * pow2(k),
        (i + 1) * pow2(k) <= values.len(),
{
    lemma_layer_len(values, n, k);
    lemma_pow2_pos(k);
    lemma_mul_inequality(0, i, pow2(k) as int);
    lemma_mul_inequality(i + 1, pow2((n - k) as nat) as int, pow2(k) as int);
}

/// A block of the next layer is two neighbouring blocks of this one, so its
/// product is the product of theirs.
pub proof fn lemma_block_split<F: Field>(values: Seq<F>, k: nat, i: int)
    requires
        0 <= i,
        (i + 1) * pow2(k + 1) <= values.len(),
    ensures
        product(block(values, k + 1, i)) == product(block(values, k, 2 * i)).mul_spec(
            product(block(values, k, 2 * i + 1)),
        ),
{
    let w = pow2(k) as int;
    lemma_pow2_unfold(k + 1);
    lemma_pow2_pos(k);
    assert(pow2(k + 1) == 2 * w);
    assert(i * (2 * w) == (2 * i) * w) by (nonlinear_arith);
    assert((i + 1) * (2 * w) == (2 * i + 2) * w) by (nonlinear_arith);
    assert((2 * i + 1) * w == (2 * i) * w + w) by (nonlinear_arith);
    assert((2 * i + 2) * w == (2 * i + 1) * w + w) by (nonlinear_arith);
    assert(0 <= (2 * i) * w) by (nonlinear_arith)
        requires
            0 <= i,
            0 < w,
    ;
    let left = block(values, k, 2 * i);
    let right = block(values, k, 2 * i + 1);
    assert(block(values, k + 1, i) =~= left + right);
    lemma_product_concat(left, right);
}

/// The top layer of a table of `2^n` values is the one product of them all.
pub proof fn lemma_top_layer<F: Field>(values: Seq<F>, n: nat)
    requires
        values.len() == pow2(n),
    ensures
        layer(values, n).len() == 1,
        layer(values, n)[0] == product(values),
{
    lemma_layer_len(values, n, n);
    assert(pow2(0) == 1) by {
        vstd::arithmetic::power2::lemma2_to64();
    }
    assert(0 * pow2(n) == 0);
    assert((0 + 1) * pow2(n) == pow2(n)) by (nonlinear_arith);
    assert(block(values, n, 0) =~= values);
    lemma_layer_index(values, n, 0);
}

/// The bottom layer of a table is the table.
pub proof fn lemma_bottom_layer<F: Field>(values: Seq<F>)
    ensures
        layer(values, 0) == values,
{
    assert(pow2(0) == 1) by {
        vstd::arithmetic::power2::lemma2_to64();
    }
    assert forall|i: int| 0 <= i < values.len() implies layer(values, 0)[i] == values[i] by {
        assert(block(values, 0, i) =~= seq![values[i]]);
    }
    assert(layer(values, 0) =~= values);
}

/// The values of a polynomial on the boolean hypercube, with every layer of
/// partial products over them.
///
/// Layer `k` holds the product of each block of `2^k` neighbouring values, so
/// layer 0 is the table itself and the last layer is the one product of all.
#[derive(Debug)]
pub struct GrandProductWitness<F: Field> {
    n_vars: usize,
    layers: Vec<Vec<F>>,
}

impl<F: Field> GrandProductWitness<F> {
    /// The table of values.
    pub closed spec fn values(&self) -> Seq<F> {
        self.layers@[0]@
    }

    /// The number of variables.
    pub closed spec fn spec_n_vars(&self) -> nat {
        self.n_vars as nat
    }

    /// The invariant of the type.
    #[verifier::type_invariant]
    pub closed spec fn inv(&self) -> bool {
        &&& self.layers@.len() == self.n_vars + 1
        &&& self.layers@[0]@.len() == pow2(self.n_vars as nat)
        &&& forall|k: int|
            0 <= k <= self.n_vars ==> (#[trigger] self.layers@[k])@ == layer(self.layers@[0]@, k as nat)
    }

    /// Tells whether `len` is `2^n_vars`.
    fn is_hypercube_size(len: usize, n_vars: usize) -> (r: bool)
        ensures
            r == (len == pow2(n_vars as nat)),
    {
        let mut size: usize = 1;
        let mut k: usize = 0;
        proof {
            vstd::arithmetic::power2::lemma2_to64();
        }
        while k < n_vars
            invariant
                k <= n_vars,
                size == pow2(k as nat),
                size <= len || len == 0,
            decreases n_vars - k,
        {
            proof {
                lemma_pow2_unfold((k + 1) as nat);
                if k + 1 < n_vars {
                    vstd::arithmetic::power2::lemma_pow2_strictly_increases(
                        (k + 1) as nat,
                        n_vars as nat,
                    );
                }
            }
            if len == 0 || size > len - size {
                proof {
                    lemma_pow2_pos(n_vars as nat);
                }
                return false;
            }
            size = size + size;
            k += 1;
        }
        size == len
    }

    /// Builds the witness of the product of `values`, the values of a
    /// polynomial of `n_vars` variables on the boolean hypercube.
    ///
    /// Fails where `values` does not hold `2^n_vars` values.
    pub fn new(n_vars: usize, values: Vec<F>) -> (r: Result<Self, Error>)
        ensures
            match r {
                Ok(w) => values@.len() == pow2(n_vars as nat) && w.values() == values@
                    && w.spec_n_vars() == n_vars,
                Err(e) => values@.len() != pow2(n_vars as nat) && e == (Error::WitnessSizeMismatch {
                    n_vars,
                    actual: values.len(),
                }),
            },
    {
        if !Self::is_hypercube_size(values.len(), n_vars) {
            return Err(Error::WitnessSizeMismatch { n_vars, actual: values.len() });
        }
        let ghost table = values@;
        let mut layers: Vec<Vec<F>> = Vec::new();
        layers.push(values);
        proof {
            lemma_bottom_layer(table);
        }
        let mut k: usize = 0;
        while k < n_vars
            invariant
                k <= n_vars,
                table.len() == pow2(n_vars as nat),
                layers@.len() == k + 1,
                forall|j: int| 0 <= j <= k ==> (#[trigger] layers@[j])@ == layer(table, j as nat),
            decreases n_vars - k,
        {
            let below = &layers[k];
            let half = below.len() / 2;
            proof {
                lemma_layer_len(table, n_vars as nat, k as nat);
                lemma_layer_len(table, n_vars as nat, (k + 1) as nat);
                lemma_pow2_unfold((n_vars - k) as nat);
            }
            let mut above: Vec<F> = Vec::new();
            let mut i: usize = 0;
            while i < half
                invariant
                    i <= half,
                    k < n_vars,
                    half == pow2((n_vars - k - 1) as nat),
                    below@.len() == 2 * half,
                    2 * half <= usize::MAX,
                    below@ == layer(table, k as nat),
                    table.len() == pow2(n_vars as nat),
                    above@.len() == i,
                    forall|j: int| 0 <= j < i ==> above@[j] == product(block(table, (k + 1) as nat, j)),
                decreases half - i,
            {
                proof {
                    lemma_block_within(table, n_vars as nat, (k + 1) as nat, i as int);
                    lemma_block_split(table, k as nat, i as int);
                }
                proof {
                    lemma_layer_index(table, k as nat, 2 * i);
                    lemma_layer_index(table, k as nat, 2 * i + 1);
                }
                let cell = below[2 * i].times(below[2 * i + 1]);
                above.push(cell);
                i += 1;
            }
            proof {
                assert forall|j: int| 0 <= j < half implies above@[j] == layer(
                    table,
                    (k + 1) as nat,
                )[j] by {
                    lemma_layer_index(table, (k + 1) as nat, j);
                }
                assert(above@ =~= layer(table, (k + 1) as nat));
            }
            layers.push(above);
            k += 1;
        }
        Ok(GrandProductWitness { n_vars, layers })
    }

    /// The number of variables of the polynomial.
    pub fn n_vars(&self) -> (r: usize)
        ensures
            r == self.spec_n_vars(),
            self.values().len() == pow2(r as nat),
    {
        proof {
            use_type_invariant(self);
        }
        self.n_vars
    }

    /// The product of all the values: the one cell of the last layer.
    pub fn grand_product_evaluation(&self) -> (r: F)
        ensures
            r == product(self.values()),
            r == layer(self.values(), self.spec_n_vars())[0],
    {
        proof {
            use_type_invariant(self);
            lemma_top_layer(self.values(), self.n_vars as nat);
        }
        self.layers[self.n_vars][0]
    }

    /// The `k`-th layer of partial products, for `k` from 0, the table
    /// itself, to the number of variables, the one product of all.
    pub fn ith_layer_evals(&self, k: usize) -> (r: Vec<F>)
        requires
            k <= self.spec_n_vars(),
        ensures
            r@ == layer(self.values(), k as nat),
    {
        proof {
            use_type_invariant(self);
        }
        copy_elements(&self.layers[k])
    }
}

/// In which order the variables of a layer are bound.
#[derive(Clone, Copy, Debug, PartialEq, Eq, Structural)]
pub enum EvaluationOrder {
    /// From the variable of the lowest index up.
    LowToHigh,
    /// From the variable of the highest index down.
    HighToLow,
}

/// The claim that the multilinear extension of a layer takes the value
/// `eval` at `eval_point`.
#[derive(Debug)]
pub struct LayerClaim<F: Field> {
    pub eval_point: Vec<F>,
    pub eval: F,
}

/// What a claim on a layer says, with its point as a sequence.
pub struct LayerClaimSpec<F: Field> {
    pub eval_point: Seq<F>,
    pub eval: F,
}

impl<F: Field> View for LayerClaim<F> {
    type V = LayerClaimSpec<F>;

    open spec fn view(&self) -> LayerClaimSpec<F> {
        LayerClaimSpec { eval_point: self.eval_point@, eval: self.eval }
    }
}

/// The views of a sequence of claims on layers.
pub open spec fn layer_claims_of<F: Field>(claims: Seq<LayerClaim<F>>) -> Seq<LayerClaimSpec<F>> {
    Seq::new(claims.len(), |i: int| claims[i]@)
}

/// The first index below `n` at which `values` does not hold `expected`.
pub open spec fn first_other(values: Seq<nat>, expected: nat, n: nat) -> Option<int>
    decreases n,
{
    if n == 0 {
        None
    } else if first_other(values, expected, (n - 1) as nat) is Some {
        first_other(values, expected, (n - 1) as nat)
    } else if values[n - 1] != expected {
        Some(n - 1)
    } else {
        None
    }
}

/// An index found below `m` is the first index below any greater bound.
pub proof fn lemma_first_other_stays(values: Seq<nat>, expected: nat, m: nat, n: nat)
    requires
        m <= n,
        first_other(values, expected, m) is Some,
    ensures
        first_other(values, expected, n) == first_other(values, expected, m),
    decreases n - m,
{
    if m < n {
        lemma_first_other_stays(values, expected, m, (n - 1) as nat);
    }
}

/// Why a batch of witnesses for these numbers of variables and claims for
/// those cannot be proved together, if it cannot: there are not as many
/// claims as witnesses, or a witness, else a claim, is not for as many
/// variables as the first witness.
pub open spec fn batch_error(witnesses: Seq<nat>, claims: Seq<nat>) -> Option<Error> {
    if witnesses.len() != claims.len() {
        Some(
            Error::MismatchedWitnessClaimLength {
                witnesses: witnesses.len() as usize,
                claims: claims.len() as usize,
            },
        )
    } else if witnesses.len() == 0 {
        None
    } else {
        match first_other(witnesses, witnesses[0], witnesses.len()) {
            Some(index) => Some(
                Error::NumberOfVariablesMismatch {
                    index: index as usize,
                    expected: witnesses[0] as usize,
                },
            ),
            None => match first_other(claims, witnesses[0], claims.len()) {
                Some(index) => Some(
                    Error::NumberOfVariablesMismatch {
                        index: index as usize,
                        expected: witnesses[0] as usize,
                    },
                ),
                None => None,
            },
        }
    }
}

/// Whether the claim at `i` is at a point of `point_len` coordinates that is
/// the point of the first claim.
pub open spec fn at_shared_point<F: Field>(claims: Seq<LayerClaimSpec<F>>, point_len: nat, i: int) -> bool {
    claims[i].eval_point.len() == point_len && claims[i].eval_point == claims[0].eval_point
}

/// The first index below `n` of a claim that is not at a point of
/// `point_len` coordinates shared with the first claim.
pub open spec fn first_off_point<F: Field>(claims: Seq<LayerClaimSpec<F>>, point_len: nat, n: nat) -> Option<
    int,
>
    decreases n,
{
    if n == 0 {
        None
    } else if first_off_point(claims, point_len, (n - 1) as nat) is Some {
        first_off_point(claims, point_len, (n - 1) as nat)
    } else if !at_shared_point(claims, point_len, n - 1) {
        Some(n - 1)
    } else {
        None
    }
}

/// An index found below `m` is the first index below any greater bound.
pub proof fn lemma_first_off_point_stays<F: Field>(
    claims: Seq<LayerClaimSpec<F>>,
    point_len: nat,
    m: nat,
    n: nat,
)
    requires
        m <= n,
        first_off_point(claims, point_len, m) is Some,
    ensures
        first_off_point(claims, point_len, n) == first_off_point(claims, point_len, m),
    decreases n - m,
{
    if m < n {
        lemma_first_off_point_stays(claims, point_len, m, (n - 1) as nat);
    }
}

/// Where no index below `n` is found, every claim below `n` is at the point
/// of the first, which has `point_len` coordinates.
pub proof fn lemma_first_off_point_none<F: Field>(claims: Seq<LayerClaimSpec<F>>, point_len: nat, n: nat)
    requires
        first_off_point(claims, point_len, n) is None,
    ensures
        forall|i: int| 0 <= i < n ==> at_shared_point(claims, point_len, i),
    decreases n,
{
    if n > 0 {
        lemma_first_off_point_none(claims, point_len, (n - 1) as nat);
    }
}

/// Why `claims` cannot be what the reduction of the layer `layer` brought
/// for `count` witnesses, if they cannot: they are not `count`, or one is not
/// at a point of `point_len` coordinates shared with the first.
pub open spec fn layer_claims_error<F: Field>(
    claims: Seq<LayerClaimSpec<F>>,
    layer: usize,
    count: usize,
    point_len: nat,
) -> Option<Error> {
    if claims.len() != count {
        Some(
            Error::LayerClaimsCountMismatch {
                layer,
                expected: count,
                actual: claims.len() as usize,
            },
        )
    } else {
        match first_off_point(claims, point_len, claims.len()) {
            Some(index) => Some(Error::LayerClaimPointMismatch { layer, index: index as usize }),
            None => None,
        }
    }
}

/// Checks what the reduction of a layer brought.
pub fn check_layer_claims<F: Field>(
    claims: &Vec<LayerClaim<F>>,
    layer: usize,
    count: usize,
    point_len: usize,
) -> (r: Result<(), Error>)
    ensures
        match layer_claims_error(layer_claims_of(claims@), layer, count, point_len as nat) {
            Some(e) => r == Err::<(), Error>(e),
            None => r is Ok,
        },
{
    if claims.len() != count {
        return Err(
            Error::LayerClaimsCountMismatch { layer, expected: count, actual: claims.len() },
        );
    }
    let ghost all = layer_claims_of(claims@);
    let mut i: usize = 0;
    while i < claims.len()
        invariant
            i <= claims.len(),
            claims.len() == count,
            all == layer_claims_of(claims@),
            first_off_point(all, point_len as nat, i as nat) is None,
        decreases claims.len() - i,
    {
        assert(all[i as int] == claims@[i as int]@);
        assert(all[0] == claims@[0]@);
        if claims[i].eval_point.len() != point_len || !same_elements(
            &claims[i].eval_point,
            &claims[0].eval_point,
        ) {
            proof {
                lemma_first_off_point_stays(
                    all,
                    point_len as nat,
                    (i + 1) as nat,
                    claims.len() as nat,
                );
            }
            return Err(Error::LayerClaimPointMismatch { layer, index: i });
        }
        i += 1;
    }
    Ok(())
}

/// The engine that reduces the claims on one layer of partial products to
/// claims on the layer below by a sumcheck protocol.
///
/// It writes its messages to the transcript and draws from it the one
/// challenge of the round, which all claims of the batch share. Nothing is
/// assumed of the claims that it returns.
pub trait LayerReducer<F: Field> {
    /// The transcript that the engine writes to.
    type Transcript;

    /// Why a reduction failed.
    type Error;

    /// Reduces `claims`, one on the layer `layer + 1` of each witness, to
    /// claims on the layer `layer` of each.
    fn reduce_layer(
        &mut self,
        evaluation_order: EvaluationOrder,
        layer: usize,
        witnesses: &Vec<GrandProductWitness<F>>,
        claims: &Vec<LayerClaim<F>>,
        transcript: &mut Self::Transcript,
    ) -> (r: Result<Vec<LayerClaim<F>>, Self::Error>);
}

/// Why a batch could not be proved.
#[derive(Debug)]
pub enum BatchProveError<E> {
    /// The batch, or what a reduction brought, has not the shape it must
    /// have.
    Shape(Error),
    /// The engine failed; its error is handed on as it came.
    Sumcheck(E),
}

/// The numbers of variables of the witnesses of a batch.
pub open spec fn witness_n_vars<F: Field>(witnesses: Seq<GrandProductWitness<F>>) -> Seq<nat> {
    Seq::new(witnesses.len(), |i: int| witnesses[i].spec_n_vars())
}

/// The numbers of variables of the claims of a batch.
pub open spec fn claim_n_vars<F: Field>(claims: Seq<GrandProductClaim<F>>) -> Seq<nat> {
    Seq::new(claims.len(), |i: int| claims[i].n_vars as nat)
}

/// The claims on the top layers of a batch: each product, at the point with
/// no coordinate.
pub open spec fn top_claims<F: Field>(claims: Seq<GrandProductClaim<F>>) -> Seq<LayerClaimSpec<F>> {
    Seq::new(
        claims.len(),
        |i: int| LayerClaimSpec { eval_point: Seq::empty(), eval: claims[i].product },
    )
}

/// Checks that a batch can be proved together.
pub fn check_batch<F: Field>(
    witnesses: &Vec<GrandProductWitness<F>>,
    claims: &Vec<GrandProductClaim<F>>,
) -> (r: Result<(), Error>)
    ensures
        match batch_error(witness_n_vars(witnesses@), claim_n_vars(claims@)) {
            Some(e) => r == Err::<(), Error>(e),
            None => r is Ok,
        },
{
    if witnesses.len() != claims.len() {
        return Err(
            Error::MismatchedWitnessClaimLength {
                witnesses: witnesses.len(),
                claims: claims.len(),
            },
        );
    }
    if witnesses.len() == 0 {
        return Ok(());
    }
    let ghost ws = witness_n_vars(witnesses@);
    let ghost cs = claim_n_vars(claims@);
    let n_vars = witnesses[0].n_vars();
    let mut i: usize = 0;
    while i < witnesses.len()
        invariant
            i <= witnesses.len(),
            witnesses.len() == claims.len(),
            ws == witness_n_vars(witnesses@),
            cs == claim_n_vars(claims@),
            n_vars == ws[0],
            first_other(ws, ws[0], i as nat) is None,
        decreases witnesses.len() - i,
    {
        assert(ws[i as int] == witnesses@[i as int].spec_n_vars());
        if witnesses[i].n_vars() != n_vars {
            proof {
                lemma_first_other_stays(ws, ws[0], (i + 1) as nat, witnesses.len() as nat);
            }
            return Err(Error::NumberOfVariablesMismatch { index: i, expected: n_vars });
        }
        i += 1;
    }
    let mut i: usize = 0;
    while i < claims.len()
        invariant
            i <= claims.len(),
            witnesses.len() == claims.len(),
            witnesses.len() > 0,
            ws == witness_n_vars(witnesses@),
            cs == claim_n_vars(claims@),
            n_vars == ws[0],
            first_other(ws, ws[0], witnesses.len() as nat) is None,
            first_other(cs, ws[0], i as nat) is None,
        decreases claims.len() - i,
    {
        assert(cs[i as int] == claims@[i as int].n_vars);
        if claims[i].n_vars != n_vars {
            proof {
                lemma_first_other_stays(cs, ws[0], (i + 1) as nat, claims.len() as nat);
            }
            return Err(Error::NumberOfVariablesMismatch { index: i, expected: n_vars });
        }
        i += 1;
    }
    Ok(())
}

/// The claims that a proof of a batch starts from: each product, claimed of
/// the top layer at the point with no coordinate.
pub fn initial_layer_claims<F: Field>(claims: &Vec<GrandProductClaim<F>>) -> (r: Vec<LayerClaim<F>>)
    ensures
        layer_claims_of(r@) == top_claims(claims@),
{
    let mut out: Vec<LayerClaim<F>> = Vec::new();
    let mut i: usize = 0;
    while i < claims.len()
        invariant
            i <= claims.len(),
            out@.len() == i,
            forall|j: int|
                0 <= j < i ==> (#[trigger] out@[j])@ == (LayerClaimSpec {
                    eval_point: Seq::<F>::empty(),
                    eval: claims@[j].product,
                }),
        decreases claims.len() - i,
    {
        out.push(LayerClaim { eval_point: Vec::new(), eval: claims[i].product });
        i += 1;
    }
    assert(layer_claims_of(out@) =~= top_claims(claims@));
    out
}

/// Proves a batch of grand product claims down to claims on the tables.
///
/// The claims start on the top layers, each as its product, and `engine`
/// reduces them layer by layer, from the top to the tables, writing to
/// `transcript`. What each reduction brings is checked: one claim for each
/// witness, all at one point that has one coordinate more than the round
/// before.
///
/// On success there is one claim for each witness, all at one point with as
/// many coordinates as the witnesses have variables. Where the witnesses
/// have no variable, the claims are the products themselves.
///
/// Fails where the batch cannot be proved together; with the error of the
/// engine, as it came; or where a reduction did not bring one claim for each
/// witness at one point of the layer.
pub fn batch_prove<F: Field, E: LayerReducer<F>>(
    evaluation_order: EvaluationOrder,
    witnesses: Vec<GrandProductWitness<F>>,
    claims: &Vec<GrandProductClaim<F>>,
    transcript: &mut E::Transcript,
    engine: &mut E,
) -> (r: Result<Vec<LayerClaim<F>>, BatchProveError<E::Error>>)
    ensures
        match batch_error(witness_n_vars(witnesses@), claim_n_vars(claims@)) {
            Some(e) => r matches Err(BatchProveError::Shape(failed)) && failed == e,
            None => match r {
                Ok(out) => {
                    &&& out@.len() == witnesses@.len()
                    &&& forall|i: int|
                        0 <= i < out@.len() ==> (#[trigger] out@[i])@.eval_point.len()
                            == witnesses@[0].spec_n_vars() && out@[i]@.eval_point
                            == out@[0]@.eval_point
                    &&& witnesses@.len() > 0 && witnesses@[0].spec_n_vars() == 0
                        ==> layer_claims_of(out@) == top_claims(claims@)
                },
                Err(BatchProveError::Shape(e)) => {
                    &&& witnesses@.len() > 0 && witnesses@[0].spec_n_vars() > 0
                    &&& e is LayerClaimsCountMismatch || e is LayerClaimPointMismatch
                },
                Err(BatchProveError::Sumcheck(_)) => witnesses@.len() > 0
                    && witnesses@[0].spec_n_vars() > 0,
            },
        },
{
    if let Err(e) = check_batch(&witnesses, claims) {
        return Err(BatchProveError::Shape(e));
    }
    let count = witnesses.len();
    let mut current = initial_layer_claims(claims);
    proof {
        let top = layer_claims_of(current@);
        assert(top.len() == current@.len() && top.len() == claims@.len());
        assert(witness_n_vars(witnesses@).len() == witnesses@.len());
        assert(claim_n_vars(claims@).len() == claims@.len());
        assert forall|i: int| 0 <= i < current@.len() implies (#[trigger] current@[i])@.eval_point
            == Seq::<F>::empty() by {
            assert(top[i] == current@[i]@);
        }
    }
    if count == 0 {
        return Ok(current);
    }
    let n_vars = witnesses[0].n_vars();
    let mut layer: usize = n_vars;
    while layer > 0
        invariant
            layer <= n_vars,
            count > 0,
            count == witnesses.len(),
            n_vars == witnesses@[0].spec_n_vars(),
            current@.len() == count,
            forall|i: int|
                0 <= i < count ==> (#[trigger] current@[i])@.eval_point.len() == n_vars - layer
                    && current@[i]@.eval_point == current@[0]@.eval_point,
            layer == n_vars ==> layer_claims_of(current@) == top_claims(claims@),
            batch_error(witness_n_vars(witnesses@), claim_n_vars(claims@)) is None,
        decreases layer,
    {
        layer -= 1;
        let reduced = match engine.reduce_layer(
            evaluation_order,
            layer,
            &witnesses,
            &current,
            transcript,
        ) {
            Ok(reduced) => reduced,
            Err(e) => {
                return Err(BatchProveError::Sumcheck(e));
            },
        };
        if let Err(e) = check_layer_claims(&reduced, layer, count, n_vars - layer) {
            return Err(BatchProveError::Shape(e));
        }
        proof {
            let all = layer_claims_of(reduced@);
            lemma_first_off_point_none(all, (n_vars - layer) as nat, all.len());
            assert forall|i: int| 0 <= i < count implies (#[trigger] reduced@[i])@.eval_point.len()
                == n_vars - layer && reduced@[i]@.eval_point == reduced@[0]@.eval_point by {
                assert(at_shared_point(all, (n_vars - layer) as nat, i));
                assert(all[i] == reduced@[i]@);
                assert(all[0] == reduced@[0]@);
            }
        }
        current = reduced;
    }
    Ok(current)
}

/// The claims on tables, each stated of the oracle at its place in
/// `oracle_ids`.
pub open spec fn eval_claims_of<F: Field>(oracle_ids: Seq<OracleId>, claims: Seq<LayerClaimSpec<F>>) -> Seq<
    ClaimSpec<F>,
> {
    Seq::new(
        claims.len(),
        |i: int|
            ClaimSpec { id: oracle_ids[i], eval_point: claims[i].eval_point, eval: claims[i].eval },
    )
}

/// States the claims on the tables of a batch as evaluation claims on the
/// oracles of these tables, to be taken by the prover of evaluation claims.
///
/// Fails where there are not as many oracles as claims.
pub fn make_eval_claims<F: Field>(oracle_ids: &Vec<OracleId>, final_layer_claims: Vec<LayerClaim<F>>) -> (r:
    Result<Vec<EvalcheckMultilinearClaim<F>>, Error>)
    ensures
        match r {
            Ok(out) => oracle_ids@.len() == final_layer_claims@.len() && crate::claim::claims_of(out@)
                == eval_claims_of(oracle_ids@, layer_claims_of(final_layer_claims@)),
            Err(e) => oracle_ids@.len() != final_layer_claims@.len() && e
                == (Error::MismatchedOracleClaimLength {
                oracles: oracle_ids.len(),
                claims: final_layer_claims.len(),
            }),
        },
{
    if oracle_ids.len() != final_layer_claims.len() {
        return Err(
            Error::MismatchedOracleClaimLength {
                oracles: oracle_ids.len(),
                claims: final_layer_claims.len(),
            },
        );
    }
    let mut out: Vec<EvalcheckMultilinearClaim<F>> = Vec::new();
    let mut i: usize = 0;
    while i < final_layer_claims.len()
        invariant
            i <= final_layer_claims.len(),
            oracle_ids.len() == final_layer_claims.len(),
            out@.len() == i,
            forall|j: int|
                0 <= j < i ==> (#[trigger] out@[j])@ == (ClaimSpec {
                    id: oracle_ids@[j],
                    eval_point: final_layer_claims@[j]@.eval_point,
                    eval: final_layer_claims@[j]@.eval,
                }),
        decreases final_layer_claims.len() - i,
    {
        out.push(
            EvalcheckMultilinearClaim {
                id: oracle_ids[i],
                eval_point: copy_elements(&final_layer_claims[i].eval_point),
                eval: final_layer_claims[i].eval,
            },
        );
        i += 1;
    }
    assert(crate::claim::claims_of(out@) =~= eval_claims_of(
        oracle_ids@,
        layer_claims_of(final_layer_claims@),
    ));
    Ok(out)
}

} // verus!
