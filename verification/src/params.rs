//! The options of a UMAP reduction and what a reduction has to do.

use vstd::prelude::*;
use crate::error::ReduceError;
use crate::single::{above_zero, is_above_zero, is_within_unit, within_unit, ONE_BITS};

verus! {

/// The bit pattern of the single-precision number nearest to one tenth.
pub const TENTH_BITS: u32 = 0x3DCC_CCCD;

/// The options of a UMAP reduction. Each fractional option is held as the
/// 32 bits of its IEEE 754 single-precision value.
#[derive(Clone, Copy, Debug, PartialEq, Eq)]
pub struct UmapParams {
    /// Neighbours per row in the k-nearest-neighbour graph; at least 2.
    pub n_neighbors: usize,
    /// Passes over the edges; at least 1.
    pub n_epochs: usize,
    /// Bits of the minimum distance between points of the layout; above zero.
    pub min_dist: u32,
    /// Bits of the spread of the layout; above zero.
    pub spread: u32,
    /// Bits of the step size of an update; above zero.
    pub learning_rate: u32,
    /// Rows drawn for repulsion after each attractive update.
    pub negative_sample_rate: usize,
    /// Bits of the weight of the fuzzy union against the plain mean when two
    /// memberships are combined; from zero to one.
    pub set_op_mix_ratio: u32,
    /// Bits of the strength of repulsion; above zero.
    pub repulsion_strength: u32,
    /// Seed of the random number generator.
    pub random_state: u64,
}

impl UmapParams {
    /// Every option lies in its permitted range.
    pub open spec fn acceptable(self) -> bool {
        &&& self.n_neighbors >= 2
        &&& self.n_epochs >= 1
        &&& above_zero(self.min_dist)
        &&& above_zero(self.spread)
        &&& above_zero(self.learning_rate)
        &&& within_unit(self.set_op_mix_ratio)
        &&& above_zero(self.repulsion_strength)
    }

    /// Accepts the options where every one lies in its permitted range.
    pub fn check(&self) -> (r: Result<(), ReduceError>)
        ensures
            r is Ok <==> self.acceptable(),
            r is Err ==> r == Err::<(), ReduceError>(ReduceError::Config),
    {
        if self.n_neighbors >= 2 && self.n_epochs >= 1 && is_above_zero(self.min_dist)
            && is_above_zero(self.spread) && is_above_zero(self.learning_rate) && is_within_unit(
            self.set_op_mix_ratio,
        ) && is_above_zero(self.repulsion_strength) {
            Ok(())
        } else {
            Err(ReduceError::Config)
        }
    }
}

impl Default for UmapParams {
    /// The customary options: 15 neighbours, 200 epochs, minimum distance
    /// 0.1, spread 1, learning rate 1, 5 negative samples, mix ratio 1,
    /// repulsion 1, seed 42.
    fn default() -> (p: UmapParams)
        ensures
            p == (UmapParams {
                n_neighbors: 15,
                n_epochs: 200,
                min_dist: TENTH_BITS,
                spread: ONE_BITS,
                learning_rate: ONE_BITS,
                negative_sample_rate: 5,
                set_op_mix_ratio: ONE_BITS,
                repulsion_strength: ONE_BITS,
                random_state: 42,
            }),
            p.acceptable(),
    {
        UmapParams {
            n_neighbors: 15,
            n_epochs: 200,
            min_dist: TENTH_BITS,
            spread: ONE_BITS,
            learning_rate: ONE_BITS,
            negative_sample_rate: 5,
            set_op_mix_ratio: ONE_BITS,
            repulsion_strength: ONE_BITS,
            random_state: 42,
        }
    }
}

/// What a UMAP reduction of `n` rows has to do.
#[derive(Clone, Copy, Debug, PartialEq, Eq, Structural)]
pub enum Plan {
    /// Too few rows for a layout: the result is the all-zero matrix of `n`
    /// rows, which for no rows at all is the empty matrix.
    Zeros,
    /// Fit a layout on the graph of the `neighbors` nearest neighbours.
    Fit { neighbors: usize },
}

/// The plan for `n` rows and options `params`, where the request is in order.
pub open spec fn umap_plan(n: usize, params: UmapParams) -> Plan {
    if n <= 2 {
        Plan::Zeros
    } else if params.n_neighbors <= n - 1 {
        Plan::Fit { neighbors: params.n_neighbors }
    } else {
        Plan::Fit { neighbors: (n - 1) as usize }
    }
}

/// Decides what a UMAP reduction of `n` rows to `dims` dimensions has to do.
///
/// The request is refused with `Shape` unless `dims` is 2 or 3, and else
/// with `Config` unless the options are acceptable. Up to two rows give
/// zeros. From three rows on the layout is fitted, on as many neighbours as
/// the options ask for, but no more than the `n - 1` other rows.
pub fn plan_umap(n: usize, dims: usize, params: &UmapParams) -> (r: Result<Plan, ReduceError>)
    ensures
        !(2 <= dims <= 3) ==> r == Err::<Plan, ReduceError>(ReduceError::Shape),
        2 <= dims <= 3 && !params.acceptable() ==> r == Err::<Plan, ReduceError>(
            ReduceError::Config,
        ),
        2 <= dims <= 3 && params.acceptable() ==> r == Ok::<Plan, ReduceError>(
            umap_plan(n, *params),
        ),
        r matches Ok(Plan::Fit { neighbors }) ==> 2 <= neighbors < n,
{
    if dims < 2 || dims > 3 {
        return Err(ReduceError::Shape);
    }
    match params.check() {
        Err(e) => Err(e),
        Ok(_) => {
            if n <= 2 {
                Ok(Plan::Zeros)
            } else if params.n_neighbors <= n - 1 {
                Ok(Plan::Fit { neighbors: params.n_neighbors })
            } else {
                Ok(Plan::Fit { neighbors: n - 1 })
            }
        },
    }
}

/// Checks a request for a PCA reduction of `n` rows of `d` columns to `dims`
/// dimensions: it is in order where `dims` is 1, 2 or 3 and the matrix has a
/// row and a column, and is refused with `Shape` otherwise.
pub fn check_pca(n: usize, d: usize, dims: usize) -> (r: Result<(), ReduceError>)
    ensures
        r is Ok <==> 1 <= dims <= 3 && n >= 1 && d >= 1,
        r is Err ==> r == Err::<(), ReduceError>(ReduceError::Shape),
{
    if 1 <= dims && dims <= 3 && n >= 1 && d >= 1 {
        Ok(())
    } else {
        Err(ReduceError::Shape)
    }
}

/// Checks the rows that are to form a matrix of `dim` columns: they are in
/// order where each holds `dim` components, and refused with `Shape`
/// otherwise. `lengths[i]` is the number of components of row `i`.
pub fn check_rows(lengths: &Vec<usize>, dim: usize) -> (r: Result<(), ReduceError>)
    ensures
        r is Ok <==> forall|i: int| 0 <= i < lengths.len() ==> #[trigger] lengths[i] == dim,
        r is Err ==> r == Err::<(), ReduceError>(ReduceError::Shape),
{
    let mut i: usize = 0;
    while i < lengths.len()
        invariant
            i <= lengths.len(),
            forall|j: int| 0 <= j < i ==> #[trigger] lengths[j] == dim,
        decreases lengths.len() - i,
    {
        if lengths[i] != dim {
            return Err(ReduceError::Shape);
        }
        i = i + 1;
    }
    Ok(())
}

} // verus!
