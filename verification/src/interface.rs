use vstd::prelude::*;

use crate::distance_measure::{DistanceMeasure, Euclidean, Manhattan, DTW};
use crate::error::MeanShiftError;
use crate::parallel::{rows_within_limits, spec_cluster, MeanShift};
use crate::utils::BANDWIDTH_LIMIT;

verus! {

/// The configuration of one fit: the worker count and an optional
/// bandwidth; when no bandwidth is given it is estimated from the data.
pub struct Parameters {
    pub n_threads: usize,
    pub bandwidth: Option<i64>,
}

impl Default for Parameters {
    fn default() -> (r: Self)
        ensures
            r.n_threads == 1,
            r.bandwidth == Option::<i64>::None,
    {
        Self { n_threads: 1, bandwidth: None }
    }
}

/// What one fit returns for a distance strategy chosen by name: an
/// unknown name is invalid input.
pub open spec fn spec_cluster_named(
    name: Seq<char>,
    data: Seq<Seq<i64>>,
    bw_opt: Option<i64>,
) -> Result<(Seq<usize>, Seq<Seq<i64>>), MeanShiftError> {
    if name == Euclidean::spec_name() {
        spec_cluster::<Euclidean>(data, bw_opt)
    } else if name == Manhattan::spec_name() {
        spec_cluster::<Manhattan>(data, bw_opt)
    } else if name == DTW::spec_name() {
        spec_cluster::<DTW>(data, bw_opt)
    } else {
        Err(MeanShiftError::InvalidInput)
    }
}

/// Cluster a dataset under the distance strategy with the given name.
pub fn cluster_named(name: &str, dataset: &Vec<Vec<i64>>, parameters: Parameters) -> (r: Result<
    (Vec<usize>, Vec<Vec<i64>>),
    MeanShiftError,
>)
    requires
        parameters.n_threads >= 1,
        rows_within_limits(dataset.deep_view()),
        match parameters.bandwidth {
            Some(b) => b <= BANDWIDTH_LIMIT,
            None => true,
        },
    ensures
        ({
            let s = spec_cluster_named(name@, dataset.deep_view(), parameters.bandwidth);
            match r {
                Err(e) => s == Result::<(Seq<usize>, Seq<Seq<i64>>), MeanShiftError>::Err(e),
                Ok((labels, centers)) => s == Result::<
                    (Seq<usize>, Seq<Seq<i64>>),
                    MeanShiftError,
                >::Ok((labels@, centers.deep_view())),
            }
        }),
{
    let owned = name.to_owned();
    if owned == Euclidean::name() {
        let mut engine = MeanShift::new_with_threads(
            Euclidean,
            parameters.bandwidth,
            parameters.n_threads,
        );
        engine.cluster(dataset)
    } else if owned == Manhattan::name() {
        let mut engine = MeanShift::new_with_threads(
            Manhattan,
            parameters.bandwidth,
            parameters.n_threads,
        );
        engine.cluster(dataset)
    } else if owned == DTW::name() {
        let mut engine = MeanShift::new_with_threads(
            DTW,
            parameters.bandwidth,
            parameters.n_threads,
        );
        engine.cluster(dataset)
    } else {
        Err(MeanShiftError::InvalidInput)
    }
}

} // verus!
