//! Transforms: what can be done to the values of a numeric column.

pub mod discretization;

use crate::types::PipelineError;
use vstd::prelude::*;

verus! {

/// The transforms by name. Of these the library carries out the
/// discretisation into bins of equal frequency; the others are arithmetic
/// on real numbers with roots and logarithms, which it does not hold.
#[derive(Clone, Copy, Debug, PartialEq, Eq, Structural)]
pub enum Transform {
    EqualFrequencyDiscretization,
    EqualWidthDiscretization,
    ZScoreNormalization,
    Log10,
}

/// The transform that goes by `name`: `equal-frequency-discretization`,
/// `equal-width-discretization`, `zscore` or `log10`; any other name is
/// `InvalidConfig`.
pub fn get_transform(name: &str) -> (found: Result<Transform, PipelineError>)
    ensures
        found == if name@ == "equal-frequency-discretization"@ {
            Ok::<Transform, PipelineError>(Transform::EqualFrequencyDiscretization)
        } else if name@ == "equal-width-discretization"@ {
            Ok(Transform::EqualWidthDiscretization)
        } else if name@ == "zscore"@ {
            Ok(Transform::ZScoreNormalization)
        } else if name@ == "log10"@ {
            Ok(Transform::Log10)
        } else {
            Err(PipelineError::InvalidConfig)
        },
{
    let wanted = name.to_owned();
    if wanted == "equal-frequency-discretization".to_owned() {
        Ok(Transform::EqualFrequencyDiscretization)
    } else if wanted == "equal-width-discretization".to_owned() {
        Ok(Transform::EqualWidthDiscretization)
    } else if wanted == "zscore".to_owned() {
        Ok(Transform::ZScoreNormalization)
    } else if wanted == "log10".to_owned() {
        Ok(Transform::Log10)
    } else {
        Err(PipelineError::InvalidConfig)
    }
}

} // verus!
