//! The stages of a pipeline as a configuration document lays them down.

use crate::dictionary::Dictionary;
use crate::types::Numeric;
use vstd::prelude::*;

verus! {

/// How the rows are dealt into folds.
pub struct ValidationConfigs {
    pub strategy: String,
    pub parameters: Dictionary<Numeric>,
}

/// Which model is trained, for which task and with which parameters.
pub struct ModelConfigs {
    pub name: String,
    pub task: String,
    pub parameters: Option<Dictionary<Numeric>>,
}

/// The candidate values of each hyperparameter.
pub struct TunningConfigs {
    pub parameters: Dictionary<Vec<Numeric>>,
}

/// The training stage.
pub struct TrainingConfigs {
    pub model: ModelConfigs,
    pub evaluation: String,
    pub partitioning: ValidationConfigs,
    pub strategy: String,
    pub label_index: usize,
    pub tunning: TunningConfigs,
}

/// The input stage.
pub struct InputStageConfigs {
    pub address: String,
    pub format: String,
    pub missing_values: Vec<String>,
    pub headers: bool,
}

/// One scrubber and the column it cleans.
pub struct ScrubbingStageConfigs {
    pub name: String,
    pub index: usize,
}

/// One transform, the column it changes and its parameters.
pub struct TransformStageConfigs {
    pub name: String,
    pub index: usize,
    pub parameters: Option<Dictionary<Numeric>>,
}

/// All stages of a pipeline.
pub struct ConfigStruct {
    pub input: InputStageConfigs,
    pub parsing: Vec<String>,
    pub scrub: Option<Vec<ScrubbingStageConfigs>>,
    pub transform: Option<Vec<TransformStageConfigs>>,
    pub training: TrainingConfigs,
}

} // verus!
