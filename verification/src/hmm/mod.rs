//! The hidden Markov model: decoding, training, persistence and batches.

pub mod viterbi;
pub mod model;
pub mod trainer;
pub mod persistence;
pub mod batch;

pub use batch::{
    collect_in_order, count_correct, evaluate, par_evaluate, partition, predict_shard,
    worker_count,
};
pub use model::POSTaggingHMM;
pub use persistence::{
    frame, restore, snapshot, unframe, LoadError, SaveError, StoredModel,
    StoredRows, StoredTable,
};
pub use trainer::{
    ModelLikelihoods, ModelMasses, POSTaggingHMMTrainer, TrainedCounts, TrainerError,
};
