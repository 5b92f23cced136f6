//! Frequency counters and the likelihood tables derived from them.

pub mod assoc;
pub mod counter;
pub mod conditional_counter;
pub mod distribution;
pub mod conditional_distribution;
pub mod smoothing;

pub use counter::StringCounter;
pub use conditional_counter::ConditionalStringCounter;
pub use distribution::StringFrequencyDistribution;
pub use conditional_distribution::ConditionalStringFrequencyDistribution;
