//! Node features: files, stores, caches and read plans.

pub mod cache;
pub mod async_store;
pub mod cold_tier;
pub mod error;
pub mod gather;
pub mod gds;
pub mod half_float;
pub mod header;
pub mod node_ids;
pub mod save;
pub mod shared_store;
pub mod source;
pub mod store;
pub mod telemetry;

pub use error::FeatureError;
pub use header::{FeatureDtype, FeatureHeader};
pub use node_ids::AsNodeId;
pub use save::{create_features, save_feature_data, save_features, save_features_f16};
pub use source::NodeFeatureSource;
pub use store::{FeatureData, FeatureStore};
pub use telemetry::FeatureLoadTelemetry;
