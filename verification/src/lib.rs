//! Preprocessing and ranking for an image classifier: an uploaded picture is
//! decoded, brought to the square shape the model expects and flattened into a
//! tensor; the scores the model gives back are filtered, rescaled and ordered.
//!
//! The graph itself is executed elsewhere. `model::Model::predict` takes the
//! engine as a function from the tensor to the scores and decides everything
//! around that one call.

pub mod binary32;
pub mod bitmap;
pub mod codec;
pub mod config;
pub mod error;
pub mod labels;
pub mod model;
pub mod preprocess;
pub mod rank;

pub use crate::binary32::Binary32;
pub use crate::bitmap::RawImage;
pub use crate::config::get_env;
pub use crate::error::{ConstructionError, PredictError};
pub use crate::model::Model;
pub use crate::preprocess::NormalizedTensor;
pub use crate::rank::Prediction;
