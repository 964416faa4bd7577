//! What can go wrong: while the model is set up, and while one picture is
//! classified.

use vstd::prelude::*;

verus! {

/// Why a model could not be set up. Each of these ends the start-up: there is
/// no service without a model.
#[derive(Debug, PartialEq, Eq)]
pub enum ConstructionError {
    /// An artifact could not be read; the text says why.
    Artifact(String),
    /// The graph could not be parsed; the text says why.
    GraphLoad(String),
    /// No session could be bound to the graph; the text says why.
    ModelInit(String),
    /// The graph declares no operation at all, so it has neither an input
    /// nor an output node.
    NoOperations,
    /// The graph has no node of this name.
    NodeNotFound(String),
}

/// Why one picture could not be classified. The failure belongs to that
/// request alone.
#[derive(Debug, PartialEq, Eq)]
pub enum PredictError {
    /// Nothing was uploaded: the input has no bytes.
    EmptyInput,
    /// The bytes are no picture in a supported format; the text says why.
    Decode(String),
    /// The engine failed on the forward pass; the text says why.
    Inference(String),
}

impl ConstructionError {
    /// The words in which the failure is reported.
    pub fn message(&self) -> (text: String)
        ensures
            text@ == match *self {
                ConstructionError::Artifact(reason) => reason@,
                ConstructionError::GraphLoad(reason) => reason@,
                ConstructionError::ModelInit(reason) => reason@,
                ConstructionError::NoOperations => "No operations found in the graph"@,
                ConstructionError::NodeNotFound(name) => "Output operation '"@ + name@
                    + "' not found in graph"@,
            },
    {
        match self {
            ConstructionError::Artifact(reason) => reason.clone(),
            ConstructionError::GraphLoad(reason) => reason.clone(),
            ConstructionError::ModelInit(reason) => reason.clone(),
            ConstructionError::NoOperations => "No operations found in the graph".to_owned(),
            ConstructionError::NodeNotFound(name) => {
                let mut text: String = "Output operation '".to_owned();
                text.append(name.as_str());
                text.append("' not found in graph");
                text
            },
        }
    }
}

impl PredictError {
    /// The words in which the failure is reported.
    pub fn message(&self) -> (text: String)
        ensures
            text@ == match *self {
                PredictError::EmptyInput => "No file uploaded"@,
                PredictError::Decode(reason) => reason@,
                PredictError::Inference(reason) => reason@,
            },
    {
        match self {
            PredictError::EmptyInput => "No file uploaded".to_owned(),
            PredictError::Decode(reason) => reason.clone(),
            PredictError::Inference(reason) => reason.clone(),
        }
    }
}

} // verus!
