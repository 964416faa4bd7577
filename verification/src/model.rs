//! The model as the service sees it: the labels of its classes, the names of
//! the graph nodes it is fed and read through, and the one operation that
//! turns an uploaded picture into ranked predictions.
//!
//! The engine that executes the graph is handed in from outside, one call at
//! a time. This module decides everything around that call: what is refused
//! before it, what tensor goes into it, and what is made of whatever comes
//! back.

use vstd::prelude::*;
use crate::binary32::Binary32;
use crate::error::{ConstructionError, PredictError};
use crate::labels::{lines_of, parse_labels};
use crate::preprocess::{preprocess_image, preprocessed, NormalizedTensor};
use crate::rank::{rank, ranked, Prediction};

verus! {

/// A loaded model: the class labels in the order of the output, and the
/// names of the input and the output node of the graph.
///
/// The nodes are found by position: the operation that the graph declares
/// first is the input, the one it declares last is the output.
pub struct Model {
    labels: Vec<String>,
    input_layer: String,
    output_layer: String,
}

/// The mathematical content of a `Model`.
pub struct ModelView {
    pub labels: Seq<Seq<char>>,
    pub input_layer: Seq<char>,
    pub output_layer: Seq<char>,
}

impl View for Model {
    type V = ModelView;

    closed spec fn view(&self) -> ModelView {
        ModelView {
            labels: self.labels.deep_view(),
            input_layer: self.input_layer@,
            output_layer: self.output_layer@,
        }
    }
}

/// What becomes of a request once the engine has answered: its scores are
/// ranked, its failure is passed on in its own words.
pub open spec fn concludes(
    labels: Seq<Seq<char>>,
    outcome: Result<Vec<Binary32>, String>,
    answer: Result<Vec<Prediction>, PredictError>,
) -> bool {
    match outcome {
        Ok(scores) => answer matches Ok(list) && list.deep_view() == ranked(scores@, labels),
        Err(reason) => answer matches Err(PredictError::Inference(text)) && text@ == reason@,
    }
}

impl Model {
    /// Sets the model up from the names of the operations that the graph
    /// declares, in their order, and the text of the label file. A graph
    /// without operations is refused.
    pub fn new(operations: &Vec<String>, labels_text: &str) -> (r: Result<
        Model,
        ConstructionError,
    >)
        ensures
            match r {
                Ok(model) => operations.len() > 0 && model@ == (ModelView {
                    labels: lines_of(labels_text@),
                    input_layer: operations[0]@,
                    output_layer: operations[operations.len() - 1]@,
                }),
                Err(error) => operations.len() == 0 && error is NoOperations,
            },
    {
        if operations.len() == 0 {
            return Err(ConstructionError::NoOperations);
        }
        let input_layer = operations[0].clone();
        let output_layer = operations[operations.len() - 1].clone();
        let labels = parse_labels(labels_text);
        Ok(Model { labels, input_layer, output_layer })
    }

    /// The class labels, in the order of the model's output.
    pub fn labels(&self) -> (labels: &Vec<String>)
        ensures
            labels.deep_view() == self@.labels,
    {
        &self.labels
    }

    /// The name of the node that takes the tensor.
    pub fn input_layer(&self) -> (name: &String)
        ensures
            name@ == self@.input_layer,
    {
        &self.input_layer
    }

    /// The name of the node that gives the scores.
    pub fn output_layer(&self) -> (name: &String)
        ensures
            name@ == self@.output_layer,
    {
        &self.output_layer
    }

    /// Makes the answer to a request out of what the engine returned: scores
    /// are ranked against the labels; a failure becomes an inference error
    /// with the engine's words.
    pub fn conclude(&self, outcome: Result<Vec<Binary32>, String>) -> (r: Result<
        Vec<Prediction>,
        PredictError,
    >)
        ensures
            concludes(self@.labels, outcome, r),
    {
        match outcome {
            Ok(scores) => Ok(rank(&scores, &self.labels)),
            Err(reason) => Err(PredictError::Inference(reason)),
        }
    }

    /// Classifies one uploaded picture. Empty input is refused before
    /// anything is decoded. Bytes that hold no picture are refused before the
    /// engine is called. Else the engine is called once, on the tensor that
    /// the bytes lead to, and its outcome is concluded: there is no retry and
    /// no partial answer.
    pub fn predict<E>(&self, image_data: &[u8], engine: E) -> (r: Result<
        Vec<Prediction>,
        PredictError,
    >) where E: FnOnce(&NormalizedTensor) -> Result<Vec<Binary32>, String>
        requires
            forall|tensor: &NormalizedTensor| call_requires(engine, (tensor,)),
        ensures
            image_data@.len() == 0 ==> r matches Err(PredictError::EmptyInput),
            image_data@.len() > 0 && preprocessed(image_data@) is None ==> r matches Err(
                PredictError::Decode(_),
            ),
            image_data@.len() > 0 && preprocessed(image_data@) is Some ==> exists|
                tensor: NormalizedTensor,
                outcome: Result<Vec<Binary32>, String>,
            |
                tensor@ == preprocessed(image_data@)->0 && call_ensures(
                    engine,
                    (&tensor,),
                    outcome,
                ) && concludes(self@.labels, outcome, r),
    {
        if image_data.len() == 0 {
            return Err(PredictError::EmptyInput);
        }
        match preprocess_image(image_data) {
            Err(error) => Err(error),
            Ok(tensor) => {
                let outcome = engine(&tensor);
                let answer = self.conclude(outcome);
                proof {
                    assert(tensor@ == preprocessed(image_data@)->0 && call_ensures(
                        engine,
                        (&tensor,),
                        outcome,
                    ) && concludes(self@.labels, outcome, answer));
                }
                answer
            },
        }
    }
}

/// An answer that was given descends: no prediction has a higher
/// percentage than one before it.
pub proof fn lemma_answer_descends(
    labels: Seq<Seq<char>>,
    outcome: Result<Vec<Binary32>, String>,
    answer: Result<Vec<Prediction>, PredictError>,
    j: int,
    k: int,
)
    requires
        concludes(labels, outcome, answer),
        answer is Ok,
        0 <= j <= k < answer->Ok_0.len(),
    ensures
        answer->Ok_0.deep_view()[j].probability.value() >= answer->Ok_0.deep_view()[
            k
        ].probability.value(),
{
    let scores = outcome->Ok_0@;
    assert(answer->Ok_0.deep_view().len() == answer->Ok_0.len());
    crate::rank::lemma_ranked_descends(scores, labels, j, k);
}

/// Where the engine gave no countable score above one, every percentage of
/// the answer lies above zero and not above a hundred, and belongs to a
/// class whose score is above the noise floor.
pub proof fn lemma_answer_in_range(
    labels: Seq<Seq<char>>,
    outcome: Result<Vec<Binary32>, String>,
    answer: Result<Vec<Prediction>, PredictError>,
    k: int,
)
    requires
        concludes(labels, outcome, answer),
        answer is Ok,
        0 <= k < answer->Ok_0.len(),
        forall|i: int|
            0 <= i < outcome->Ok_0@.len() && crate::rank::significant(#[trigger] outcome->Ok_0@[i])
                ==> outcome->Ok_0@[i].value() <= crate::binary32::whole(1),
    ensures
        0 < answer->Ok_0.deep_view()[k].probability.value() <= crate::binary32::whole(100),
        exists|i: int|
            0 <= i < outcome->Ok_0@.len() && crate::rank::significant(outcome->Ok_0@[i])
                && answer->Ok_0.deep_view()[k].probability == crate::rank::percentage(
                outcome->Ok_0@[i],
            ),
{
    let scores = outcome->Ok_0@;
    assert(answer->Ok_0.deep_view().len() == answer->Ok_0.len());
    crate::rank::lemma_ranked_in_range(scores, labels, k);
    crate::rank::lemma_ranked_entries(scores, labels, k);
    let class = crate::rank::ranking(scores)[k];
    assert(0 <= class < scores.len() && crate::rank::significant(scores[class]));
}

} // verus!
