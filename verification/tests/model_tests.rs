use image::{DynamicImage, ImageOutputFormat, Rgb, RgbImage};
use image_classifier::binary32::Binary32;
use image_classifier::error::{ConstructionError, PredictError};
use image_classifier::model::Model;
use image_classifier::preprocess::{preprocess_image, NormalizedTensor};
use image_classifier::rank::Prediction;
use std::io::Cursor;

fn names(list: &[&str]) -> Vec<String> {
    list.iter().map(|n| n.to_string()).collect()
}

fn scores_of(values: &[f32]) -> Vec<Binary32> {
    values.iter().map(|v| Binary32 { bits: v.to_bits() }).collect()
}

fn pairs(list: &[Prediction]) -> Vec<(String, f32)> {
    list.iter().map(|p| (p.class_label.clone(), f32::from_bits(p.probability.bits))).collect()
}

fn small_png() -> Vec<u8> {
    let picture = DynamicImage::ImageRgb8(RgbImage::from_fn(30, 20, |x, y| {
        Rgb([(x * 8) as u8, (y * 12) as u8, 77])
    }));
    let mut bytes = Vec::new();
    picture.write_to(&mut Cursor::new(&mut bytes), ImageOutputFormat::Png).unwrap();
    bytes
}

fn model() -> Model {
    Model::new(&names(&["x", "dense", "Identity"]), "oak\nelm\nash\n").unwrap()
}

#[test]
fn first_operation_is_input_and_last_is_output() {
    let model = model();
    assert_eq!(model.input_layer(), "x");
    assert_eq!(model.output_layer(), "Identity");
    assert_eq!(model.labels(), &names(&["oak", "elm", "ash"]));
}

#[test]
fn single_operation_is_both_input_and_output() {
    let model = Model::new(&names(&["only"]), "").unwrap();
    assert_eq!(model.input_layer(), "only");
    assert_eq!(model.output_layer(), "only");
    assert!(model.labels().is_empty());
}

#[test]
fn graph_without_operations_is_refused() {
    let refused = Model::new(&names(&[]), "oak\n");
    assert!(matches!(refused, Err(ConstructionError::NoOperations)));
}

#[test]
fn construction_errors_have_their_words() {
    assert_eq!(ConstructionError::NoOperations.message(), "No operations found in the graph");
    assert_eq!(
        ConstructionError::NodeNotFound("Identity".to_string()).message(),
        "Output operation 'Identity' not found in graph"
    );
    assert_eq!(ConstructionError::GraphLoad("bad graph".to_string()).message(), "bad graph");
    assert_eq!(ConstructionError::ModelInit("no session".to_string()).message(), "no session");
}

#[test]
fn predict_errors_have_their_words() {
    assert_eq!(PredictError::EmptyInput.message(), "No file uploaded");
    assert_eq!(PredictError::Decode("not a picture".to_string()).message(), "not a picture");
    assert_eq!(PredictError::Inference("shape mismatch".to_string()).message(), "shape mismatch");
}

#[test]
fn empty_input_is_refused_before_anything_else() {
    let mut called = false;
    let answer = model().predict(&[], |_tensor: &NormalizedTensor| {
        called = true;
        Ok(Vec::new())
    });
    assert!(matches!(answer, Err(PredictError::EmptyInput)));
    assert!(!called);
}

#[test]
fn undecodable_input_never_reaches_the_engine() {
    let mut called = false;
    let answer = model().predict(b"no picture at all", |_tensor: &NormalizedTensor| {
        called = true;
        Ok(Vec::new())
    });
    assert!(matches!(answer, Err(PredictError::Decode(_))));
    assert!(!called);
}

#[test]
fn engine_is_called_once_on_the_tensor_of_the_picture() {
    let bytes = small_png();
    let expected = preprocess_image(&bytes).unwrap();
    let mut calls = 0;
    let mut seen: Vec<u8> = Vec::new();
    let answer = model().predict(&bytes, |tensor: &NormalizedTensor| {
        calls += 1;
        seen = tensor.values().clone();
        Ok(scores_of(&[0.25, 0.5, 0.125]))
    });
    assert_eq!(calls, 1);
    assert_eq!(seen.len(), 1_080_000);
    assert_eq!(&seen, expected.values());
    assert_eq!(
        pairs(&answer.unwrap()),
        vec![("elm".to_string(), 50.0), ("oak".to_string(), 25.0), ("ash".to_string(), 12.5)]
    );
}

#[test]
fn scores_beyond_the_labels_are_unknown() {
    let answer = model().predict(&small_png(), |_tensor: &NormalizedTensor| {
        Ok(scores_of(&[0.0, 0.0, 0.0, 0.75, 0.25]))
    });
    assert_eq!(
        pairs(&answer.unwrap()),
        vec![("Unknown".to_string(), 75.0), ("Unknown".to_string(), 25.0)]
    );
}

#[test]
fn all_scores_below_the_floor_give_an_empty_answer() {
    let answer = model().predict(&small_png(), |_tensor: &NormalizedTensor| {
        Ok(scores_of(&[0.00001, 0.0, 0.00002]))
    });
    assert!(answer.unwrap().is_empty());
}

#[test]
fn engine_failure_becomes_an_inference_error() {
    let answer = model().predict(&small_png(), |_tensor: &NormalizedTensor| {
        Err("shape mismatch".to_string())
    });
    match answer {
        Err(PredictError::Inference(reason)) => assert_eq!(reason, "shape mismatch"),
        other => panic!("unexpected answer: {:?}", other),
    }
}

#[test]
fn conclude_ranks_or_passes_the_failure_on() {
    let model = model();
    let ranked = model.conclude(Ok(scores_of(&[0.1, 0.9]))).unwrap();
    assert_eq!(
        pairs(&ranked),
        vec![("elm".to_string(), 0.9f32 * 100.0), ("oak".to_string(), 0.1f32 * 100.0)]
    );
    assert!(matches!(model.conclude(Err("down".to_string())), Err(PredictError::Inference(_))));
}

#[test]
fn successful_answer_descends() {
    let answer = model()
        .predict(&small_png(), |_tensor: &NormalizedTensor| {
            Ok(scores_of(&[0.03, 0.5, 0.03, 0.2, 0.0001, 0.2399]))
        })
        .unwrap();
    let list = pairs(&answer);
    assert_eq!(list.len(), 6);
    for pair in list.windows(2) {
        assert!(pair[0].1 >= pair[1].1);
    }
    for entry in &list {
        assert!(entry.1 > 0.0 && entry.1 <= 100.0);
    }
}
