//! The voice activity detector of the `earshot` crate.

use crate::float::binary32::Binary32;
use crate::float::model::{from_int, Float, Format};
use vstd::prelude::*;

verus! {

/// The detector itself. Nothing is known of what is inside.
#[verifier::external_type_specification]
#[verifier::external_body]
#[verifier::reject_recursive_types(P)]
pub struct ExDetector<P>(earshot::Detector<P>);

/// The predictor that a default detector runs.
#[verifier::external_type_specification]
#[verifier::external_body]
pub struct ExDefaultPredictor(earshot::DefaultPredictor);

/// The frames that a detector was given since it was made or last reset, in order.
pub uninterp spec fn frames_heard(detector: earshot::Detector) -> Seq<Seq<i16>>;

/// The scores that a detector gave since it was made or last reset, in order.
pub uninterp spec fn scores_given(detector: earshot::Detector) -> Seq<Float>;

/// `<earshot::Detector as Default>::default`: a detector that was given nothing and gave no
/// score yet.
#[verifier::external_body]
pub(crate) fn new_detector() -> (detector: earshot::Detector)
    ensures
        frames_heard(detector) == Seq::<Seq<i16>>::empty(),
        scores_given(detector) == Seq::<Float>::empty(),
{
    earshot::Detector::default()
}

/// `earshot::Detector::reset`: the detector is as if it had been given nothing.
#[verifier::external_body]
pub(crate) fn reset_detector(detector: &mut earshot::Detector)
    ensures
        frames_heard(*final(detector)) == Seq::<Seq<i16>>::empty(),
        scores_given(*final(detector)) == Seq::<Float>::empty(),
{
    detector.reset()
}

/// `earshot::Detector::predict_i16`: the detector is given one more frame, and scores it between
/// zero and one; that score is the last that it gave. It rests on all frames heard, but no clause
/// says how: it goes through the exponential and the logarithm of the machine.
#[verifier::external_body]
pub(crate) fn score_frame(detector: &mut earshot::Detector, frame: &[i16]) -> (score: Binary32)
    requires
        frame@.len() == 256,
    ensures
        frames_heard(*final(detector)) == frames_heard(*old(detector)).push(frame@),
        scores_given(*final(detector)) == scores_given(*old(detector)).push(score@),
        Float::zero().le(score@),
        score@.le(from_int(Format::Single, 1)),
{
    Binary32 { bits: detector.predict_i16(frame).to_bits() }
}

} // verus!
