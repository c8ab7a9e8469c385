//! Laws of the processing of whole recordings.

use crate::engine::{
    confirms, decisions, filter_after_frames, frame_at, frame_count, gate_at_rest, is_score,
    lemma_earlier_scores, offered, state_after, FrameResult, GateState, VadEngine, FRAME_SIZE,
};
use crate::float::model::Float;
use crate::signal::{filter_at_rest, FilterState};
use vstd::prelude::*;

verus! {

/// Recordings with the same frames lead to the same states, of the filter and of what decides.
proof fn lemma_same_frames(
    filter: FilterState,
    state: GateState,
    a: Seq<i16>,
    b: Seq<i16>,
    scores: Seq<Float>,
    n: nat,
)
    requires
        forall|i: int| 0 <= i < n ==> #[trigger] frame_at(a, i) == frame_at(b, i),
    ensures
        filter_after_frames(filter, a, n) == filter_after_frames(filter, b, n),
        state_after(state, a, scores, n) == state_after(state, b, scores, n),
    decreases n,
{
    if n > 0 {
        lemma_same_frames(filter, state, a, b, scores, (n - 1) as nat);
        assert(frame_at(a, n - 1) == frame_at(b, n - 1));
    }
}

/// The frames of the beginning of a recording are the first frames of the recording.
proof fn lemma_first_frames(samples: Seq<i16>, n: nat)
    requires
        n * FRAME_SIZE <= samples.len(),
    ensures
        frame_count(samples.take((n * FRAME_SIZE) as int).len()) == n,
        n <= frame_count(samples.len()),
        forall|i: int|
            0 <= i < n ==> #[trigger] frame_at(samples.take((n * FRAME_SIZE) as int), i)
                == frame_at(samples, i),
{
    let first = samples.take((n * FRAME_SIZE) as int);
    assert forall|i: int| 0 <= i < n implies #[trigger] frame_at(first, i) == frame_at(
        samples,
        i,
    ) by {
        assert(frame_at(first, i) =~= frame_at(samples, i));
    }
}

/// What is decided on the beginning of a recording is the beginning of what is decided on all of
/// it, and so is what the detector gets to hear: nothing depends on later samples.
pub proof fn law_beginning_decides_for_itself(
    filter: FilterState,
    state: GateState,
    samples: Seq<i16>,
    scores: Seq<Float>,
    n: nat,
)
    requires
        n * FRAME_SIZE <= samples.len(),
        scores.len() == frame_count(samples.len()),
    ensures
        decisions(state, samples.take((n * FRAME_SIZE) as int), scores.take(n as int))
            == decisions(state, samples, scores).take(n as int),
        offered(filter, samples.take((n * FRAME_SIZE) as int)) == offered(filter, samples).take(
            n as int,
        ),
{
    let first = samples.take((n * FRAME_SIZE) as int);
    let early = scores.take(n as int);
    lemma_first_frames(samples, n);
    let a = decisions(state, first, early);
    let b = decisions(state, samples, scores).take(n as int);
    let c = offered(filter, first);
    let d = offered(filter, samples).take(n as int);
    assert forall|i: int| 0 <= i < n implies a[i] == b[i] && c[i] == d[i] by {
        lemma_same_frames(filter, state, first, samples, scores, i as nat);
        lemma_earlier_scores(state, first, early, scores, i as nat);
        assert(frame_at(first, i) == frame_at(samples, i));
    }
    assert(a =~= b);
    assert(c =~= d);
}

/// A recording whose last frame is filled up with silence.
pub open spec fn padded(samples: Seq<i16>) -> Seq<i16> {
    samples + Seq::new(
        (frame_count(samples.len()) * FRAME_SIZE - samples.len()) as nat,
        |i: int| 0i16,
    )
}

/// Filling up the last frame of a recording with silence changes nothing: neither what is decided
/// nor what the detector gets to hear.
pub proof fn law_padding_changes_nothing(
    filter: FilterState,
    state: GateState,
    samples: Seq<i16>,
    scores: Seq<Float>,
)
    ensures
        padded(samples).len() == frame_count(samples.len()) * FRAME_SIZE,
        decisions(state, samples, scores) == decisions(state, padded(samples), scores),
        offered(filter, samples) == offered(filter, padded(samples)),
{
    let n = frame_count(samples.len());
    let full = padded(samples);
    assert(frame_count(full.len()) == n);
    assert forall|i: int| 0 <= i < n implies #[trigger] frame_at(samples, i) == frame_at(
        full,
        i,
    ) by {
        assert(frame_at(samples, i) =~= frame_at(full, i));
    }
    let a = decisions(state, samples, scores);
    let b = decisions(state, full, scores);
    let c = offered(filter, samples);
    let d = offered(filter, full);
    assert forall|i: int| 0 <= i < n implies a[i] == b[i] && c[i] == d[i] by {
        lemma_same_frames(filter, state, samples, full, scores, i as nat);
        assert(frame_at(samples, i) == frame_at(full, i));
    }
    assert(a =~= b);
    assert(c =~= d);
}

/// One engine is given the frames of a recording in order: `engines` are its states, `results`
/// what it tells.
pub open spec fn is_run(
    engines: Seq<VadEngine>,
    results: Seq<FrameResult>,
    samples: Seq<i16>,
) -> bool {
    &&& results.len() == frame_count(samples.len())
    &&& engines.len() == results.len() + 1
    &&& engines[0].is_new()
    &&& forall|i: int|
        0 <= i < results.len() ==> (#[trigger] engines[i]).takes_frame(
            frame_at(samples, i),
            engines[i + 1],
            results[i],
        )
}

/// The scores that are told.
pub open spec fn told_scores(results: Seq<FrameResult>) -> Seq<Float> {
    results.map_values(|r: FrameResult| r.score@)
}

/// What is confirmed.
pub open spec fn confirmed(results: Seq<FrameResult>) -> Seq<bool> {
    results.map_values(|r: FrameResult| r.confirmed_voiced)
}

/// The engine after some of the frames.
proof fn lemma_run(
    engines: Seq<VadEngine>,
    results: Seq<FrameResult>,
    samples: Seq<i16>,
    n: nat,
)
    requires
        is_run(engines, results, samples),
        n <= results.len(),
    ensures
        ({
            let scores = told_scores(results);
            let engine = engines[n as int];
            &&& engine.heard() == offered(filter_at_rest(), samples).take(n as int)
            &&& engine.scored() == scores.take(n as int)
            &&& engine.filter() == filter_after_frames(filter_at_rest(), samples, n)
            &&& engine.state() == state_after(gate_at_rest(), samples, scores, n)
        }),
    decreases n,
{
    let scores = told_scores(results);
    let all = offered(filter_at_rest(), samples);
    if n == 0 {
        assert(all.take(0) =~= Seq::<Seq<i16>>::empty());
        assert(scores.take(0) =~= Seq::<Float>::empty());
    } else {
        lemma_run(engines, results, samples, (n - 1) as nat);
        assert(engines[n - 1].takes_frame(
            frame_at(samples, n - 1),
            engines[n - 1 + 1],
            results[n - 1],
        ));
        assert(all.take(n as int) =~= all.take(n - 1).push(all[n - 1]));
        assert(scores.take(n as int) =~= scores.take(n - 1).push(scores[n - 1]));
    }
}

/// A recording is processed as if its frames were given to one new engine, one after another: what
/// that engine confirms is what is decided by the scores that it told.
pub proof fn law_recording_is_processed_frame_by_frame(
    engines: Seq<VadEngine>,
    results: Seq<FrameResult>,
    samples: Seq<i16>,
)
    requires
        is_run(engines, results, samples),
    ensures
        engines.last().has_processed(samples),
        engines.last().scored() == told_scores(results),
        confirmed(results) == decisions(gate_at_rest(), samples, engines.last().scored()),
{
    let n = results.len();
    let scores = told_scores(results);
    let all = offered(filter_at_rest(), samples);
    lemma_run(engines, results, samples, n);
    assert(all.take(n as int) =~= all);
    assert(scores.take(n as int) =~= scores);
    assert forall|i: int| 0 <= i < n implies is_score(#[trigger] scores[i])
        && confirmed(results)[i] == confirms(
        state_after(gate_at_rest(), samples, scores, i as nat),
        frame_at(samples, i),
        scores[i],
    ) by {
        lemma_run(engines, results, samples, i as nat);
        assert(engines[i].takes_frame(frame_at(samples, i), engines[i + 1], results[i]));
    }
    assert(confirmed(results) =~= decisions(gate_at_rest(), samples, scores));
}

/// Whether the scores of frames follow a rule: each rests on the frames heard up to there, and on
/// nothing else.
pub open spec fn follows_rule(
    rule: spec_fn(Seq<Seq<i16>>) -> Float,
    heard: Seq<Seq<i16>>,
    scores: Seq<Float>,
) -> bool {
    &&& scores.len() == heard.len()
    &&& forall|i: int| 0 <= i < scores.len() ==> #[trigger] scores[i] == rule(heard.take(i + 1))
}

/// Equal recordings are decided on alike, as long as the detector scores what it hears by one rule.
pub proof fn law_equal_recordings_are_decided_alike(
    rule: spec_fn(Seq<Seq<i16>>) -> Float,
    a: VadEngine,
    b: VadEngine,
    samples: Seq<i16>,
)
    requires
        a.has_processed(samples),
        b.has_processed(samples),
        follows_rule(rule, a.heard(), a.scored()),
        follows_rule(rule, b.heard(), b.scored()),
    ensures
        a.scored() == b.scored(),
        a.state() == b.state(),
        decisions(gate_at_rest(), samples, a.scored()) == decisions(
            gate_at_rest(),
            samples,
            b.scored(),
        ),
{
    assert(a.scored() =~= b.scored());
}

/// The beginning of a recording is decided on as it is within the recording, as long as the
/// detector scores what it hears by one rule.
pub proof fn law_beginning_is_decided_alike(
    rule: spec_fn(Seq<Seq<i16>>) -> Float,
    a: VadEngine,
    b: VadEngine,
    samples: Seq<i16>,
    n: nat,
)
    requires
        n * FRAME_SIZE <= samples.len(),
        a.has_processed(samples.take((n * FRAME_SIZE) as int)),
        b.has_processed(samples),
        follows_rule(rule, a.heard(), a.scored()),
        follows_rule(rule, b.heard(), b.scored()),
    ensures
        a.scored() == b.scored().take(n as int),
        decisions(gate_at_rest(), samples.take((n * FRAME_SIZE) as int), a.scored()) == decisions(
            gate_at_rest(),
            samples,
            b.scored(),
        ).take(n as int),
{
    law_beginning_decides_for_itself(
        filter_at_rest(),
        gate_at_rest(),
        samples,
        b.scored(),
        n,
    );
    lemma_first_frames(samples, n);
    assert forall|i: int| 0 <= i < n implies #[trigger] a.scored()[i] == b.scored()[i] by {
        assert(a.heard().take(i + 1) =~= b.heard().take(i + 1));
    }
    assert(a.scored() =~= b.scored().take(n as int));
}

/// A recording is decided on as it is with its last frame filled up, as long as the detector scores
/// what it hears by one rule.
pub proof fn law_padded_is_decided_alike(
    rule: spec_fn(Seq<Seq<i16>>) -> Float,
    a: VadEngine,
    b: VadEngine,
    samples: Seq<i16>,
)
    requires
        a.has_processed(samples),
        b.has_processed(padded(samples)),
        follows_rule(rule, a.heard(), a.scored()),
        follows_rule(rule, b.heard(), b.scored()),
    ensures
        a.scored() == b.scored(),
        decisions(gate_at_rest(), samples, a.scored()) == decisions(
            gate_at_rest(),
            padded(samples),
            b.scored(),
        ),
{
    law_padding_changes_nothing(filter_at_rest(), gate_at_rest(), samples, a.scored());
    assert(a.scored() =~= b.scored());
}

} // verus!
