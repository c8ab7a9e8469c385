//! Laws of utterances, frame by frame and over all frames that are heard. Times are in nanoseconds.

use crate::float::binary32::Binary32;
use crate::live::{finished_by, progress_after, LiveFrame, Spoken};
use vstd::prelude::*;

verus! {

/// In silence, a frame that is no voice changes nothing. One that is begins an utterance, which
/// holds that frame and nothing else.
pub proof fn law_utterance_begins(now: u64, frame: LiveFrame)
    ensures
        finished_by(None, now, frame) is None,
        !frame.confirmed_voiced ==> progress_after(None, now, frame) is None,
        frame.confirmed_voiced ==> {
            &&& progress_after(None, now, frame) matches Some(s)
            &&& s.start == now && s.last_voiced == now
            &&& s.peak_score == frame.score
            &&& s.levels.len() == 1 && s.levels[0] == frame.rms
            &&& frame.pitch is None ==> s.pitches.len() == 0
            &&& frame.pitch matches Some(p) ==> s.pitches.len() == 1 && s.pitches[0] == p
        },
{
}

/// A voice is added to the utterance that is in progress, however long the pause before it was:
/// the utterance lasts until now, and holds the level of the frame, its pitch if there is one, and
/// the larger of the two scores.
pub proof fn law_voice_is_added(spoken: Spoken, now: u64, frame: LiveFrame)
    requires
        frame.confirmed_voiced,
    ensures
        finished_by(Some(spoken), now, frame) is None,
        ({
            &&& progress_after(Some(spoken), now, frame) matches Some(s)
            &&& s.start == spoken.start && s.last_voiced == now
            &&& s.levels.len() == spoken.levels.len() + 1
            &&& s.levels.drop_last() == spoken.levels && s.levels.last() == frame.rms
            &&& frame.pitch is None ==> s.pitches == spoken.pitches
            &&& frame.pitch matches Some(p) ==> s.pitches.len() == spoken.pitches.len() + 1
                && s.pitches.drop_last() == spoken.pitches && s.pitches.last() == p
            &&& frame.score@.le(spoken.peak_score@) ==> s.peak_score == spoken.peak_score
            &&& spoken.peak_score@.lt(frame.score@) ==> s.peak_score == frame.score
        }),
{
    let s = progress_after(Some(spoken), now, frame).unwrap();
    assert(s.levels.drop_last() =~= spoken.levels);
    if frame.pitch is Some {
        assert(s.pitches.drop_last() =~= spoken.pitches);
    }
}

/// A pause of up to 400 milliseconds changes nothing. A longer one ends the utterance, which is
/// told as it is where a voice was last heard at least 200 milliseconds after its start, and else
/// is dropped.
pub proof fn law_pause_of_400_ms_ends(spoken: Spoken, now: u64, frame: LiveFrame)
    requires
        !frame.confirmed_voiced,
    ensures
        now <= spoken.last_voiced + 400_000_000 ==> {
            &&& progress_after(Some(spoken), now, frame) == Some(spoken)
            &&& finished_by(Some(spoken), now, frame) is None
        },
        now > spoken.last_voiced + 400_000_000 ==> {
            &&& progress_after(Some(spoken), now, frame) is None
            &&& spoken.last_voiced >= spoken.start + 200_000_000 ==> finished_by(
                Some(spoken),
                now,
                frame,
            ) == Some(spoken)
            &&& spoken.last_voiced < spoken.start + 200_000_000 ==> finished_by(
                Some(spoken),
                now,
                frame,
            ) is None
        },
{
}

/// The utterance in progress after the first `n` of frames that were heard at these times, from
/// silence on.
pub open spec fn in_progress(times: Seq<u64>, frames: Seq<LiveFrame>, n: nat) -> Option<Spoken>
    decreases n,
{
    if n == 0 {
        None
    } else {
        progress_after(in_progress(times, frames, (n - 1) as nat), times[n - 1], frames[n - 1])
    }
}

/// The utterance that the frame at `i` finishes, if any.
pub open spec fn told_at(times: Seq<u64>, frames: Seq<LiveFrame>, i: nat) -> Option<Spoken> {
    finished_by(in_progress(times, frames, i), times[i as int], frames[i as int])
}

/// The levels of the frames from `a` on and before `n` that are a voice.
pub open spec fn voice_levels(frames: Seq<LiveFrame>, a: int, n: int) -> Seq<Binary32> {
    frames.subrange(a, n).filter(|f: LiveFrame| f.confirmed_voiced).map_values(
        |f: LiveFrame| f.rms,
    )
}

/// The pitches of the frames from `a` on and before `n` that are a voice.
pub open spec fn voice_pitches(frames: Seq<LiveFrame>, a: int, n: int) -> Seq<Binary32> {
    frames.subrange(a, n).filter(
        |f: LiveFrame| f.confirmed_voiced && f.pitch is Some,
    ).map_values(|f: LiveFrame| f.pitch.unwrap())
}

/// Whether an utterance is made of the frames from `a` on and before `n`: the first of them is a
/// voice, the last voice among them is at `b`, and all that are a voice are told of.
pub open spec fn is_made_of(
    s: Spoken,
    times: Seq<u64>,
    frames: Seq<LiveFrame>,
    a: int,
    b: int,
    n: int,
) -> bool {
    &&& 0 <= a <= b < n <= frames.len()
    &&& frames[a].confirmed_voiced && frames[b].confirmed_voiced
    &&& forall|i: int| b < i < n ==> !(#[trigger] frames[i]).confirmed_voiced
    &&& s.start == times[a]
    &&& s.last_voiced == times[b]
    &&& s.levels == voice_levels(frames, a, n)
    &&& s.pitches == voice_pitches(frames, a, n)
    &&& forall|i: int|
        a <= i < n && (#[trigger] frames[i]).confirmed_voiced && !frames[i].score@.is_nan() && !(
        frames[a].score@.is_nan()) ==> frames[i].score@.le(s.peak_score@)
    &&& exists|i: int|
        a <= i < n && (#[trigger] frames[i]).confirmed_voiced && s.peak_score == frames[i].score
}

/// One more frame among those that are a voice.
proof fn lemma_one_more(frames: Seq<LiveFrame>, a: int, n: int)
    requires
        0 <= a < n <= frames.len(),
    ensures
        voice_levels(frames, a, n) == if frames[n - 1].confirmed_voiced {
            voice_levels(frames, a, n - 1).push(frames[n - 1].rms)
        } else {
            voice_levels(frames, a, n - 1)
        },
        voice_pitches(frames, a, n) == match frames[n - 1].pitch {
            Some(p) if frames[n - 1].confirmed_voiced => voice_pitches(frames, a, n - 1).push(p),
            _ => voice_pitches(frames, a, n - 1),
        },
        n == a + 1 ==> voice_levels(frames, a, n - 1).len() == 0 && voice_pitches(
            frames,
            a,
            n - 1,
        ).len() == 0,
{
    reveal(Seq::filter);
    let all = frames.subrange(a, n);
    let before = frames.subrange(a, n - 1);
    assert(all.drop_last() =~= before);
    assert(all.last() == frames[n - 1]);
    assert(voice_levels(frames, a, n) =~= if frames[n - 1].confirmed_voiced {
        voice_levels(frames, a, n - 1).push(frames[n - 1].rms)
    } else {
        voice_levels(frames, a, n - 1)
    });
    assert(voice_pitches(frames, a, n) =~= match frames[n - 1].pitch {
        Some(p) if frames[n - 1].confirmed_voiced => voice_pitches(frames, a, n - 1).push(p),
        _ => voice_pitches(frames, a, n - 1),
    });
}

/// An utterance in progress is made of the frames since it began, all of them.
#[verifier::rlimit(40)]
pub proof fn law_utterance_holds_its_frames(times: Seq<u64>, frames: Seq<LiveFrame>, n: nat)
    requires
        n <= frames.len(),
    ensures
        in_progress(times, frames, n) matches Some(s) ==> exists|a: int, b: int|
            #[trigger] is_made_of(s, times, frames, a, b, n as int),
    decreases n,
{
    if n > 0 {
        let m = (n - 1) as nat;
        law_utterance_holds_its_frames(times, frames, m);
        let frame = frames[n - 1];
        let now = times[n - 1];
        match in_progress(times, frames, m) {
            None => {
                law_utterance_begins(now, frame);
                if frame.confirmed_voiced {
                    let s = in_progress(times, frames, n).unwrap();
                    lemma_one_more(frames, n - 1, n as int);
                    assert(s.levels =~= voice_levels(frames, n - 1, n as int));
                    assert(s.pitches =~= voice_pitches(frames, n - 1, n as int));
                    assert(s.peak_score == frames[n - 1].score);
                    assert(is_made_of(s, times, frames, n - 1, n - 1, n as int));
                }
            },
            Some(t) => {
                let (a, b) = choose|a: int, b: int|
                    #[trigger] is_made_of(t, times, frames, a, b, m as int);
                lemma_one_more(frames, a, n as int);
                if frame.confirmed_voiced {
                    law_voice_is_added(t, now, frame);
                    let s = in_progress(times, frames, n).unwrap();
                    assert(s.levels =~= voice_levels(frames, a, n as int));
                    assert(s.pitches =~= voice_pitches(frames, a, n as int));
                    lemma_peak(t, s, times, frames, a, b, n as int);
                    assert(is_made_of(s, times, frames, a, n - 1, n as int));
                } else {
                    law_pause_of_400_ms_ends(t, now, frame);
                    if in_progress(times, frames, n) is Some {
                        assert(exists|i: int|
                            a <= i < n && (#[trigger] frames[i]).confirmed_voiced && t.peak_score
                                == frames[i].score);
                        assert(is_made_of(t, times, frames, a, b, n as int));
                    }
                }
            },
        }
    }
}

/// The peak of an utterance after one more frame that is a voice.
proof fn lemma_peak(
    t: Spoken,
    s: Spoken,
    times: Seq<u64>,
    frames: Seq<LiveFrame>,
    a: int,
    b: int,
    n: int,
)
    requires
        0 < n <= frames.len(),
        is_made_of(t, times, frames, a, b, n - 1),
        frames[n - 1].confirmed_voiced,
        progress_after(Some(t), times[n - 1], frames[n - 1]) == Some(s),
    ensures
        forall|i: int|
            a <= i < n && (#[trigger] frames[i]).confirmed_voiced && !frames[i].score@.is_nan()
                && !frames[a].score@.is_nan() ==> frames[i].score@.le(s.peak_score@),
        exists|i: int|
            a <= i < n && (#[trigger] frames[i]).confirmed_voiced && s.peak_score
                == frames[i].score,
{
    let i = choose|i: int|
        a <= i < n - 1 && (#[trigger] frames[i]).confirmed_voiced && t.peak_score
            == frames[i].score;
    let frame = frames[n - 1];
    if s.peak_score == t.peak_score {
        assert(frames[i].confirmed_voiced);
    } else {
        assert(frames[n - 1].confirmed_voiced && s.peak_score == frames[n - 1].score);
    }
    assert forall|j: int|
        a <= j < n && (#[trigger] frames[j]).confirmed_voiced && !frames[j].score@.is_nan()
            && !frames[a].score@.is_nan() implies frames[j].score@.le(s.peak_score@) by {
        assert(frames[a].score@.le(t.peak_score@));
        if j < n - 1 {
            assert(frames[j].score@.le(t.peak_score@));
        }
    }
}

/// What is told is an utterance with all of its frames, once no voice was heard for more than 400
/// milliseconds, and it lasted at least 200 milliseconds from its first voice to its last.
pub proof fn law_told_utterance(times: Seq<u64>, frames: Seq<LiveFrame>, i: nat)
    requires
        i < frames.len(),
    ensures
        told_at(times, frames, i) matches Some(s) ==> exists|a: int, b: int|
            {
                &&& #[trigger] is_made_of(s, times, frames, a, b, i as int)
                &&& !frames[i as int].confirmed_voiced
                &&& times[i as int] > times[b] + 400_000_000
                &&& times[b] >= times[a] + 200_000_000
            },
        told_at(times, frames, i) is Some ==> in_progress(times, frames, i + 1) is None,
{
    law_utterance_holds_its_frames(times, frames, i);
    match in_progress(times, frames, i) {
        None => {
            law_utterance_begins(times[i as int], frames[i as int]);
        },
        Some(t) => {
            let (a, b) = choose|a: int, b: int|
                #[trigger] is_made_of(t, times, frames, a, b, i as int);
            if frames[i as int].confirmed_voiced {
                law_voice_is_added(t, times[i as int], frames[i as int]);
            } else {
                law_pause_of_400_ms_ends(t, times[i as int], frames[i as int]);
                assert(is_made_of(t, times, frames, a, b, i as int));
            }
        },
    }
}

/// A voice that goes on without a pause of more than 400 milliseconds, and then stops for longer,
/// is told as one utterance if it lasts at least 200 milliseconds, and else not at all.
pub proof fn law_speech_becomes_utterance(
    times: Seq<u64>,
    frames: Seq<LiveFrame>,
    a: nat,
    b: nat,
    i: nat,
)
    requires
        a <= b < i < frames.len(),
        in_progress(times, frames, a) is None,
        goes_on(times, frames, a, b),
        forall|j: int| b < j <= i ==> !(#[trigger] frames[j]).confirmed_voiced,
        forall|j: int| b < j < i ==> #[trigger] times[j] <= times[b as int] + 400_000_000,
        times[i as int] > times[b as int] + 400_000_000,
    ensures
        told_at(times, frames, i) is Some <==> times[b as int] >= times[a as int] + 200_000_000,
        told_at(times, frames, i) matches Some(s) ==> s.start == times[a as int] && s.last_voiced
            == times[b as int],
        in_progress(times, frames, i + 1) is None,
{
    lemma_speech_goes_on(times, frames, a, b, b);
    lemma_pause_goes_on(times, frames, a, b, i);
    law_pause_of_400_ms_ends(
        in_progress(times, frames, i).unwrap(),
        times[i as int],
        frames[i as int],
    );
}

/// The last of the first `n` frames that is a voice; -1 where none is.
pub open spec fn last_voice(frames: Seq<LiveFrame>, n: nat) -> int
    decreases n,
{
    if n == 0 {
        -1
    } else if frames[n - 1].confirmed_voiced {
        n - 1
    } else {
        last_voice(frames, (n - 1) as nat)
    }
}

/// From `a` to `b`, where there is a voice, no frame is more than 400 milliseconds after the last
/// voice before it, unless it is a voice itself.
pub open spec fn goes_on(times: Seq<u64>, frames: Seq<LiveFrame>, a: nat, b: nat) -> bool {
    &&& frames[a as int].confirmed_voiced && frames[b as int].confirmed_voiced
    &&& forall|j: nat|
        a <= j <= b && !frames[j as int].confirmed_voiced ==> times[j as int]
            <= times[#[trigger] last_voice(frames, j)] + 400_000_000
}

/// The utterance that began at `a` is in progress after each frame up to `b`.
proof fn lemma_speech_goes_on(
    times: Seq<u64>,
    frames: Seq<LiveFrame>,
    a: nat,
    b: nat,
    j: nat,
)
    requires
        a <= j <= b < frames.len(),
        in_progress(times, frames, a) is None,
        goes_on(times, frames, a, b),
    ensures
        in_progress(times, frames, j + 1) matches Some(s) && s.start == times[a as int]
            && s.last_voiced == times[last_voice(frames, j + 1)],
        last_voice(frames, j + 1) >= a,
    decreases j,
{
    let frame = frames[j as int];
    let now = times[j as int];
    if j == a {
        law_utterance_begins(now, frame);
    } else {
        lemma_speech_goes_on(times, frames, a, b, (j - 1) as nat);
        let t = in_progress(times, frames, j).unwrap();
        if frame.confirmed_voiced {
            law_voice_is_added(t, now, frame);
        } else {
            law_pause_of_400_ms_ends(t, now, frame);
        }
    }
}

/// The utterance whose last voice was at `b` is in progress until the pause is too long.
proof fn lemma_pause_goes_on(
    times: Seq<u64>,
    frames: Seq<LiveFrame>,
    a: nat,
    b: nat,
    j: nat,
)
    requires
        a <= b < j <= frames.len(),
        in_progress(times, frames, a) is None,
        goes_on(times, frames, a, b),
        forall|l: int| b < l < j ==> !(#[trigger] frames[l]).confirmed_voiced,
        forall|l: int| b < l < j ==> #[trigger] times[l] <= times[b as int] + 400_000_000,
    ensures
        in_progress(times, frames, j) matches Some(s) && s.start == times[a as int]
            && s.last_voiced == times[b as int],
    decreases j,
{
    lemma_speech_goes_on(times, frames, a, b, b);
    if j > b + 1 {
        lemma_pause_goes_on(times, frames, a, b, (j - 1) as nat);
        assert(!frames[j - 1].confirmed_voiced);
        assert(times[j - 1] <= times[b as int] + 400_000_000);
        law_pause_of_400_ms_ends(
            in_progress(times, frames, (j - 1) as nat).unwrap(),
            times[j - 1],
            frames[j - 1],
        );
    }
}

} // verus!
