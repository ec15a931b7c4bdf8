//! Bookkeeping of the fingers touching the screen and the gesture they
//! form between two frames. Positions are values of a type parameter that
//! is only carried along.
use vstd::prelude::*;

verus! {

/// Phase of one touch event.
#[derive(Debug, Clone, Copy, PartialEq, Eq)]
pub enum TouchPhaseKind {
    Started,
    Moved,
    Ended,
    Canceled,
}

/// Position of the first finger in `fingers` with id `id`, or
/// `fingers.len()` when there is none.
pub open spec fn first_with_id<P>(fingers: Seq<(u64, P)>, id: u64) -> int
    decreases fingers.len(),
{
    if fingers.len() == 0 {
        0
    } else if fingers[0].0 == id {
        0
    } else {
        1 + first_with_id(fingers.drop_first(), id)
    }
}

/// Holds for the fingers whose id is not `id`.
pub open spec fn other_fingers<P>(id: u64) -> spec_fn((u64, P)) -> bool {
    |f: (u64, P)| f.0 != id
}

/// The fingers after one touch event: a started or moved finger updates
/// the first entry with its id or is appended; an ended or cancelled finger
/// is removed everywhere.
pub open spec fn fingers_after<P>(fingers: Seq<(u64, P)>, id: u64, position: P, phase: TouchPhaseKind) -> Seq<
    (u64, P),
> {
    match phase {
        TouchPhaseKind::Started | TouchPhaseKind::Moved => {
            let k = first_with_id(fingers, id);
            if k < fingers.len() {
                fingers.update(k, (id, position))
            } else {
                fingers.push((id, position))
            }
        },
        TouchPhaseKind::Ended | TouchPhaseKind::Canceled => fingers.filter(other_fingers(id)),
    }
}

proof fn lemma_first_with_id<P>(fingers: Seq<(u64, P)>, id: u64)
    ensures
        0 <= first_with_id(fingers, id) <= fingers.len(),
        first_with_id(fingers, id) < fingers.len() ==> fingers[first_with_id(fingers, id)].0 == id,
        forall|j: int| 0 <= j < first_with_id(fingers, id) ==> #[trigger] fingers[j].0 != id,
    decreases fingers.len(),
{
    if fingers.len() > 0 && fingers[0].0 != id {
        let rest = fingers.drop_first();
        lemma_first_with_id(rest, id);
        assert forall|j: int| 0 <= j < first_with_id(fingers, id) implies #[trigger] fingers[j].0 != id by {
            if j > 0 {
                assert(fingers[j] == rest[j - 1]);
            }
        }
    }
}

/// Apply one touch event to the list of fingers.
pub fn apply_touch<P: Copy>(fingers: &mut Vec<(u64, P)>, id: u64, position: P, phase: TouchPhaseKind)
    ensures
        final(fingers)@ == fingers_after(old(fingers)@, id, position, phase),
{
    match phase {
        TouchPhaseKind::Started | TouchPhaseKind::Moved => {
            let k = position_of(fingers, id);
            if k < fingers.len() {
                fingers[k] = (id, position);
            } else {
                fingers.push((id, position));
            }
        },
        TouchPhaseKind::Ended | TouchPhaseKind::Canceled => {
            let ghost orig = fingers@;
            let mut kept: Vec<(u64, P)> = Vec::new();
            let mut i: usize = 0;
            while i < fingers.len()
                invariant
                    fingers@ == orig,
                    i <= orig.len(),
                    kept@ == orig.take(i as int).filter(other_fingers(id)),
                decreases orig.len() - i,
            {
                let f = fingers[i];
                proof {
                    reveal(Seq::filter);
                    assert(orig.take(i + 1).drop_last() =~= orig.take(i as int));
                }
                if f.0 != id {
                    kept.push(f);
                }
                i = i + 1;
            }
            proof {
                assert(orig.take(orig.len() as int) =~= orig);
            }
            *fingers = kept;
        },
    }
}

/// Index of the first finger with id `id`, or the number of fingers.
fn position_of<P: Copy>(fingers: &Vec<(u64, P)>, id: u64) -> (r: usize)
    ensures
        r == first_with_id(fingers@, id),
{
    proof {
        lemma_first_with_id(fingers@, id);
    }
    let mut i: usize = 0;
    while i < fingers.len()
        invariant
            i <= fingers@.len(),
            i <= first_with_id(fingers@, id),
            0 <= first_with_id(fingers@, id) <= fingers@.len(),
            first_with_id(fingers@, id) < fingers@.len() ==> fingers@[first_with_id(fingers@, id)].0 == id,
            forall|j: int| 0 <= j < first_with_id(fingers@, id) ==> #[trigger] fingers@[j].0 != id,
        decreases fingers@.len() - i,
    {
        if fingers[i].0 == id {
            return i;
        }
        i = i + 1;
    }
    i
}

/// The position of the first finger with id `id`.
pub fn find_finger<P: Copy>(fingers: &Vec<(u64, P)>, id: u64) -> (r: Option<P>)
    ensures
        r == (if first_with_id(fingers@, id) < fingers@.len() {
            Some(fingers@[first_with_id(fingers@, id)].1)
        } else {
            None
        }),
{
    let k = position_of(fingers, id);
    if k < fingers.len() {
        Some(fingers[k].1)
    } else {
        None
    }
}

/// The gesture formed by the fingers of two consecutive frames.
#[derive(Debug, Clone, Copy, PartialEq, Eq)]
pub enum Gesture<P> {
    /// Nothing to do.
    Idle,
    /// One finger, the same in both frames, moved from `from` to `to`: orbit.
    Orbit { from: P, to: P },
    /// Two or more fingers in both frames, the first two found in the
    /// previous frame too: pinch to zoom and drag to pan.
    PinchPan { cur_a: P, cur_b: P, prev_a: P, prev_b: P },
}

/// The gesture that `current` and `prev` form.
pub open spec fn gesture_of<P>(current: Seq<(u64, P)>, prev: Seq<(u64, P)>) -> Gesture<P> {
    if current.len() == 1 && prev.len() == 1 {
        if current[0].0 == prev[0].0 {
            Gesture::Orbit { from: prev[0].1, to: current[0].1 }
        } else {
            Gesture::Idle
        }
    } else if current.len() >= 2 && prev.len() >= 2 {
        let ka = first_with_id(prev, current[0].0);
        let kb = first_with_id(prev, current[1].0);
        if ka < prev.len() && kb < prev.len() {
            Gesture::PinchPan { cur_a: current[0].1, cur_b: current[1].1, prev_a: prev[ka].1, prev_b: prev[kb].1 }
        } else {
            Gesture::Idle
        }
    } else {
        Gesture::Idle
    }
}

/// Classify the gesture between the previous and the current fingers.
pub fn classify_gesture<P: Copy>(current: &Vec<(u64, P)>, prev: &Vec<(u64, P)>) -> (r: Gesture<P>)
    ensures
        r == gesture_of(current@, prev@),
{
    if current.len() == 1 && prev.len() == 1 {
        if current[0].0 == prev[0].0 {
            Gesture::Orbit { from: prev[0].1, to: current[0].1 }
        } else {
            Gesture::Idle
        }
    } else if current.len() >= 2 && prev.len() >= 2 {
        let pa = find_finger(prev, current[0].0);
        let pb = find_finger(prev, current[1].0);
        match (pa, pb) {
            (Some(a), Some(b)) => Gesture::PinchPan { cur_a: current[0].1, cur_b: current[1].1, prev_a: a, prev_b: b },
            _ => Gesture::Idle,
        }
    } else {
        Gesture::Idle
    }
}

/// A finger list never holds a finger id twice when built from events: a
/// start or move of a listed finger updates it in place, and an end removes
/// it.
pub proof fn lemma_fingers_stay_distinct<P>(fingers: Seq<(u64, P)>, id: u64, position: P, phase: TouchPhaseKind)
    requires
        forall|i: int, j: int| 0 <= i < j < fingers.len() ==> fingers[i].0 != fingers[j].0,
    ensures
        ({
            let after = fingers_after(fingers, id, position, phase);
            forall|i: int, j: int| 0 <= i < j < after.len() ==> after[i].0 != after[j].0
        }),
{
    lemma_first_with_id(fingers, id);
    let after = fingers_after(fingers, id, position, phase);
    match phase {
        TouchPhaseKind::Started | TouchPhaseKind::Moved => {
            let k = first_with_id(fingers, id);
            if k < fingers.len() {
                assert forall|i: int, j: int| 0 <= i < j < after.len() implies after[i].0 != after[j].0 by {
                    assert(after[i].0 == fingers[i].0);
                    assert(after[j].0 == fingers[j].0);
                }
            } else {
                assert forall|i: int, j: int| 0 <= i < j < after.len() implies after[i].0 != after[j].0 by {
                    if j == fingers.len() {
                        assert(fingers[i].0 != id);
                    }
                }
            }
        },
        TouchPhaseKind::Ended | TouchPhaseKind::Canceled => {
            lemma_filter_keeps_distinct(fingers, id);
        },
    }
}

proof fn lemma_filter_keeps_distinct<P>(fingers: Seq<(u64, P)>, id: u64)
    requires
        forall|i: int, j: int| 0 <= i < j < fingers.len() ==> fingers[i].0 != fingers[j].0,
    ensures
        ({
            let f = fingers.filter(other_fingers(id));
            &&& forall|i: int, j: int| 0 <= i < j < f.len() ==> f[i].0 != f[j].0
            &&& forall|i: int| 0 <= i < f.len() ==> f[i].0 != id && fingers.contains(#[trigger] f[i])
        }),
    decreases fingers.len(),
{
    reveal(Seq::filter);
    if fingers.len() > 0 {
        let prev = fingers.drop_last();
        lemma_filter_keeps_distinct(prev, id);
        let fp = prev.filter(other_fingers(id));
        let f = fingers.filter(other_fingers(id));
        let last = fingers.last();
        assert forall|i: int| 0 <= i < fp.len() implies fingers.contains(#[trigger] fp[i]) by {
            let k = choose|k: int| 0 <= k < prev.len() && prev[k] == fp[i];
            assert(fingers[k] == prev[k]);
        }
        if last.0 != id {
            assert(f == fp.push(last));
            assert forall|i: int, j: int| 0 <= i < j < f.len() implies f[i].0 != f[j].0 by {
                if j == fp.len() {
                    let k = choose|k: int| 0 <= k < prev.len() && prev[k] == fp[i];
                    assert(fingers[k] == prev[k]);
                    assert(fingers[fingers.len() - 1] == last);
                }
            }
            assert(fingers[fingers.len() - 1] == last);
        }
    }
}

/// An ended or cancelled touch removes every finger with its id and keeps
/// every other finger, adding none; cancelling has the same effect as
/// ending.
pub proof fn lemma_touch_release<P>(fingers: Seq<(u64, P)>, id: u64, position: P, phase: TouchPhaseKind)
    requires
        phase is Ended || phase is Canceled,
    ensures
        ({
            let after = fingers_after(fingers, id, position, phase);
            &&& forall|i: int| 0 <= i < after.len() ==> (#[trigger] after[i]).0 != id
            &&& forall|f: (u64, P)| fingers.contains(f) && f.0 != id ==> #[trigger] after.contains(f)
            &&& forall|f: (u64, P)| #[trigger] after.contains(f) ==> fingers.contains(f)
            &&& after == fingers_after(fingers, id, position, TouchPhaseKind::Ended)
        }),
{
    broadcast use vstd::seq_lib::group_filter_ensures;

    let after = fingers_after(fingers, id, position, phase);
    let p = other_fingers::<P>(id);
    assert(after == fingers.filter(p));
    assert forall|i: int| 0 <= i < after.len() implies (#[trigger] after[i]).0 != id by {
        assert(p(after[i]));
    }
    assert forall|f: (u64, P)| fingers.contains(f) && f.0 != id implies #[trigger] after.contains(f) by {
        let k = choose|k: int| 0 <= k < fingers.len() && fingers[k] == f;
        fingers.lemma_filter_contains(p, k);
    }
    assert forall|f: (u64, P)| #[trigger] after.contains(f) implies fingers.contains(f) by {
        fingers.lemma_filter_contains_rev(p, f);
    }
}

/// A started or moved touch leaves a finger with its id at its new
/// position, keeps every finger with another id, adds no other finger, and
/// grows the list by one exactly when no finger had that id.
pub proof fn lemma_touch_press<P>(fingers: Seq<(u64, P)>, id: u64, position: P, phase: TouchPhaseKind)
    requires
        phase is Started || phase is Moved,
    ensures
        ({
            let after = fingers_after(fingers, id, position, phase);
            &&& after.contains((id, position))
            &&& forall|f: (u64, P)| fingers.contains(f) && f.0 != id ==> #[trigger] after.contains(f)
            &&& forall|f: (u64, P)| #[trigger] after.contains(f) && f.0 != id ==> fingers.contains(f)
            &&& after.len() == fingers.len() + if exists|i: int| 0 <= i < fingers.len() && (#[trigger] fingers[i]).0
                == id {
                0int
            } else {
                1int
            }
        }),
{
    lemma_first_with_id(fingers, id);
    let after = fingers_after(fingers, id, position, phase);
    let k = first_with_id(fingers, id);
    if k < fingers.len() {
        assert(after[k] == (id, position));
        assert forall|f: (u64, P)| fingers.contains(f) && f.0 != id implies #[trigger] after.contains(f) by {
            let m = choose|m: int| 0 <= m < fingers.len() && fingers[m] == f;
            assert(after[m] == f);
        }
        assert forall|f: (u64, P)| #[trigger] after.contains(f) && f.0 != id implies fingers.contains(f) by {
            let m = choose|m: int| 0 <= m < after.len() && after[m] == f;
            assert(fingers[m] == f);
        }
        assert(fingers[k].0 == id);
    } else {
        assert(after[fingers.len() as int] == (id, position));
        assert forall|f: (u64, P)| fingers.contains(f) && f.0 != id implies #[trigger] after.contains(f) by {
            let m = choose|m: int| 0 <= m < fingers.len() && fingers[m] == f;
            assert(after[m] == f);
        }
        assert forall|f: (u64, P)| #[trigger] after.contains(f) && f.0 != id implies fingers.contains(f) by {
            let m = choose|m: int| 0 <= m < after.len() && after[m] == f;
            assert(fingers[m] == f);
        }
        assert(!exists|i: int| 0 <= i < fingers.len() && (#[trigger] fingers[i]).0 == id);
    }
}

/// `find_finger` gives the position of the first finger with `id`, and
/// `None` exactly when no finger has that id.
pub proof fn lemma_first_finger<P>(fingers: Seq<(u64, P)>, id: u64)
    ensures
        0 <= first_with_id(fingers, id) <= fingers.len(),
        first_with_id(fingers, id) < fingers.len() <==> exists|i: int|
            0 <= i < fingers.len() && (#[trigger] fingers[i]).0 == id,
        first_with_id(fingers, id) < fingers.len() ==> fingers[first_with_id(fingers, id)].0 == id,
        forall|j: int| 0 <= j < first_with_id(fingers, id) ==> (#[trigger] fingers[j]).0 != id,
{
    lemma_first_with_id(fingers, id);
}

/// `i` is the position of the first finger with id `id`.
pub open spec fn first_finger_at<P>(fingers: Seq<(u64, P)>, id: u64, i: int) -> bool {
    &&& 0 <= i < fingers.len()
    &&& fingers[i].0 == id
    &&& forall|j: int| 0 <= j < i ==> (#[trigger] fingers[j]).0 != id
}

/// One finger in both frames, the same one, orbits from where it was to
/// where it is; two or more fingers in both frames pinch and pan exactly
/// when the first two current fingers were both present before, carrying
/// their current positions and the positions of their first previous
/// entries; anything else is idle.
pub proof fn lemma_gesture_cases<P>(current: Seq<(u64, P)>, prev: Seq<(u64, P)>)
    ensures
        gesture_of(current, prev) is Orbit <==> (current.len() == 1 && prev.len() == 1 && current[0].0
            == prev[0].0),
        gesture_of(current, prev) is Orbit ==> gesture_of(current, prev) == (Gesture::Orbit {
            from: prev[0].1,
            to: current[0].1,
        }),
        gesture_of(current, prev) is PinchPan <==> (current.len() >= 2 && prev.len() >= 2 && (exists|i: int|
            0 <= i < prev.len() && (#[trigger] prev[i]).0 == current[0].0) && (exists|i: int|
            0 <= i < prev.len() && (#[trigger] prev[i]).0 == current[1].0)),
        gesture_of(current, prev) matches Gesture::PinchPan { cur_a, cur_b, prev_a, prev_b } ==> {
            &&& cur_a == current[0].1
            &&& cur_b == current[1].1
            &&& exists|i: int| #[trigger] first_finger_at(prev, current[0].0, i) && prev[i].1 == prev_a
            &&& exists|i: int| #[trigger] first_finger_at(prev, current[1].0, i) && prev[i].1 == prev_b
        },
{
    if current.len() >= 2 && prev.len() >= 2 {
        lemma_first_finger(prev, current[0].0);
        lemma_first_finger(prev, current[1].0);
        let ka = first_with_id(prev, current[0].0);
        let kb = first_with_id(prev, current[1].0);
        if ka < prev.len() && kb < prev.len() {
            assert(first_finger_at(prev, current[0].0, ka));
            assert(first_finger_at(prev, current[1].0, kb));
        }
    }
}

} // verus!
