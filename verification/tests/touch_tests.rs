use genesis_sim::touch::{apply_touch, classify_gesture, find_finger, Gesture, TouchPhaseKind};

#[test]
fn fingers_start_move_and_end() {
    let mut f: Vec<(u64, (i32, i32))> = Vec::new();
    apply_touch(&mut f, 1, (0, 0), TouchPhaseKind::Started);
    apply_touch(&mut f, 2, (5, 5), TouchPhaseKind::Started);
    apply_touch(&mut f, 1, (1, 2), TouchPhaseKind::Moved);
    assert_eq!(f, vec![(1, (1, 2)), (2, (5, 5))]);
    apply_touch(&mut f, 3, (9, 9), TouchPhaseKind::Moved);
    assert_eq!(f.len(), 3);
    apply_touch(&mut f, 1, (0, 0), TouchPhaseKind::Ended);
    assert_eq!(f, vec![(2, (5, 5)), (3, (9, 9))]);
    apply_touch(&mut f, 7, (0, 0), TouchPhaseKind::Canceled);
    assert_eq!(f.len(), 2);
    assert_eq!(find_finger(&f, 3), Some((9, 9)));
    assert_eq!(find_finger(&f, 1), None);
}

#[test]
fn gestures() {
    let prev = vec![(4u64, (0, 0))];
    let cur = vec![(4u64, (3, 1))];
    assert_eq!(classify_gesture(&cur, &prev), Gesture::Orbit { from: (0, 0), to: (3, 1) });
    let other = vec![(5u64, (3, 1))];
    assert_eq!(classify_gesture(&other, &prev), Gesture::Idle);
    let prev2 = vec![(1u64, (0, 0)), (2, (10, 0))];
    let cur2 = vec![(2u64, (12, 0)), (1, (-2, 0)), (3, (7, 7))];
    assert_eq!(
        classify_gesture(&cur2, &prev2),
        Gesture::PinchPan { cur_a: (12, 0), cur_b: (-2, 0), prev_a: (10, 0), prev_b: (0, 0) }
    );
    let cur3 = vec![(2u64, (12, 0)), (9, (-2, 0))];
    assert_eq!(classify_gesture(&cur3, &prev2), Gesture::Idle);
    assert_eq!(classify_gesture(&cur, &prev2), Gesture::Idle);
}
