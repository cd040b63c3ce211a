use raytracer::csg::{action, csg_first_hit, csg_merge, state_of, Action, HitRecord, Mode};

fn hit(d: f32, entering: bool, tag: usize) -> HitRecord {
    HitRecord { distance: d.to_bits(), entering, tag }
}

/// Hits of a solid spanning `[a, b]` along the ray.
fn span(a: f32, b: f32, tag: usize) -> Vec<HitRecord> {
    vec![hit(a, true, tag), hit(b, false, tag + 1)]
}

fn summary(hits: &[HitRecord]) -> Vec<(f32, bool, usize)> {
    hits.iter().map(|h| (f32::from_bits(h.distance), h.entering, h.tag)).collect()
}

#[test]
fn action_table_rows() {
    let union = [
        Action::CsgADrop, Action::CsgBDrop, Action::CsgAExit, Action::CsgBDrop,
        Action::CsgADrop, Action::CsgBExit, Action::CsgAEnter, Action::CsgBEnter,
    ];
    let inter = [
        Action::CsgAExit, Action::CsgBExit, Action::CsgADrop, Action::CsgBEnter,
        Action::CsgAEnter, Action::CsgBDrop, Action::CsgADrop, Action::CsgBDrop,
    ];
    let diff = [
        Action::CsgADrop, Action::CsgBEnter, Action::CsgAExit, Action::CsgBExit,
        Action::CsgADrop, Action::CsgBDrop, Action::CsgAEnter, Action::CsgBDrop,
    ];
    for s in 0..8 {
        assert_eq!(action(Mode::CsgUnion, s), union[s]);
        assert_eq!(action(Mode::CsgInter, s), inter[s]);
        assert_eq!(action(Mode::CsgDiff, s), diff[s]);
    }
}

#[test]
fn state_counts_entering_flags_and_order() {
    assert_eq!(state_of(&hit(1.0, true, 0), &hit(2.0, true, 1)), 6);
    assert_eq!(state_of(&hit(3.0, true, 0), &hit(2.0, false, 1)), 5);
    assert_eq!(state_of(&hit(2.0, false, 0), &hit(2.0, false, 1)), 0);
    // A NaN distance is never farther.
    assert_eq!(state_of(&hit(f32::NAN, false, 0), &hit(1.0, true, 1)), 2);
}

#[test]
fn union_of_overlapping_spans() {
    let l = span(1.0, 4.0, 10);
    let r = span(2.0, 6.0, 20);
    let out = csg_merge(Mode::CsgUnion, &l, &r);
    assert_eq!(summary(&out), vec![(1.0, true, 10), (6.0, false, 21)]);
}

#[test]
fn intersection_of_overlapping_spans() {
    let l = span(1.0, 4.0, 10);
    let r = span(2.0, 6.0, 20);
    let out = csg_merge(Mode::CsgInter, &l, &r);
    assert_eq!(summary(&out), vec![(2.0, true, 20), (4.0, false, 11)]);
}

#[test]
fn difference_of_overlapping_spans() {
    let l = span(1.0, 4.0, 10);
    let r = span(2.0, 6.0, 20);
    let out = csg_merge(Mode::CsgDiff, &l, &r);
    assert_eq!(summary(&out), vec![(1.0, true, 10), (2.0, false, 20)]);
}

#[test]
fn difference_keeps_the_rest_of_the_left_operand() {
    let l = span(5.0, 8.0, 10);
    let r = span(1.0, 2.0, 20);
    let out = csg_merge(Mode::CsgDiff, &l, &r);
    assert_eq!(summary(&out), vec![(5.0, true, 10), (8.0, false, 11)]);
}

#[test]
fn disjoint_union_keeps_both() {
    let l = span(1.0, 2.0, 10);
    let r = span(5.0, 6.0, 20);
    let out = csg_merge(Mode::CsgUnion, &l, &r);
    assert_eq!(
        summary(&out),
        vec![(1.0, true, 10), (2.0, false, 11), (5.0, true, 20), (6.0, false, 21)]
    );
}

#[test]
fn empty_operands() {
    let l = span(1.0, 2.0, 10);
    let none: Vec<HitRecord> = Vec::new();
    assert_eq!(csg_merge(Mode::CsgUnion, &l, &none), l);
    assert_eq!(csg_merge(Mode::CsgUnion, &none, &l), l);
    assert_eq!(csg_merge(Mode::CsgDiff, &l, &none), l);
    assert!(csg_merge(Mode::CsgDiff, &none, &l).is_empty());
    assert!(csg_merge(Mode::CsgInter, &l, &none).is_empty());
    assert!(csg_merge(Mode::CsgInter, &none, &l).is_empty());
}

#[test]
fn first_hit_agrees_with_the_full_merge() {
    let cases = [
        (span(1.0, 4.0, 10), span(2.0, 6.0, 20)),
        (span(5.0, 8.0, 10), span(1.0, 2.0, 20)),
        (span(1.0, 2.0, 10), span(5.0, 6.0, 20)),
        (span(1.0, 2.0, 10), Vec::new()),
        (Vec::new(), span(1.0, 2.0, 20)),
    ];
    for mode in [Mode::CsgUnion, Mode::CsgInter, Mode::CsgDiff] {
        for (l, r) in cases.iter() {
            let all = csg_merge(mode, l, r);
            let first = csg_first_hit(mode, l, r);
            match first {
                None => assert!(all.is_empty()),
                Some(h) => {
                    assert_eq!(h.distance, all[0].distance);
                    assert_eq!(h.tag, all[0].tag);
                }
            }
        }
    }
}

#[test]
fn first_hit_keeps_the_operands_entering_flag() {
    // The intersection begins where the right operand is entered while the
    // ray is already inside the left one.
    let l = span(1.0, 4.0, 10);
    let r = span(2.0, 6.0, 20);
    let first = csg_first_hit(Mode::CsgInter, &l, &r).unwrap();
    assert_eq!(first, hit(2.0, true, 20));
    // The union's far side is reported as the right operand's exit.
    let first = csg_first_hit(Mode::CsgDiff, &span(5.0, 8.0, 10), &span(1.0, 2.0, 20)).unwrap();
    assert_eq!(first, hit(5.0, true, 10));
}

#[test]
fn merged_hits_stay_sorted() {
    let l = vec![hit(-1.0, true, 1), hit(3.0, false, 2), hit(7.0, true, 3), hit(9.0, false, 4)];
    let r = vec![hit(0.5, true, 5), hit(8.0, false, 6)];
    for mode in [Mode::CsgUnion, Mode::CsgInter, Mode::CsgDiff] {
        let out = csg_merge(mode, &l, &r);
        let d: Vec<f32> = out.iter().map(|h| f32::from_bits(h.distance)).collect();
        assert!(d.windows(2).all(|w| w[0] <= w[1]));
        assert!(out.len() <= l.len() + r.len());
    }
}

fn inside(hits: &[HitRecord], t: f32) -> bool {
    hits.iter().filter(|h| f32::from_bits(h.distance) < t).count() % 2 == 1
}

#[test]
fn combinations_are_set_operations() {
    let left = vec![
        hit(0.0, true, 0), hit(2.0, false, 1), hit(4.0, true, 2), hit(9.0, false, 3),
    ];
    let right = vec![hit(1.0, true, 4), hit(5.0, false, 5), hit(8.0, true, 6), hit(12.0, false, 7)];
    for mode in [Mode::CsgUnion, Mode::CsgInter, Mode::CsgDiff] {
        let out = csg_merge(mode, &left, &right);
        // Entries and exits alternate, starting with an entry.
        assert_eq!(out.len() % 2, 0);
        for (k, h) in out.iter().enumerate() {
            assert_eq!(h.entering, k % 2 == 0);
        }
        let mut t = -1.25f32;
        while t < 14.0 {
            let (a, b) = (inside(&left, t), inside(&right, t));
            let expected = match mode {
                Mode::CsgUnion => a || b,
                Mode::CsgInter => a && b,
                Mode::CsgDiff => a && !b,
            };
            assert_eq!(inside(&out, t), expected, "{:?} at {}", mode, t);
            t += 0.5;
        }
    }
}
