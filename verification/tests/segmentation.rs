use watermark_service::segmentation::{
    compute_segments, max_segment_duration, nearest_keyframe, Segment,
};

fn ms(secs: f64) -> i64 {
    (secs * 1000.0).round() as i64
}

fn all_ms(secs: &[f64]) -> Vec<i64> {
    secs.iter().map(|&s| ms(s)).collect()
}

fn lasting(index: usize, duration_ms: i64) -> Segment {
    Segment { index, start_ms: 0, end_ms: duration_ms, duration_ms }
}

#[test]
fn perfect_alignment() {
    let kf = all_ms(&[0.0, 4.0, 8.0, 12.0, 16.0, 20.0]);
    let segs = compute_segments(&kf, ms(20.0), ms(4.0));
    assert_eq!(segs.len(), 5);
    assert_eq!(segs[0].start_ms, ms(0.0));
    assert_eq!(segs[0].end_ms, ms(4.0));
    assert_eq!(segs[4].end_ms, ms(20.0));
    for seg in &segs {
        assert!(kf.contains(&seg.start_ms) || seg.start_ms == ms(0.0));
    }
}

#[test]
fn irregular_gop() {
    let kf = all_ms(&[0.0, 2.0, 4.08, 6.0, 8.16, 10.0, 12.08, 14.0, 16.16, 18.0, 20.0]);
    let segs = compute_segments(&kf, ms(20.0), ms(4.0));
    for seg in &segs {
        assert!(
            kf.iter().any(|&k| k == seg.start_ms),
            "seg {} start {} pas sur keyframe",
            seg.index,
            seg.start_ms
        );
    }
    assert_eq!(segs.first().unwrap().start_ms, ms(0.0));
    assert_eq!(segs.last().unwrap().end_ms, ms(20.0));
    for i in 1..segs.len() {
        assert_eq!(segs[i].start_ms, segs[i - 1].end_ms, "trou entre seg {} et {}", i - 1, i);
    }
}

#[test]
fn last_segment_shorter() {
    let segs = compute_segments(&all_ms(&[0.0, 4.0, 8.0]), ms(10.3), ms(4.0));
    let last = segs.last().unwrap();
    assert_eq!(last.end_ms, ms(10.3));
    assert!(last.duration_ms < ms(4.0));
}

#[test]
fn max_duration_ceiling() {
    let kf = all_ms(&[0.0, 4.08, 8.0, 12.0]);
    let segs = compute_segments(&kf, ms(12.0), ms(4.0));
    let max = max_segment_duration(&segs);
    for seg in &segs {
        assert!(seg.duration_ms <= ms(max as f64));
    }
}

#[test]
fn binary_search_correctness() {
    let kf = all_ms(&[0.0, 2.0, 4.083, 6.0, 8.16, 10.0]);
    for target in [3.0, 4.0, 5.0, 7.0, 9.0_f64] {
        let bs = nearest_keyframe(&kf, ms(0.0), ms(target));
        assert!(
            kf.iter().any(|&k| k == bs),
            "résultat {bs} n'est pas un keyframe (target={target})"
        );
    }
}

#[test]
fn empty_inputs() {
    assert!(compute_segments(&[], ms(20.0), ms(4.0)).is_empty());
    assert!(compute_segments(&[ms(0.0)], ms(0.0), ms(4.0)).is_empty());
    assert!(compute_segments(&[ms(0.0)], ms(20.0), ms(0.0)).is_empty());
}

#[test]
fn negative_lengths_give_nothing() {
    assert!(compute_segments(&[0], -1, 4000).is_empty());
    assert!(compute_segments(&[0], 20_000, -4000).is_empty());
}

#[test]
fn extinf_format() {
    let seg = Segment {
        index: 0,
        start_ms: ms(0.0),
        end_ms: ms(4.083),
        duration_ms: ms(4.083),
    };
    assert_eq!(seg.extinf(), "4.083");
}

#[test]
fn extinf_pads_and_signs() {
    assert_eq!(lasting(0, 7).extinf(), "0.007");
    assert_eq!(lasting(0, 0).extinf(), "0.000");
    assert_eq!(lasting(0, 12_040).extinf(), "12.040");
    assert_eq!(lasting(0, -5_000).extinf(), "-5.000");
    assert_eq!(lasting(0, i64::MIN).extinf(), "-9223372036854775.808");
}

#[test]
fn extinf_tells_durations_apart() {
    let texts: Vec<String> = (-1500..1500).map(|d| lasting(0, d).extinf()).collect();
    for (i, t) in texts.iter().enumerate() {
        let secs: f64 = t.parse().unwrap();
        assert_eq!(ms(secs), i as i64 - 1500);
    }
}

#[test]
fn nearest_prefers_the_keyframe_before() {
    // One second before and 400 ms past: not closer by far enough.
    assert_eq!(nearest_keyframe(&[0, 3000, 4400], 0, 4000), 3000);
    // 399 ms past: closer by far.
    assert_eq!(nearest_keyframe(&[0, 3000, 4399], 0, 4000), 4399);
    assert_eq!(nearest_keyframe(&[0, 4000, 4001], 0, 4000), 4000);
}

#[test]
fn nearest_takes_what_is_left() {
    assert_eq!(nearest_keyframe(&[0, 9000], 0, 4000), 9000);
    assert_eq!(nearest_keyframe(&[0, 1000], 0, 4000), 1000);
    assert_eq!(nearest_keyframe(&[0], 0, 4000), 4000);
    assert_eq!(nearest_keyframe(&[], 0, 4000), 4000);
    // Keyframes up to `after` do not count.
    assert_eq!(nearest_keyframe(&[0, 3900, 6000], 3900, 4000), 6000);
}

#[test]
fn nearest_is_never_far_behind_the_best() {
    let kf = [0, 2000, 4083, 6000, 8160, 10_000];
    for target in 0..10_000 {
        let off = (nearest_keyframe(&kf, 0, target) - target).abs();
        for k in &kf[1..] {
            assert!(2 * off <= 5 * (k - target).abs());
        }
    }
}

#[test]
fn segments_in_full() {
    let segs = compute_segments(&[0, 2000, 4080, 6000, 8160], 10_300, 4000);
    assert_eq!(
        segs,
        vec![
            Segment { index: 0, start_ms: 0, end_ms: 4080, duration_ms: 4080 },
            Segment { index: 1, start_ms: 4080, end_ms: 8160, duration_ms: 4080 },
            Segment { index: 2, start_ms: 8160, end_ms: 10_300, duration_ms: 2140 },
        ]
    );
}

#[test]
fn video_goes_on_behind_its_last_keyframe() {
    let whole = |end_ms: i64| Segment { index: 0, start_ms: 0, end_ms, duration_ms: end_ms };
    assert_eq!(compute_segments(&[0], 10_000, 4000), vec![whole(10_000)]);
    assert_eq!(compute_segments(&[0], 20_000, 4000), vec![whole(20_000)]);
    let segs = compute_segments(&[0, 3000], 20_000, 4000);
    assert_eq!(
        segs,
        vec![
            whole(3000),
            Segment { index: 1, start_ms: 3000, end_ms: 20_000, duration_ms: 17_000 },
        ]
    );
}

#[test]
fn no_more_segments_than_keyframes() {
    let kf: Vec<i64> = (0..50).map(|i| i * i * 40).collect();
    for duration in [1, 5000, 96_040, 96_041, 200_000] {
        let segs = compute_segments(&kf, duration, 700);
        assert!(segs.len() <= kf.len());
        for s in &segs {
            assert!(kf.contains(&s.start_ms));
            assert!(kf.contains(&s.end_ms) || s.end_ms == duration);
        }
    }
}

#[test]
fn keyframe_behind_the_end() {
    let segs = compute_segments(&[0, 12_000], 10_000, 4000);
    assert_eq!(segs, vec![Segment { index: 0, start_ms: 0, end_ms: 12_000, duration_ms: 12_000 }]);
}

#[test]
fn first_keyframe_behind_the_end() {
    let segs = compute_segments(&[10_000], 5000, 4000);
    assert_eq!(
        segs,
        vec![Segment { index: 0, start_ms: 10_000, end_ms: 5000, duration_ms: -5000 }]
    );
    assert_eq!(max_segment_duration(&segs), 0);
}

#[test]
fn segments_cover_the_video() {
    let kf = [40, 2000, 2000, 5500, 9100, 9700, 16_000, 16_040, 21_000];
    let segs = compute_segments(&kf, 23_456, 4000);
    assert_eq!(segs.iter().map(|s| s.duration_ms).sum::<i64>(), 23_456 - 40);
    for (i, s) in segs.iter().enumerate() {
        assert_eq!(s.index, i);
        assert!(kf.contains(&s.start_ms));
        assert!(s.duration_ms > 0);
    }
}

#[test]
fn longest_duration_is_rounded_up() {
    assert_eq!(max_segment_duration(&[]), 0);
    assert_eq!(max_segment_duration(&[lasting(0, 1)]), 1);
    assert_eq!(max_segment_duration(&[lasting(0, 4000), lasting(1, 3000)]), 4);
    assert_eq!(max_segment_duration(&[lasting(0, 3000), lasting(1, 4001)]), 5);
}

#[test]
fn cuts_depend_on_what_follows() {
    let kf: Vec<i64> = (0..60).map(|i| i * i * 37).collect();
    let segs = compute_segments(&kf, 140_000, 4000);
    assert!(segs.len() > 5);
    for (j, seg) in segs.iter().enumerate() {
        let m = kf.iter().position(|&k| k == seg.start_ms).unwrap();
        let counted: Vec<Segment> =
            segs[j..].iter().map(|s| Segment { index: s.index - j, ..*s }).collect();
        assert_eq!(compute_segments(&kf[m..], 140_000, 4000), counted);
    }
}
