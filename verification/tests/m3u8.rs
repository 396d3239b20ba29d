use watermark_service::m3u8::{push_kv, M3u8Builder, CONTENT_TYPE};
use watermark_service::segmentation::Segment;

fn make_segments(durations: &[f64]) -> Vec<Segment> {
    let mut start_ms: i64 = 0;
    durations
        .iter()
        .enumerate()
        .map(|(index, &d)| {
            let duration_ms = (d * 1000.0).round() as i64;
            let seg = Segment { index, start_ms, end_ms: start_ms + duration_ms, duration_ms };
            start_ms += duration_ms;
            seg
        })
        .collect()
}

#[test]
fn valid_m3u8_structure() {
    let segs = make_segments(&[4.0, 4.083, 4.0, 3.917]);
    let m3u8 = M3u8Builder::new("abc123", &segs).build();

    assert!(m3u8.starts_with("#EXTM3U\n"));
    assert!(m3u8.contains("#EXT-X-VERSION:3\n"));
    assert!(m3u8.contains("#EXT-X-TARGETDURATION:5\n"));
    assert!(m3u8.contains("#EXT-X-MEDIA-SEQUENCE:0\n"));
    assert!(m3u8.ends_with("#EXT-X-ENDLIST\n"));
}

#[test]
fn segment_urls_correct() {
    let segs = make_segments(&[4.0, 4.0, 4.0]);
    let m3u8 = M3u8Builder::new("sess_xyz", &segs).build();

    assert!(m3u8.contains("/segment/sess_xyz/0\n"));
    assert!(m3u8.contains("/segment/sess_xyz/1\n"));
    assert!(m3u8.contains("/segment/sess_xyz/2\n"));
}

#[test]
fn custom_base_url() {
    let segs = make_segments(&[4.0]);
    let m3u8 = M3u8Builder::new("sess", &segs)
        .segment_base("https://cdn.example.com/segment")
        .build();
    assert!(m3u8.contains("https://cdn.example.com/segment/sess/0\n"));
}

#[test]
fn extinf_precision() {
    let segs = make_segments(&[4.083, 3.917]);
    let m3u8 = M3u8Builder::new("s", &segs).build();
    assert!(m3u8.contains("#EXTINF:4.083,\n"));
    assert!(m3u8.contains("#EXTINF:3.917,\n"));
}

#[test]
fn target_duration_is_ceiling() {
    let segs = make_segments(&[4.0, 4.001, 3.999]);
    let m3u8 = M3u8Builder::new("s", &segs).build();
    assert!(m3u8.contains("#EXT-X-TARGETDURATION:5\n"));
}

#[test]
fn segment_count() {
    let segs = make_segments(&[4.0; 100]);
    let m3u8 = M3u8Builder::new("s", &segs).build();
    let extinf_count = m3u8.matches("#EXTINF:").count();
    assert_eq!(extinf_count, 100);
}

#[test]
fn capacity_no_realloc() {
    let segs = make_segments(&[4.0; 500]);
    let m3u8 = M3u8Builder::new("abcdef1234567890", &segs).build();
    assert!(m3u8.len() > 0);
}

#[test]
fn playlist_in_full() {
    let segs = make_segments(&[4.08, 2.22]);
    assert_eq!(
        M3u8Builder::new("id", &segs).build(),
        "#EXTM3U\n#EXT-X-VERSION:3\n#EXT-X-TARGETDURATION:5\n#EXT-X-MEDIA-SEQUENCE:0\n\n\
         #EXTINF:4.080,\n/segment/id/0\n#EXTINF:2.220,\n/segment/id/1\n#EXT-X-ENDLIST\n"
    );
}

#[test]
fn playlist_without_segments() {
    assert_eq!(
        M3u8Builder::new("id", &[]).build(),
        "#EXTM3U\n#EXT-X-VERSION:3\n#EXT-X-TARGETDURATION:0\n#EXT-X-MEDIA-SEQUENCE:0\n\n\
         #EXT-X-ENDLIST\n"
    );
}

#[test]
fn playlist_lines_and_tags() {
    let segs = make_segments(&[4.0; 12]);
    let m3u8 = M3u8Builder::new("é", &segs).segment_base("https://cdn").build();
    assert_eq!(m3u8.matches('\n').count(), 6 + 2 * 12);
    assert_eq!(m3u8.matches('#').count(), 5 + 12);
    assert!(m3u8.contains("#EXTINF:4.000,\nhttps://cdn/é/11\n"));
}

#[test]
fn tag_with_value() {
    let mut s = String::from("x");
    push_kv(&mut s, "#KEY:", "val");
    assert_eq!(s, "x#KEY:val\n");
}

#[test]
fn media_type() {
    assert_eq!(CONTENT_TYPE, "application/vnd.apple.mpegurl");
}

#[test]
fn addresses_differ() {
    let segs = make_segments(&[4.0; 120]);
    let mut addresses: Vec<String> = Vec::new();
    for session in ["a", "a/1", "b"] {
        let m3u8 = M3u8Builder::new(session, &segs).build();
        addresses.extend(m3u8.lines().filter(|l| l.starts_with("/segment")).map(String::from));
    }
    let n = addresses.len();
    addresses.sort();
    addresses.dedup();
    assert_eq!((n, addresses.len()), (360, 360));
}

#[test]
fn memory_is_held_ready() {
    assert!(M3u8Builder::new("s", &[]).build().capacity() >= 120);
}

#[test]
fn memory_that_is_held_ready_is_enough() {
    let long = Segment {
        index: 999_999_999,
        start_ms: 0,
        end_ms: 999_999_999_999,
        duration_ms: 999_999_999_999,
    };
    for n in [0, 1, 500] {
        let segs = vec![long; n];
        let m3u8 = M3u8Builder::new("abcdef1234567890", &segs).build();
        assert!(m3u8.len() <= 120 + 65 * n);
        assert!(m3u8.capacity() >= 120 + 65 * n);
    }
}
