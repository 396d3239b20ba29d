use std::collections::hash_map::DefaultHasher;
use std::hash::{Hash, Hasher};
use watermark_service::segmentation::Segment;
use watermark_service::session::{
    format_session_id, health_report, known_keyframes, known_session, known_video,
    make_session_id, max_concurrent_ffmpeg, parse_segment_index, plan_session, playlist_headers,
    segment_base_for, segment_headers, select_segment, session_entries, session_key,
    session_playlist, session_source, AppError, CreateSessionRequest,
};
use watermark_service::video_metadata::{keyframes_key, meta_key, Keyframes, VideoMeta};

fn request() -> CreateSessionRequest {
    CreateSessionRequest {
        video_key: "gims.mp4".into(),
        viewer_id: "viewer".into(),
        firstname: "Ada".into(),
        lastname: "Lovelace".into(),
        presign_url: "https://r2/gims.mp4".into(),
    }
}

fn meta(duration_ms: u32) -> VideoMeta {
    VideoMeta {
        duration_ms,
        width: 1920,
        height: 1080,
        codec: "h264".into(),
        fps_num: 25,
        fps_den: 1,
    }
}

fn entries(fields: &[(&str, &str)]) -> Vec<(String, String)> {
    fields.iter().map(|(n, v)| (n.to_string(), v.to_string())).collect()
}

fn refused(e: AppError) -> (u16, String) {
    (e.status, e.message)
}

fn not_found(message: &str) -> (u16, String) {
    (404, message.to_string())
}

#[test]
fn session_id_is_the_hash_in_hexadecimal() {
    let mut h = DefaultHasher::new();
    "viewer".hash(&mut h);
    "gims.mp4".hash(&mut h);
    let id = make_session_id("viewer", "gims.mp4");
    assert_eq!(id, format!("{:016x}", h.finish()));
    assert_eq!(id, make_session_id("viewer", "gims.mp4"));
    assert_ne!(id, make_session_id("gims.mp4", "viewer"));
    assert_ne!(make_session_id("ab", "c"), make_session_id("a", "bc"));
}

#[test]
fn session_id_digits() {
    assert_eq!(format_session_id(0), "0000000000000000");
    assert_eq!(format_session_id(0x0123_4567_89ab_cdef), "0123456789abcdef");
    assert_eq!(format_session_id(u64::MAX), "ffffffffffffffff");
}

#[test]
fn session_plan() {
    let kf = Keyframes { timestamps_ms: vec![0, 4000, 8000] };
    let plan = plan_session(&request(), &meta(10_300), &kf);
    assert_eq!(plan.session_id, make_session_id("viewer", "gims.mp4"));
    assert_eq!(plan.session_key, format!("session:{}", plan.session_id));
    assert_eq!(plan.ttl_secs, 3610);
    assert_eq!(
        plan.segments,
        vec![
            Segment { index: 0, start_ms: 0, end_ms: 4000, duration_ms: 4000 },
            Segment { index: 1, start_ms: 4000, end_ms: 8000, duration_ms: 4000 },
            Segment { index: 2, start_ms: 8000, end_ms: 10_300, duration_ms: 2300 },
        ]
    );
}

#[test]
fn session_plan_without_segments() {
    let none = Keyframes { timestamps_ms: vec![] };
    assert!(plan_session(&request(), &meta(10_300), &none).segments.is_empty());
    let some = Keyframes { timestamps_ms: vec![0] };
    let plan = plan_session(&request(), &meta(0), &some);
    assert!(plan.segments.is_empty());
    assert_eq!(plan.ttl_secs, 3600);
}

#[test]
fn unknown_video() {
    assert_eq!(known_video(Some(meta(1))).unwrap().duration_ms, 1);
    assert_eq!(
        refused(known_video(None).unwrap_err()),
        not_found("vidéo non trouvée — lance d'abord POST /metadata")
    );
    let kf = Keyframes { timestamps_ms: vec![0, 7] };
    assert_eq!(known_keyframes(Some(kf)).unwrap().timestamps_ms, vec![0, 7]);
    assert_eq!(refused(known_keyframes(None).unwrap_err()), not_found("keyframes manquants"));
}

#[test]
fn session_reads_back() {
    let kept = session_entries(&request(), "[]");
    assert_eq!(
        kept,
        entries(&[
            ("video_key", "gims.mp4"),
            ("viewer_id", "viewer"),
            ("firstname", "Ada"),
            ("lastname", "Lovelace"),
            ("presign_url", "https://r2/gims.mp4"),
            ("segments", "[]"),
        ])
    );
    let source = session_source(Some(kept)).unwrap();
    assert_eq!(source.firstname, "Ada");
    assert_eq!(source.lastname, "Lovelace");
    assert_eq!(source.presign_url, "https://r2/gims.mp4");
    assert_eq!(source.segments_json, "[]");
}

#[test]
fn session_refusals() {
    let refusal = |found: Option<&[(&str, &str)]>| {
        refused(session_source(found.map(entries)).unwrap_err())
    };
    let all = [("firstname", "a"), ("lastname", "b"), ("presign_url", "c"), ("segments", "d")];
    assert_eq!(refusal(None), not_found("session inconnue ou expirée"));
    assert_eq!(refusal(Some(&[])), not_found("session introuvable"));
    assert_eq!(refusal(Some(&[("x", "y")])), not_found("firstname manquant"));
    assert_eq!(refusal(Some(&all[1..])), not_found("firstname manquant"));
    assert_eq!(refusal(Some(&all[..1])), not_found("lastname manquant"));
    assert_eq!(refusal(Some(&all[..2])), not_found("presign_url manquante"));
    assert_eq!(refusal(Some(&all[..3])), not_found("segments manquants"));
    assert!(session_source(Some(entries(&all))).is_ok());
}

#[test]
fn unknown_session() {
    assert_eq!(known_session(Some("[]".into())).unwrap(), "[]");
    assert_eq!(refused(known_session(None).unwrap_err()), not_found("session inconnue ou expirée"));
}

#[test]
fn segment_index() {
    assert_eq!(parse_segment_index("12").unwrap(), 12);
    assert_eq!(parse_segment_index("12.ts").unwrap(), 12);
    assert_eq!(parse_segment_index("+7.ts").unwrap(), 7);
    assert_eq!(parse_segment_index("1.ts2.ts").unwrap(), 12);
    assert_eq!(parse_segment_index("18446744073709551615").unwrap(), usize::MAX);
    for bad in ["", ".ts", "a", "-1", "1.t", "1.tss", "1.TS", "18446744073709551616", "1.5"] {
        assert_eq!(refused(parse_segment_index(bad).unwrap_err()), not_found("Index invalide"));
    }
}

#[test]
fn segment_index_reads_as_std_does() {
    for s in ["..tsts", ".t.ts3", "3.ts.ts", "3.t.tss", "...ts3", "0.ts", "٣.ts"] {
        assert_eq!(parse_segment_index(s).ok(), s.replace(".ts", "").parse::<usize>().ok(), "{s}");
    }
}

#[test]
fn segment_lookup() {
    let segs = [
        Segment { index: 0, start_ms: 0, end_ms: 4000, duration_ms: 4000 },
        Segment { index: 1, start_ms: 4000, end_ms: 8000, duration_ms: 4000 },
    ];
    assert_eq!(select_segment(&segs, 1).unwrap(), segs[1]);
    assert_eq!(refused(select_segment(&segs, 2).unwrap_err()), not_found("segment 2 inexistant"));
    assert_eq!(refused(select_segment(&[], 0).unwrap_err()), not_found("segment 0 inexistant"));
}

#[test]
fn addresses_lead_to_their_segments() {
    let kf = Keyframes { timestamps_ms: (0..200).map(|i| i * 2000).collect() };
    let plan = plan_session(&request(), &meta(400_000), &kf);
    let playlist = session_playlist(&plan.session_id, &plan.segments, None);
    let mut seen = 0;
    for address in playlist.lines().filter(|l| l.starts_with("/segment/")) {
        let index = parse_segment_index(address.rsplit('/').next().unwrap()).unwrap();
        assert_eq!(select_segment(&plan.segments, index).unwrap(), plan.segments[seen]);
        seen += 1;
    }
    assert_eq!(seen, plan.segments.len());
}

#[test]
fn playlist_addresses() {
    assert_eq!(segment_base_for(None), "/segment");
    assert_eq!(segment_base_for(Some("https://cdn")), "https://cdn/segment");
    assert_eq!(segment_base_for(Some("https://cdn//")), "https://cdn/segment");
    assert_eq!(segment_base_for(Some("")), "/segment");
    assert_eq!(segment_base_for(Some("//")), "/segment");
    let segs = [Segment { index: 3, start_ms: 0, end_ms: 1, duration_ms: 1 }];
    assert!(session_playlist("id", &segs, Some("http://h/")).contains("\nhttp://h/segment/id/3\n"));
    assert!(session_playlist("id", &segs, None).contains("\n/segment/id/3\n"));
}

#[test]
fn keys_are_kept_apart() {
    let names = ["", "a", "a:meta", "a:keyframes", "session:a"];
    let mut keys: Vec<String> = Vec::new();
    for name in names {
        keys.push(session_key(name));
        keys.push(meta_key(name));
        keys.push(keyframes_key(name));
    }
    keys.sort();
    keys.dedup();
    assert_eq!(keys.len(), 3 * names.len());
}

#[test]
fn keys_and_headers() {
    assert_eq!(session_key("abc"), "session:abc");
    assert_eq!(
        playlist_headers(),
        entries(&[
            ("content-type", "application/vnd.apple.mpegurl"),
            ("cache-control", "private, no-cache"),
            ("access-control-allow-origin", "*"),
            ("access-control-allow-methods", "GET, OPTIONS"),
        ])
    );
    assert_eq!(
        segment_headers(),
        entries(&[
            ("content-type", "video/mp2t"),
            ("cache-control", "public, max-age=86400, immutable"),
            ("access-control-allow-origin", "*"),
            ("access-control-allow-methods", "GET, OPTIONS"),
        ])
    );
}

#[test]
fn health() {
    assert_eq!(
        health_report(Some("PONG"), 3),
        (200, "ok — ffmpeg slots disponibles: 3".to_string())
    );
    assert_eq!(health_report(Some("pong"), 3), (503, "redis unreachable".to_string()));
    assert_eq!(health_report(None, 3), (503, "redis unreachable".to_string()));
}

#[test]
fn concurrency() {
    assert_eq!(max_concurrent_ffmpeg(None), 4);
    assert_eq!(max_concurrent_ffmpeg(Some("12")), 12);
    assert_eq!(max_concurrent_ffmpeg(Some("0")), 0);
    assert_eq!(max_concurrent_ffmpeg(Some("many")), 4);
    assert_eq!(max_concurrent_ffmpeg(Some("-1")), 4);
}

#[test]
fn errors() {
    assert_eq!(refused(AppError::not_found("x")), not_found("x"));
    assert_eq!(refused(AppError::internal("y".into())), (500, "y".to_string()));
}
