use watermark_service::ffprobe::RawStream;
use watermark_service::video_metadata::{
    check_keyframe_probe, check_meta_probe, check_timestamps_fit, decode_keyframes,
    encode_keyframes, find_clipped_deltas, kept_keyframes, keyframe_probe_args, keyframe_pts,
    keyframes_from_probe, keyframes_key, meta_key, video_meta, DecodeError, Keyframes,
    MetadataError, TTL,
};

fn ms(secs: f64) -> u32 {
    (secs * 1000.0).round() as u32
}

fn stream(codec_type: &str) -> RawStream {
    RawStream {
        codec_type: codec_type.to_string(),
        codec_name: None,
        r_frame_rate: None,
        width: None,
        height: None,
    }
}

#[test]
fn encode_decode_roundtrip() {
    let original = vec![0.0, 4.0, 8.0, 12.083, 16.0, 20.0];
    let original_ms: Vec<u32> = original.iter().map(|&s| ms(s)).collect();
    let encoded = encode_keyframes(&original_ms);
    assert_eq!(encoded.len(), 4 + 6 * 2);

    let decoded = decode_keyframes(&encoded).unwrap();
    assert_eq!(decoded.len(), original.len());
    for (orig, dec) in original.iter().zip(decoded.timestamps_ms.iter()) {
        let dec = *dec as f64 / 1000.0;
        assert!((orig - dec).abs() < 0.001, "{orig} vs {dec}");
    }
}

#[test]
fn size_estimate_100k_videos() {
    let bytes_per = 4 + 900 * 2;
    assert_eq!(encode_keyframes(&[0; 900]).len(), bytes_per);
    let total_gb = (bytes_per * 100_000) as f64 / 1e9;
    assert!(total_gb < 0.2, "trop volumineux : {total_gb:.2} GB");
}

#[test]
fn encode_first_keyframe_zero() {
    let bytes = encode_keyframes(&[ms(0.0), ms(2.0), ms(4.0)]);
    let first_delta = u16::from_le_bytes(bytes[4..6].try_into().unwrap());
    assert_eq!(first_delta, 0);
}

#[test]
fn decode_corrupted_returns_err() {
    assert!(decode_keyframes(&[]).is_err());
    assert!(decode_keyframes(&[5, 0, 0, 0]).is_err());
}

#[test]
fn binary_form() {
    assert_eq!(
        encode_keyframes(&[0, 258, 258, 1000]),
        vec![4, 0, 0, 0, 0, 0, 2, 1, 0, 0, 0xe6, 2]
    );
    assert_eq!(encode_keyframes(&[]), vec![0, 0, 0, 0]);
    // 0x0203 keyframes.
    assert_eq!(encode_keyframes(&[0; 515])[..4], [3, 2, 0, 0]);
}

#[test]
fn two_hours_take_seven_kilobytes() {
    let kf: Vec<u32> = (0..3600).map(|i| i * 2000).collect();
    let bytes = encode_keyframes(&kf);
    assert_eq!(bytes.len(), 7204);
    assert_eq!(decode_keyframes(&bytes).unwrap().timestamps_ms, kf);
}

#[test]
fn distances_are_clipped() {
    let decode = |ts: &[u32]| decode_keyframes(&encode_keyframes(ts)).unwrap().timestamps_ms;
    assert_eq!(decode(&[0, 65_535]), vec![0, 65_535]);
    assert_eq!(decode(&[0, 65_536]), vec![0, 65_535]);
    assert_eq!(decode(&[100_000, 101_000]), vec![65_535, 66_535]);
    // A step back counts as none.
    assert_eq!(decode(&[500, 400, 600]), vec![500, 500, 700]);
}

#[test]
fn bytes_behind_the_last_keyframe() {
    let bytes = [1, 0, 0, 0, 7, 1, 99, 98, 97];
    let k = decode_keyframes(&bytes).unwrap();
    assert_eq!(k.timestamps_ms, vec![263]);
    assert_eq!(encode_keyframes(&k.timestamps_ms), bytes[..6].to_vec());
}

#[test]
fn decode_errors() {
    assert_eq!(decode_keyframes(&[1, 0, 0]).unwrap_err(), DecodeError::TooShort);
    assert_eq!(
        decode_keyframes(&[5, 0, 0, 0]).unwrap_err(),
        DecodeError::Corrupt { expected: 14, got: 4 }
    );
    assert_eq!(
        decode_keyframes(&[255, 255, 255, 255]).unwrap_err(),
        DecodeError::Corrupt { expected: 8_589_934_594, got: 4 }
    );
    assert_eq!(DecodeError::TooShort.message(), "buffer keyframes trop court");
    assert_eq!(
        DecodeError::Corrupt { expected: 14, got: 4 }.message(),
        "buffer keyframes corrompu : attendu 14 bytes, got 4"
    );
}

#[test]
fn timestamps_past_32_bits() {
    let full = |n: u32| {
        let mut bytes = n.to_le_bytes().to_vec();
        bytes.resize(4 + 2 * n as usize, 255);
        bytes
    };
    assert!(check_timestamps_fit(&full(65_537)));
    assert!(!check_timestamps_fit(&full(65_538)));
    assert!(check_timestamps_fit(&[]));
    assert!(check_timestamps_fit(&[5, 0, 0, 0]));
    assert_eq!(*decode_keyframes(&full(65_537)).unwrap().timestamps_ms.last().unwrap(), u32::MAX);
}

#[test]
fn keyframe_numbers() {
    let none = Keyframes { timestamps_ms: vec![] };
    assert_eq!(none.len(), 0);
    assert!(none.is_empty());
    let two = Keyframes { timestamps_ms: vec![0, 1] };
    assert_eq!(two.len(), 2);
    assert!(!two.is_empty());
}

#[test]
fn keyframe_lines() {
    assert_eq!(keyframe_pts("4.000000,K_").as_deref(), Some("4.000000"));
    assert_eq!(keyframe_pts("N/A,K__").as_deref(), Some("N/A"));
    assert_eq!(keyframe_pts(",K").as_deref(), Some(""));
    assert_eq!(keyframe_pts("4.04,__"), None);
    assert_eq!(keyframe_pts("4.04,_K"), None);
    assert_eq!(keyframe_pts("4.04,"), None);
    assert_eq!(keyframe_pts("4.04"), None);
    assert_eq!(keyframe_pts(""), None);
    assert_eq!(keyframe_pts("1,2,K"), None);
    assert_eq!(keyframe_pts("1,K,2").as_deref(), Some("1"));
}

#[test]
fn probed_keyframes_are_sorted_and_begin_at_zero() {
    let k = keyframes_from_probe(vec![4000, 80, 2000, 2000]).unwrap();
    assert_eq!(k.timestamps_ms, vec![0, 2000, 2000, 4000]);
    let k = keyframes_from_probe(vec![4000, 100]).unwrap();
    assert_eq!(k.timestamps_ms, vec![100, 4000]);
    let k = keyframes_from_probe(vec![99, 50]).unwrap();
    assert_eq!(k.timestamps_ms, vec![0, 99]);
}

#[test]
fn probe_without_keyframes() {
    let e = keyframes_from_probe(vec![]).unwrap_err();
    assert_eq!(e.message(), "aucun keyframe trouvé");
}

#[test]
fn first_video_stream_counts() {
    let mut video = stream("video");
    video.codec_name = Some("h264".into());
    video.r_frame_rate = Some("30000/1001".into());
    video.width = Some(1920);
    video.height = Some(1080);
    let m = video_meta(120_000, &[stream("audio"), video, stream("video")]).unwrap();
    assert_eq!((m.duration_ms, m.width, m.height), (120_000, 1920, 1080));
    assert_eq!(m.codec, "h264");
    assert_eq!((m.fps_num, m.fps_den), (30000, 1001));
}

#[test]
fn stream_defaults() {
    let m = video_meta(1, &[stream("video")]).unwrap();
    assert_eq!((m.width, m.height, m.fps_num, m.fps_den), (0, 0, 30, 1));
    assert_eq!(m.codec, "unknown");
}

#[test]
fn no_video_stream() {
    let e = video_meta(1, &[stream("audio")]).unwrap_err();
    assert_eq!(e.message(), "aucun stream vidéo");
    assert!(matches!(video_meta(1, &[]), Err(MetadataError::NoVideoStream)));
}

#[test]
fn failed_probes() {
    assert!(check_meta_probe(true, "x".into()).is_ok());
    let e = check_meta_probe(false, "x".into()).unwrap_err();
    assert_eq!(e.message(), "ffprobe meta : x");
    assert!(check_keyframe_probe(true, Some(0)).is_ok());
    let e = check_keyframe_probe(false, Some(1)).unwrap_err();
    assert_eq!(e.message(), "ffprobe keyframes a échoué (code Some(1))");
    let e = check_keyframe_probe(false, Some(-9)).unwrap_err();
    assert_eq!(e.message(), "ffprobe keyframes a échoué (code Some(-9))");
    let e = check_keyframe_probe(false, None).unwrap_err();
    assert_eq!(e.message(), "ffprobe keyframes a échoué (code None)");
}

#[test]
fn keys_and_ttl() {
    assert_eq!(meta_key("gims.mp4"), "video:gims.mp4:meta");
    assert_eq!(keyframes_key("gims.mp4"), "video:gims.mp4:keyframes");
    assert_eq!(TTL, 31_536_000);
}

#[test]
fn keyframe_probe_command_line() {
    assert_eq!(
        keyframe_probe_args().join(" "),
        "-v quiet -select_streams v:0 -show_packets -show_entries packet=pts_time,flags \
         -of csv=p=0 -"
    );
}

#[test]
fn distances_that_are_clipped() {
    assert!(find_clipped_deltas(&[]).is_empty());
    assert!(find_clipped_deltas(&[0, 65_535, 131_070]).is_empty());
    assert!(find_clipped_deltas(&[5, 5, 3]).is_empty());
    assert_eq!(
        find_clipped_deltas(&[65_536, 65_540, 5, 70_005, 70_006]),
        vec![65_536, 70_000]
    );
}

#[test]
fn unclipped_keyframes_read_back() {
    for kf in [vec![0, 65_535, 65_535], vec![0, 65_536, 65_537], vec![70_000]] {
        let back = decode_keyframes(&encode_keyframes(&kf)).unwrap().timestamps_ms;
        assert_eq!(back == kf, find_clipped_deltas(&kf).is_empty());
    }
}

#[test]
fn kept_keyframes_are_found() {
    let mut store = std::collections::HashMap::new();
    store.insert(keyframes_key("a"), encode_keyframes(&[0, 4000, 8000]));
    store.insert(keyframes_key("b"), encode_keyframes(&[0, 2000]));
    store.insert(meta_key("a"), b"{}".to_vec());
    store.insert(keyframes_key("c"), vec![5, 0, 0, 0]);
    store.insert(keyframes_key("d"), vec![]);
    let read = |video: &str| kept_keyframes(store.get(&keyframes_key(video)).cloned());
    assert_eq!(read("a").unwrap().unwrap().timestamps_ms, vec![0, 4000, 8000]);
    assert_eq!(read("b").unwrap().unwrap().timestamps_ms, vec![0, 2000]);
    assert_eq!(read("c").unwrap_err(), DecodeError::Corrupt { expected: 14, got: 4 });
    assert_eq!(read("d").unwrap_err(), DecodeError::TooShort);
    assert!(read("e").unwrap().is_none());
}
