use watermark_service::ffprobe::{
    check_format_probe, check_frame_probe, format_probe_args, frame_probe_args, frame_timestamp,
    keyframe_timestamps, parse_rational, video_format, FormatResult, ProbeError, RawFrame,
    RawStream, VideoMetadata,
};

#[test]
fn test_parse_rational() {
    assert_eq!(parse_rational("25/1"), (25, 1));
    assert_eq!(parse_rational("30000/1001"), (30000, 1001));
    assert_eq!(parse_rational("invalid"), (30, 1));
}

#[test]
fn rational_edge_cases() {
    assert_eq!(parse_rational(""), (30, 1));
    assert_eq!(parse_rational("24"), (24, 1));
    assert_eq!(parse_rational("24/"), (24, 1));
    assert_eq!(parse_rational("/7"), (30, 7));
    assert_eq!(parse_rational("1/2/3"), (1, 1));
    assert_eq!(parse_rational("+5/+6"), (5, 6));
    assert_eq!(parse_rational("+/-1"), (30, 1));
    assert_eq!(parse_rational(" 5/6"), (30, 6));
    assert_eq!(parse_rational("0/0"), (0, 0));
    assert_eq!(parse_rational("4294967295/4294967296"), (u32::MAX, 1));
    assert_eq!(parse_rational("0000000000000025/1"), (25, 1));
    assert_eq!(parse_rational("99999999999999999999999999/3"), (30, 3));
}

#[test]
fn rational_reads_numbers_as_std_does() {
    for s in ["0", "7", "+7", "-7", "4294967295", "4294967296", "1_0", "", "+", "٣", "1 "] {
        assert_eq!(parse_rational(s).0, s.parse::<u32>().unwrap_or(30), "{s}");
    }
}

#[test]
fn format_of_a_video() {
    let streams = [
        RawStream {
            codec_type: "audio".into(),
            codec_name: Some("aac".into()),
            r_frame_rate: Some("0/0".into()),
            width: None,
            height: None,
        },
        RawStream {
            codec_type: "video".into(),
            codec_name: Some("h264".into()),
            r_frame_rate: Some("25/1".into()),
            width: Some(640),
            height: None,
        },
    ];
    let f = video_format(1_500_000, &streams).unwrap();
    assert_eq!((f.duration_us, f.width, f.height), (1_500_000, 640, 0));
    assert_eq!((f.video_codec.as_str(), f.fps_num, f.fps_den), ("h264", 25, 1));
    let e = video_format(1, &streams[..1]).unwrap_err();
    assert_eq!(e.message(), "aucun stream vidéo trouvé");
}

#[test]
fn frame_timestamps_fall_back() {
    let frame = |a: Option<&str>, b: Option<&str>| RawFrame {
        pkt_pts_time: a.map(String::from),
        best_effort_timestamp_time: b.map(String::from),
    };
    assert_eq!(frame_timestamp(&frame(Some("1"), Some("2"))).as_deref(), Some("1"));
    assert_eq!(frame_timestamp(&frame(None, Some("2"))).as_deref(), Some("2"));
    assert_eq!(frame_timestamp(&frame(None, None)), None);
}

#[test]
fn frames_are_sorted_and_begin_at_zero() {
    assert_eq!(keyframe_timestamps(vec![2_000_000, 99_999]).unwrap(), vec![0, 2_000_000]);
    assert_eq!(keyframe_timestamps(vec![2_000_000, -99_999]).unwrap(), vec![0, 2_000_000]);
    assert_eq!(keyframe_timestamps(vec![2_000_000, 100_000]).unwrap(), vec![100_000, 2_000_000]);
    assert_eq!(keyframe_timestamps(vec![5, -100_000]).unwrap(), vec![-100_000, 5]);
    assert_eq!(keyframe_timestamps(vec![-2, -1]).unwrap(), vec![0, -1]);
}

#[test]
fn no_frames() {
    let e = keyframe_timestamps(vec![]).unwrap_err();
    assert!(matches!(e, ProbeError::NoKeyframe));
    assert_eq!(
        e.message(),
        "aucun keyframe trouvé — le fichier est peut-être corrompu ou non-faststart"
    );
}

#[test]
fn failed_file_probes() {
    assert!(check_format_probe(true, String::new()).is_ok());
    assert!(check_frame_probe(true, String::new()).is_ok());
    let e = check_format_probe(false, "boom".into()).unwrap_err();
    assert_eq!(e.message(), "ffprobe format a échoué : boom");
    let e = check_frame_probe(false, "boom".into()).unwrap_err();
    assert_eq!(e.message(), "ffprobe keyframes a échoué : boom");
}

#[test]
fn probe_command_lines() {
    assert_eq!(
        format_probe_args("http://u").join(" "),
        "-v quiet -print_format json -show_format -show_streams http://u"
    );
    assert_eq!(
        frame_probe_args("http://u").join(" "),
        "-v quiet -print_format json -skip_frame nokey -show_frames -select_streams v:0 http://u"
    );
}

#[test]
fn metadata_of_a_video() {
    let format = FormatResult {
        duration_us: 120_000_000,
        width: 1920,
        height: 1080,
        video_codec: "h264".into(),
        fps_num: 30000,
        fps_den: 1001,
    };
    let meta = VideoMetadata::assemble(format, vec![0, 2_000_000, 4_000_000]);
    assert_eq!(meta.keyframe_count(), 3);
    assert_eq!((meta.duration_us, meta.width, meta.height), (120_000_000, 1920, 1080));
    assert_eq!((meta.video_codec.as_str(), meta.fps_num, meta.fps_den), ("h264", 30000, 1001));
}

#[test]
fn test_fps() {
    let meta = VideoMetadata {
        duration_us: 120_000_000,
        width: 1920,
        height: 1080,
        video_codec: "h264".into(),
        fps_num: 30000,
        fps_den: 1001,
        keyframe_timestamps: vec![0, 2_000_000, 4_000_000],
    };
    assert!((meta.fps_num as f64 / meta.fps_den as f64 - 29.97).abs() < 0.01);
}
