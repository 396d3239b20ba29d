use watermark_service::segment::{check_render, escape_drawtext, ffmpeg_args, watermark_filter};

#[test]
fn escape_special_chars() {
    assert_eq!(escape_drawtext("Jean-Pierre"), "Jean-Pierre");
    assert_eq!(escape_drawtext("O'Brien"), "O\\'Brien");
    assert_eq!(escape_drawtext("test:value"), "test\\:value");
    assert_eq!(escape_drawtext("back\\slash"), "back\\\\slash");
}

#[test]
fn escaped_text_reads_back() {
    for s in ["", "é'è:\\", "\\'", "::", "名前"] {
        let escaped = escape_drawtext(s);
        let mut read = String::new();
        let mut chars = escaped.chars();
        while let Some(c) = chars.next() {
            read.push(if c == '\\' { chars.next().unwrap() } else { c });
        }
        assert_eq!(read, s);
    }
}

#[test]
fn watermark_of_a_viewer() {
    assert_eq!(
        watermark_filter("Ada", "O'Brien"),
        "drawtext=text='Ada O\\'Brien':fontsize=28:fontcolor=white@0.6:x=24:y=24:\
         shadowcolor=black@0.5:shadowx=2:shadowy=2"
    );
}

#[test]
fn render_command_line() {
    let args = ffmpeg_args("http://u?a=b c", 4083, 3917, "Ada", "L");
    let expected = [
        "-loglevel",
        "error",
        "-ss",
        "4.083000",
        "-i",
        "http://u?a=b c",
        "-t",
        "3.917000",
        "-vf",
        "drawtext=text='Ada L':fontsize=28:fontcolor=white@0.6:x=24:y=24:\
         shadowcolor=black@0.5:shadowx=2:shadowy=2",
        "-c:v",
        "libx264",
        "-preset",
        "ultrafast",
        "-crf",
        "28",
        "-force_key_frames",
        "expr:eq(n,0)",
        "-c:a",
        "copy",
        "-output_ts_offset",
        "4.083000",
        "-f",
        "mpegts",
        "pipe:1",
    ];
    assert_eq!(args, expected);
}

#[test]
fn failed_render() {
    assert_eq!(check_render(true, Some(0)), Ok(()));
    assert_eq!(
        check_render(false, Some(187)),
        Err("ffmpeg a échoué (code Some(187))".to_string())
    );
    assert_eq!(check_render(false, None), Err("ffmpeg a échoué (code None)".to_string()));
}
