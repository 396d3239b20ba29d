//! Reads what `ffprobe` reports of a whole file: the format of a video, and the
//! timestamps of its frames in microseconds.

use crate::text::{
    after_first, before_first, chars_of, contents, decimal, find, find_char, is_digit,
    law_cut_at_first, law_decimal_reads_back, lemma_decimal_digits, lemma_find, parse_unsigned,
    unsigned_value,
};
use vstd::prelude::*;
use vstd::slice::slice_subrange;

verus! {

/// A stream of a file, as far as `ffprobe` reports it.
#[derive(Debug, Clone)]
pub struct RawStream {
    pub codec_type: String,
    pub codec_name: Option<String>,
    /// A fraction such as `25/1` or `30000/1001`.
    pub r_frame_rate: Option<String>,
    pub width: Option<u32>,
    pub height: Option<u32>,
}

/// A frame, as far as `ffprobe` reports it.
#[derive(Debug, Clone)]
pub struct RawFrame {
    pub pkt_pts_time: Option<String>,
    /// What some encoders leave instead.
    pub best_effort_timestamp_time: Option<String>,
}

/// What goes wrong in a probe.
#[derive(Debug, Clone)]
pub enum ProbeError {
    /// The format probe failed, with what it wrote.
    FormatFailed(String),
    /// The frame probe failed, with what it wrote.
    FramesFailed(String),
    /// The file holds no video stream.
    NoVideoStream,
    /// No frame carries a timestamp.
    NoKeyframe,
}

impl ProbeError {
    /// The text that tells a reader what went wrong.
    pub open spec fn text(self) -> Seq<char> {
        match self {
            ProbeError::FormatFailed(stderr) => "ffprobe format a échoué : "@ + stderr@,
            ProbeError::FramesFailed(stderr) => "ffprobe keyframes a échoué : "@ + stderr@,
            ProbeError::NoVideoStream => "aucun stream vidéo trouvé"@,
            ProbeError::NoKeyframe =>
                "aucun keyframe trouvé — le fichier est peut-être corrompu ou non-faststart"@,
        }
    }

    /// The text that tells a reader what went wrong.
    pub fn message(&self) -> (s: String)
        ensures
            s@ == self.text(),
    {
        match self {
            ProbeError::FormatFailed(stderr) => {
                let mut s = "ffprobe format a échoué : ".to_owned();
                s.append(stderr.as_str());
                s
            },
            ProbeError::FramesFailed(stderr) => {
                let mut s = "ffprobe keyframes a échoué : ".to_owned();
                s.append(stderr.as_str());
                s
            },
            ProbeError::NoVideoStream => "aucun stream vidéo trouvé".to_owned(),
            ProbeError::NoKeyframe =>
                "aucun keyframe trouvé — le fichier est peut-être corrompu ou non-faststart".to_owned(),
        }
    }
}

/// An error tells what the probe wrote.
pub proof fn law_probe_error_tells_the_cause(stderr: String)
    ensures
        ({
            let failed = ProbeError::FormatFailed(stderr).text();
            let from = "ffprobe format a échoué : "@.len() as int;
            &&& failed.len() >= from
            &&& failed.take(from) == "ffprobe format a échoué : "@
            &&& failed.skip(from) == stderr@
        }),
        ({
            let failed = ProbeError::FramesFailed(stderr).text();
            let from = "ffprobe keyframes a échoué : "@.len() as int;
            &&& failed.len() >= from
            &&& failed.take(from) == "ffprobe keyframes a échoué : "@
            &&& failed.skip(from) == stderr@
        }),
{
    let format = ProbeError::FormatFailed(stderr).text();
    let from = "ffprobe format a échoué : "@.len() as int;
    assert(format.take(from) =~= "ffprobe format a échoué : "@);
    assert(format.skip(from) =~= stderr@);
    let frames = ProbeError::FramesFailed(stderr).text();
    let from = "ffprobe keyframes a échoué : "@.len() as int;
    assert(frames.take(from) =~= "ffprobe keyframes a échoué : "@);
    assert(frames.skip(from) =~= stderr@);
}

// ---------------------------------------------------------------------------
// Frame rates
// ---------------------------------------------------------------------------

/// The fraction that `s` writes: the number in front of the first slash, or 30,
/// over the number behind it, or 1.
pub open spec fn rational(s: Seq<char>) -> (nat, nat) {
    (
        match unsigned_value(before_first(s, '/'), u32::MAX as nat) {
            Some(n) => n,
            None => 30,
        },
        match after_first(s, '/') {
            Some(t) => match unsigned_value(t, u32::MAX as nat) {
                Some(d) => d,
                None => 1,
            },
            None => 1,
        },
    )
}

/// Reads a fraction such as `25/1` or `30000/1001`. A part that is missing or is
/// no number counts as 30 above the line and as 1 below it.
pub fn parse_rational(s: &str) -> (r: (u32, u32))
    ensures
        (r.0 as nat, r.1 as nat) == rational(s@),
{
    let v = chars_of(s);
    let slash = find_char(v.as_slice(), '/');
    proof {
        lemma_find(s@, '/');
    }
    let above = slice_subrange(v.as_slice(), 0, slash);
    assert(above@ =~= before_first(s@, '/'));
    let num: u32 = match parse_unsigned(above, u32::MAX as u64) {
        Some(n) => n as u32,
        None => 30,
    };
    let den: u32 = if slash < v.len() {
        let below = slice_subrange(v.as_slice(), slash + 1, v.len());
        assert(below@ =~= s@.skip(find(s@, '/') + 1));
        match parse_unsigned(below, u32::MAX as u64) {
            Some(d) => d as u32,
            None => 1,
        }
    } else {
        1
    };
    (num, den)
}

/// A fraction is cut at its first slash, and each part is read on its own: what is no
/// number counts as 30 above the line and as 1 below it, and so does a part that is not
/// there.
pub proof fn law_fraction_is_cut_at_its_slash(above: Seq<char>, below: Seq<char>)
    requires
        forall|i: int| 0 <= i < above.len() ==> above[i] != '/',
    ensures
        ({
            let num = match unsigned_value(above, 0xffff_ffff) {
                Some(n) => n,
                None => 30,
            };
            let den = match unsigned_value(below, 0xffff_ffff) {
                Some(d) => d,
                None => 1,
            };
            &&& rational(above + seq!['/'] + below) == (num, den)
            &&& rational(above) == (num, 1nat)
        }),
{
    law_cut_at_first(above, '/', below);
}

/// A fraction of two numbers of 32 bits is read back.
pub proof fn law_fraction_reads_back(num: u32, den: u32)
    ensures
        rational(decimal(num as nat) + seq!['/'] + decimal(den as nat)) == (
            num as nat,
            den as nat,
        ),
{
    let (n, d) = (decimal(num as nat), decimal(den as nat));
    lemma_decimal_digits(num as nat);
    assert forall|i: int| 0 <= i < n.len() implies n[i] != '/' by {
        assert(is_digit(n[i]));
    }
    law_decimal_reads_back(num as nat, 0xffff_ffff);
    law_decimal_reads_back(den as nat, 0xffff_ffff);
    law_fraction_is_cut_at_its_slash(n, d);
}

/// The frame rate of a stream: what it reports, or 30 frames a second.
pub open spec fn frame_rate(stream: RawStream) -> (nat, nat) {
    match stream.r_frame_rate {
        Some(s) => rational(s@),
        None => (30, 1),
    }
}

/// The frame rate of a stream: what it reports, or 30 frames a second.
pub fn stream_frame_rate(stream: &RawStream) -> (r: (u32, u32))
    ensures
        (r.0 as nat, r.1 as nat) == frame_rate(*stream),
{
    match &stream.r_frame_rate {
        Some(s) => parse_rational(s.as_str()),
        None => (30, 1),
    }
}

/// The name of the codec of a stream, or `unknown`.
pub open spec fn codec(stream: RawStream) -> Seq<char> {
    match stream.codec_name {
        Some(s) => s@,
        None => "unknown"@,
    }
}

/// The name of the codec of a stream, or `unknown`.
pub fn stream_codec(stream: &RawStream) -> (s: String)
    ensures
        s@ == codec(*stream),
{
    match &stream.codec_name {
        Some(s) => s.clone(),
        None => "unknown".to_owned(),
    }
}

/// A number that may be missing, or zero.
pub open spec fn or_zero(n: Option<u32>) -> u32 {
    match n {
        Some(v) => v,
        None => 0,
    }
}

/// The place of the first video stream, or the number of streams where there is
/// none.
pub open spec fn first_video(streams: Seq<RawStream>) -> int
    decreases streams.len(),
{
    if streams.len() == 0 || streams[0].codec_type@ == "video"@ {
        0
    } else {
        1 + first_video(streams.skip(1))
    }
}

/// The place of the first video stream, or the number of streams where there is
/// none.
pub fn find_video(streams: &[RawStream]) -> (r: usize)
    ensures
        r == first_video(streams@),
        r <= streams@.len(),
{
    let video = "video".to_owned();
    let mut i: usize = 0;
    assert(streams@.skip(0) =~= streams@);
    while i < streams.len()
        invariant
            i <= streams@.len(),
            video@ == "video"@,
            i + first_video(streams@.skip(i as int)) == first_video(streams@),
        decreases streams@.len() - i,
    {
        assert(streams@.skip(i as int)[0] == streams@[i as int]);
        if streams[i].codec_type == video {
            return i;
        }
        assert(streams@.skip(i as int).skip(1) =~= streams@.skip(i + 1));
        i = i + 1;
    }
    i
}

/// The first video stream is one of type `video` with none of that type before it; where
/// there is none, none is of that type.
pub proof fn law_first_video(streams: Seq<RawStream>)
    ensures
        0 <= first_video(streams) <= streams.len(),
        forall|i: int|
            0 <= i < first_video(streams) ==> (#[trigger] streams[i]).codec_type@ != "video"@,
        first_video(streams) < streams.len() ==> streams[first_video(streams)].codec_type@
            == "video"@,
    decreases streams.len(),
{
    if streams.len() > 0 && streams[0].codec_type@ != "video"@ {
        law_first_video(streams.skip(1));
        assert forall|i: int| 0 <= i < first_video(streams) implies (
        #[trigger] streams[i]).codec_type@ != "video"@ by {
            if i > 0 {
                assert(streams[i] == streams.skip(1)[i - 1]);
            }
        }
    }
}

/// What a stream reports is taken as it is. What it does not report is an unknown codec,
/// 30 frames a second, and a width and height of zero.
pub proof fn law_what_a_stream_reports(stream: RawStream, n: Option<u32>)
    ensures
        stream.codec_name matches Some(name) ==> codec(stream) == name@,
        stream.codec_name is None ==> codec(stream) == "unknown"@,
        stream.r_frame_rate matches Some(rate) ==> frame_rate(stream) == rational(rate@),
        stream.r_frame_rate is None ==> frame_rate(stream) == (30nat, 1nat),
        n matches Some(v) ==> or_zero(n) == v,
        n is None ==> or_zero(n) == 0,
{
}

// ---------------------------------------------------------------------------
// The format of a video
// ---------------------------------------------------------------------------

/// The arguments that have `ffprobe` report format and streams of `url` as JSON.
pub open spec fn format_args(url: Seq<char>) -> Seq<Seq<char>> {
    seq!["-v"@, "quiet"@, "-print_format"@, "json"@, "-show_format"@, "-show_streams"@, url]
}

/// The arguments that have `ffprobe` report format and streams of `url` as JSON.
pub fn format_probe_args(url: &str) -> (args: Vec<String>)
    ensures
        contents(args@) == format_args(url@),
{
    let args = vec![
        "-v".to_owned(),
        "quiet".to_owned(),
        "-print_format".to_owned(),
        "json".to_owned(),
        "-show_format".to_owned(),
        "-show_streams".to_owned(),
        url.to_owned(),
    ];
    assert(contents(args@) =~= format_args(url@));
    args
}

/// The format of a video.
#[derive(Debug, Clone)]
pub struct FormatResult {
    pub duration_us: i64,
    pub width: u32,
    pub height: u32,
    pub video_codec: String,
    pub fps_num: u32,
    pub fps_den: u32,
}

/// The format of a video, from the length of the file and its first video stream.
pub fn video_format(duration_us: i64, streams: &[RawStream]) -> (r: Result<
    FormatResult,
    ProbeError,
>)
    ensures
        first_video(streams@) == streams@.len() ==> r == Err::<FormatResult, _>(
            ProbeError::NoVideoStream,
        ),
        first_video(streams@) < streams@.len() ==> {
            let video = streams@[first_video(streams@)];
            r matches Ok(f) && {
                &&& f.duration_us == duration_us
                &&& f.width == or_zero(video.width)
                &&& f.height == or_zero(video.height)
                &&& f.video_codec@ == codec(video)
                &&& (f.fps_num as nat, f.fps_den as nat) == frame_rate(video)
            }
        },
{
    let i = find_video(streams);
    if i == streams.len() {
        return Err(ProbeError::NoVideoStream);
    }
    let video = &streams[i];
    let (fps_num, fps_den) = stream_frame_rate(video);
    Ok(
        FormatResult {
            duration_us,
            width: video.width.unwrap_or(0),
            height: video.height.unwrap_or(0),
            video_codec: stream_codec(video),
            fps_num,
            fps_den,
        },
    )
}

// ---------------------------------------------------------------------------
// The keyframes of a video
// ---------------------------------------------------------------------------

/// The arguments that have `ffprobe` report the keyframes of the first video
/// stream of `url` as JSON.
pub open spec fn frame_args(url: Seq<char>) -> Seq<Seq<char>> {
    seq![
        "-v"@,
        "quiet"@,
        "-print_format"@,
        "json"@,
        "-skip_frame"@,
        "nokey"@,
        "-show_frames"@,
        "-select_streams"@,
        "v:0"@,
        url,
    ]
}

/// The arguments that have `ffprobe` report the keyframes of the first video
/// stream of `url` as JSON.
pub fn frame_probe_args(url: &str) -> (args: Vec<String>)
    ensures
        contents(args@) == frame_args(url@),
{
    let args = vec![
        "-v".to_owned(),
        "quiet".to_owned(),
        "-print_format".to_owned(),
        "json".to_owned(),
        "-skip_frame".to_owned(),
        "nokey".to_owned(),
        "-show_frames".to_owned(),
        "-select_streams".to_owned(),
        "v:0".to_owned(),
        url.to_owned(),
    ];
    assert(contents(args@) =~= frame_args(url@));
    args
}

/// Every file is probed alike, besides its address, which comes last.
pub proof fn law_files_are_probed_alike(url: Seq<char>, other: Seq<char>)
    ensures
        format_args(url).last() == url,
        format_args(url).drop_last() == format_args(other).drop_last(),
        frame_args(url).last() == url,
        frame_args(url).drop_last() == frame_args(other).drop_last(),
{
    assert(format_args(url).drop_last() =~= format_args(other).drop_last());
    assert(frame_args(url).drop_last() =~= frame_args(other).drop_last());
}

/// The text of the timestamp of a frame: the packet's own where it has one, else
/// the best effort.
pub fn frame_timestamp(frame: &RawFrame) -> (r: Option<String>)
    ensures
        r == match frame.pkt_pts_time {
            Some(s) => Some(s),
            None => frame.best_effort_timestamp_time,
        },
{
    match &frame.pkt_pts_time {
        Some(s) => Some(s.clone()),
        None => match &frame.best_effort_timestamp_time {
            Some(s) => Some(s.clone()),
            None => None,
        },
    }
}

/// Whether one timestamp stands in front of another.
pub open spec fn in_order() -> spec_fn(i64, i64) -> bool {
    |a: i64, b: i64| a <= b
}

/// `<[i64]>::sort` of std: the same numbers, in ascending order.
#[verifier::external_body]
fn sort(v: &mut Vec<i64>)
    ensures
        vstd::relations::sorted_by(final(v)@, in_order()),
        final(v)@.to_multiset() == old(v)@.to_multiset(),
{
    v.sort();
}

/// `timestamps` with the first one at zero where it is less than a tenth of a
/// second away from it.
pub open spec fn start_at_zero(timestamps: Seq<i64>) -> Seq<i64> {
    if -100_000 < timestamps[0] < 100_000 {
        timestamps.update(0, 0)
    } else {
        timestamps
    }
}

/// The timestamps of the keyframes of a video, from those of its frames: in
/// ascending order, with the first one at zero where it is less than a tenth of a
/// second away from it.
pub fn keyframe_timestamps(frames_us: Vec<i64>) -> (r: Result<Vec<i64>, ProbeError>)
    ensures
        frames_us@.len() == 0 ==> r == Err::<Vec<i64>, _>(ProbeError::NoKeyframe),
        frames_us@.len() > 0 ==> (r matches Ok(t) && t@ == start_at_zero(
            frames_us@.sort_by(in_order()),
        )),
{
    if frames_us.len() == 0 {
        return Err(ProbeError::NoKeyframe);
    }
    let mut t = frames_us;
    sort(&mut t);
    proof {
        frames_us@.lemma_sort_by_ensures(in_order());
        vstd::seq_lib::lemma_sorted_unique(t@, frames_us@.sort_by(in_order()), in_order());
        broadcast use vstd::seq_lib::group_to_multiset_ensures;

        assert(t@.len() == t@.to_multiset().len());
    }
    if -100_000 < t[0] && t[0] < 100_000 {
        t.set(0, 0);
    }
    Ok(t)
}

/// What becomes of the times of the frames: none is lost and none is added, they come
/// out in ascending order, and the earliest one alone is set to zero, if it is less than a
/// tenth of a second away from it.
pub proof fn law_reported_frames(frames_us: Seq<i64>, earliest: i64)
    requires
        frames_us.contains(earliest),
        forall|i: int| 0 <= i < frames_us.len() ==> earliest <= #[trigger] frames_us[i],
    ensures
        ({
            let out = start_at_zero(frames_us.sort_by(in_order()));
            &&& out.len() == frames_us.len()
            &&& out[0] == if -100_000 < earliest < 100_000 {
                0
            } else {
                earliest
            }
            &&& out.update(0, earliest).to_multiset() == frames_us.to_multiset()
            &&& forall|i: int, j: int| 0 < i <= j < out.len() ==> out[i] <= out[j]
        }),
{
    let t = frames_us.sort_by(in_order());
    let out = start_at_zero(t);
    frames_us.lemma_sort_by_ensures(in_order());
    broadcast use vstd::seq_lib::group_to_multiset_ensures;

    assert(t.len() == t.to_multiset().len());
    assert(frames_us.to_multiset().contains(earliest));
    assert(t.contains(earliest));
    let k = choose|k: int| 0 <= k < t.len() && t[k] == earliest;
    if k > 0 {
        assert(in_order()(t[0], t[k]));
    }
    assert(t.contains(t[0]));
    assert(frames_us.to_multiset().contains(t[0]));
    assert(frames_us.contains(t[0]));
    assert(t[0] == earliest);
    assert(out.update(0, earliest) =~= t);
    assert forall|i: int, j: int| 0 < i <= j < out.len() implies out[i] <= out[j] by {
        if i < j {
            assert(in_order()(t[i], t[j]));
        }
    }
}

/// The keyframes come out in ascending order, exactly when setting the first one
/// to zero does not carry it past the second.
pub proof fn law_keyframes_in_order(frames_us: Seq<i64>)
    requires
        frames_us.len() > 0,
    ensures
        ({
            let t = frames_us.sort_by(in_order());
            vstd::relations::sorted_by(start_at_zero(t), in_order()) <==> (-100_000 < t[0] < 0
                && t.len() > 1 ==> t[1] >= 0)
        }),
{
    let t = frames_us.sort_by(in_order());
    let z = start_at_zero(t);
    frames_us.lemma_sort_by_ensures(in_order());
    broadcast use vstd::seq_lib::group_to_multiset_ensures;

    assert(t.len() == t.to_multiset().len());
    if vstd::relations::sorted_by(z, in_order()) {
        if t.len() > 1 {
            assert(in_order()(z[0], z[1]));
        }
    }
    if -100_000 < t[0] < 0 && t.len() > 1 ==> t[1] >= 0 {
        assert forall|i: int, j: int| 0 <= i < j < z.len() implies #[trigger] in_order()(
            z[i],
            z[j],
        ) by {
            assert(in_order()(t[i], t[j]));
            if j > 1 {
                assert(in_order()(t[1], t[j]));
            }
        }
    }
}

/// The format probe fails where its process does.
pub fn check_format_probe(success: bool, stderr: String) -> (r: Result<(), ProbeError>)
    ensures
        r == if success {
            Ok::<(), ProbeError>(())
        } else {
            Err(ProbeError::FormatFailed(stderr))
        },
{
    if success {
        Ok(())
    } else {
        Err(ProbeError::FormatFailed(stderr))
    }
}

/// The frame probe fails where its process does.
pub fn check_frame_probe(success: bool, stderr: String) -> (r: Result<(), ProbeError>)
    ensures
        r == if success {
            Ok::<(), ProbeError>(())
        } else {
            Err(ProbeError::FramesFailed(stderr))
        },
{
    if success {
        Ok(())
    } else {
        Err(ProbeError::FramesFailed(stderr))
    }
}

// ---------------------------------------------------------------------------
// Both together
// ---------------------------------------------------------------------------

/// What is known of a video: its format, and where its keyframes are.
#[derive(Debug, Clone)]
pub struct VideoMetadata {
    pub duration_us: i64,
    pub width: u32,
    pub height: u32,
    /// The codec of the source, such as `h264`.
    pub video_codec: String,
    pub fps_num: u32,
    pub fps_den: u32,
    /// The keyframes in microseconds: the places where a segment can begin.
    pub keyframe_timestamps: Vec<i64>,
}

impl VideoMetadata {
    /// Puts a format and its keyframes together.
    pub fn assemble(format: FormatResult, keyframe_timestamps: Vec<i64>) -> (m: Self)
        ensures
            m.duration_us == format.duration_us,
            m.width == format.width,
            m.height == format.height,
            m.video_codec == format.video_codec,
            m.fps_num == format.fps_num,
            m.fps_den == format.fps_den,
            m.keyframe_timestamps == keyframe_timestamps,
    {
        VideoMetadata {
            duration_us: format.duration_us,
            width: format.width,
            height: format.height,
            video_codec: format.video_codec,
            fps_num: format.fps_num,
            fps_den: format.fps_den,
            keyframe_timestamps,
        }
    }

    /// The number of keyframes, which is the number of segments there can be.
    pub fn keyframe_count(&self) -> (n: usize)
        ensures
            n == self.keyframe_timestamps@.len(),
    {
        self.keyframe_timestamps.len()
    }
}

} // verus!
