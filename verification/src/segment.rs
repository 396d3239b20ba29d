//! The command line that renders one segment with the viewer's name drawn on it.

use crate::segmentation::{is_segmentation, Segment};
use crate::text::{
    chars_of, contents, exit_code, law_next_digit, law_text_writes_one_number,
    law_thousandths_read_back, push_exit_code, thousandths, thousandths_string, writes,
    writes_unsigned,
};
use vstd::prelude::*;

verus! {

// ---------------------------------------------------------------------------
// The watermark
// ---------------------------------------------------------------------------

/// Whether the filter `drawtext` reads `c` as something else than text.
pub open spec fn is_special(c: char) -> bool {
    c == '\'' || c == '\\' || c == ':'
}

/// `c` as the filter `drawtext` has it: a special character behind a backslash.
pub open spec fn escaped_char(c: char) -> Seq<char> {
    if is_special(c) {
        seq!['\\', c]
    } else {
        seq![c]
    }
}

/// `s` as the filter `drawtext` has it: each special character behind a backslash.
pub open spec fn escaped(s: Seq<char>) -> Seq<char>
    decreases s.len(),
{
    if s.len() == 0 {
        seq![]
    } else {
        escaped(s.drop_last()) + escaped_char(s.last())
    }
}

/// Puts a backslash in front of each character of `s` that the filter `drawtext`
/// reads as something else than text.
pub fn escape_drawtext(s: &str) -> (r: String)
    ensures
        r@ == escaped(s@),
{
    let v = chars_of(s);
    let mut r = String::new();
    let mut i: usize = 0;
    while i < v.len()
        invariant
            0 <= i <= v@.len(),
            v@ == s@,
            r@ == escaped(v@.take(i as int)),
        decreases v@.len() - i,
    {
        let c = v[i];
        let ghost before = r@;
        if c == '\'' || c == '\\' || c == ':' {
            r.push('\\');
        }
        r.push(c);
        assert(v@.take(i + 1).drop_last() =~= v@.take(i as int));
        assert(r@ =~= before + escaped_char(c));
        i = i + 1;
    }
    assert(v@.take(i as int) =~= s@);
    r
}

/// `s` as the filter `drawtext` reads it: a backslash stands for the character
/// behind it.
pub open spec fn unescaped(s: Seq<char>) -> Seq<char>
    decreases s.len(),
{
    if s.len() == 0 {
        seq![]
    } else if s[0] == '\\' && s.len() > 1 {
        seq![s[1]] + unescaped(s.skip(2))
    } else {
        seq![s[0]] + unescaped(s.skip(1))
    }
}

/// Whether each special character of `s` stands behind a backslash that escapes it.
pub open spec fn is_plain_text(s: Seq<char>) -> bool
    decreases s.len(),
{
    if s.len() == 0 {
        true
    } else if s[0] == '\\' {
        s.len() > 1 && is_plain_text(s.skip(2))
    } else {
        !is_special(s[0]) && is_plain_text(s.skip(1))
    }
}

/// A name is drawn as it is: what `drawtext` reads of an escaped text is the text,
/// and nothing in it is read as anything else than text.
pub proof fn law_escaped_reads_back(s: Seq<char>)
    ensures
        unescaped(escaped(s)) == s,
        is_plain_text(escaped(s)),
    decreases s.len(),
{
    if s.len() > 0 {
        let rest = s.skip(1);
        let e = escaped(s);
        law_escaped_reads_back(rest);
        lemma_escaped_first(s);
        if is_special(s[0]) {
            assert(e[0] == '\\' && e[1] == s[0]);
            assert(e.skip(2) =~= escaped(rest));
        } else {
            assert(e[0] == s[0]);
            assert(e.skip(1) =~= escaped(rest));
        }
        assert(seq![s[0]] + rest =~= s);
    } else {
        assert(escaped(s) =~= s);
    }
}

/// Two texts that are escaped to the same are the same.
pub proof fn law_escaped_differs(s: Seq<char>, t: Seq<char>)
    requires
        escaped(s) == escaped(t),
    ensures
        s == t,
{
    law_escaped_reads_back(s);
    law_escaped_reads_back(t);
}

/// Escaping goes character by character, from the front as well.
proof fn lemma_escaped_first(s: Seq<char>)
    requires
        s.len() > 0,
    ensures
        escaped(s) == escaped_char(s[0]) + escaped(s.skip(1)),
    decreases s.len(),
{
    if s.len() == 1 {
        assert(s.drop_last() =~= Seq::<char>::empty());
        assert(s.skip(1) =~= Seq::<char>::empty());
        assert(escaped(s.drop_last()) =~= Seq::<char>::empty());
        assert(escaped(s.skip(1)) =~= Seq::<char>::empty());
        assert(escaped(s) =~= escaped_char(s[0]) + escaped(s.skip(1)));
    } else {
        lemma_escaped_first(s.drop_last());
        assert(s.drop_last().skip(1) =~= s.skip(1).drop_last());
        assert(escaped(s) =~= escaped_char(s[0]) + escaped(s.skip(1)));
    }
}

/// Escaping goes character by character: a quote, a backslash and a colon each get a
/// backslash in front of them, any other character stays as it is, and what follows a
/// character is escaped on its own.
pub proof fn law_escaped_one_by_one(c: char, s: Seq<char>)
    ensures
        c == '\'' || c == '\\' || c == ':' ==> escaped(seq![c] + s) == seq!['\\', c] + escaped(s),
        c != '\'' && c != '\\' && c != ':' ==> escaped(seq![c] + s) == seq![c] + escaped(s),
        escaped(Seq::empty()) == Seq::<char>::empty(),
{
    let t = seq![c] + s;
    lemma_escaped_first(t);
    assert(t.skip(1) =~= s);
    assert(escaped(Seq::empty()) =~= Seq::<char>::empty());
}

/// `drawtext` reads a text from its front: a backslash gives the character behind it,
/// and any other character gives itself.
pub proof fn law_unescaped_one_by_one(c: char, s: Seq<char>)
    ensures
        unescaped(seq!['\\', c] + s) == seq![c] + unescaped(s),
        c != '\\' ==> unescaped(seq![c] + s) == seq![c] + unescaped(s),
        unescaped(Seq::empty()) == Seq::<char>::empty(),
{
    assert(unescaped(Seq::empty()) =~= Seq::<char>::empty());
    assert((seq!['\\', c] + s).skip(2) =~= s);
    assert((seq![c] + s).skip(1) =~= s);
}

/// In text that is read as nothing but text, a backslash stands in front of each quote
/// and each colon, so that neither ends the text.
pub proof fn law_plain_text_goes_on(s: Seq<char>)
    requires
        is_plain_text(s),
    ensures
        forall|i: int|
            0 <= i < s.len() && (#[trigger] s[i] == '\'' || s[i] == ':') ==> i > 0 && s[i - 1]
                == '\\',
    decreases s.len(),
{
    if s.len() > 0 {
        let step: int = if s[0] == '\\' {
            2
        } else {
            1
        };
        let rest = s.skip(step);
        law_plain_text_goes_on(rest);
        assert forall|i: int|
            0 <= i < s.len() && (#[trigger] s[i] == '\'' || s[i] == ':') implies i > 0 && s[i - 1]
            == '\\' by {
            if i >= step {
                assert(rest[i - step] == s[i]);
                assert(s[i - 1] == rest[i - step - 1]);
            }
        }
    }
}

/// The filter that draws a name in the upper left corner of every frame.
pub open spec fn watermark(firstname: Seq<char>, lastname: Seq<char>) -> Seq<char> {
    "drawtext=text='"@ + escaped(firstname + seq![' '] + lastname)
        + "':fontsize=28:fontcolor=white@0.6:x=24:y=24:shadowcolor=black@0.5:shadowx=2:shadowy=2"@
}

/// The filter that draws a name in the upper left corner of every frame, half
/// transparent and with a shadow.
pub fn watermark_filter(firstname: &str, lastname: &str) -> (r: String)
    ensures
        r@ == watermark(firstname@, lastname@),
{
    let mut name = firstname.to_owned();
    name.push(' ');
    name.append(lastname);
    assert(name@ =~= firstname@ + seq![' '] + lastname@);
    let mut r = "drawtext=text='".to_owned();
    r.append(escape_drawtext(name.as_str()).as_str());
    r.append(
        "':fontsize=28:fontcolor=white@0.6:x=24:y=24:shadowcolor=black@0.5:shadowx=2:shadowy=2",
    );
    r
}

/// The watermark is the whole name of the viewer: what `drawtext` reads between the
/// quotes is the first name, a space and the last name, and nothing in it ends the text.
/// How it is drawn is the same for everyone.
pub proof fn law_watermark_is_the_whole_name(firstname: Seq<char>, lastname: Seq<char>)
    ensures
        ({
            let filter = watermark(firstname, lastname);
            let open = "drawtext=text='"@;
            let style =
                "':fontsize=28:fontcolor=white@0.6:x=24:y=24:shadowcolor=black@0.5:shadowx=2:shadowy=2"@;
            let text = filter.subrange(open.len() as int, filter.len() - style.len());
            &&& open.len() + style.len() <= filter.len()
            &&& filter.take(open.len() as int) == open
            &&& filter.skip(filter.len() - style.len()) == style
            &&& unescaped(text) == firstname + seq![' '] + lastname
            &&& is_plain_text(text)
        }),
{
    let filter = watermark(firstname, lastname);
    let open = "drawtext=text='"@;
    let style =
        "':fontsize=28:fontcolor=white@0.6:x=24:y=24:shadowcolor=black@0.5:shadowx=2:shadowy=2"@;
    let name = firstname + seq![' '] + lastname;
    law_escaped_reads_back(name);
    assert(filter.take(open.len() as int) =~= open);
    assert(filter.skip(filter.len() - style.len()) =~= style);
    assert(filter.subrange(open.len() as int, filter.len() - style.len()) =~= escaped(name));
}

/// Viewers with one name in common have the same watermark only if they have the other
/// one in common, too.
pub proof fn law_watermarks_differ(
    firstname: Seq<char>,
    lastname: Seq<char>,
    other_first: Seq<char>,
    other_last: Seq<char>,
)
    requires
        watermark(firstname, lastname) == watermark(other_first, other_last),
    ensures
        firstname + seq![' '] + lastname == other_first + seq![' '] + other_last,
        firstname == other_first ==> lastname == other_last,
        lastname == other_last ==> firstname == other_first,
{
    law_watermark_is_the_whole_name(firstname, lastname);
    law_watermark_is_the_whole_name(other_first, other_last);
    let name = firstname + seq![' '] + lastname;
    let other = other_first + seq![' '] + other_last;
    if firstname == other_first {
        assert(lastname =~= name.skip(firstname.len() as int + 1));
        assert(other_last =~= other.skip(firstname.len() as int + 1));
    }
    if lastname == other_last {
        assert(name.len() == other.len());
        assert(firstname =~= name.take(firstname.len() as int));
        assert(other_first =~= other.take(firstname.len() as int));
    }
}

// ---------------------------------------------------------------------------
// The command line
// ---------------------------------------------------------------------------

/// A time in seconds with six decimals.
pub open spec fn seconds(ms: int) -> Seq<char> {
    thousandths(ms) + "000"@
}

/// A time in seconds with six decimals.
pub fn seconds_string(ms: i64) -> (s: String)
    ensures
        s@ == seconds(ms as int),
{
    let mut s = thousandths_string(ms);
    s.append("000");
    s
}

/// A time in milliseconds is read back from its seconds with six decimals.
pub proof fn law_seconds_read_back(ms: int)
    ensures
        writes(seconds(ms), 1000 * ms, 6),
{
    let n: int = if ms < 0 {
        -ms
    } else {
        ms
    };
    let short = if ms < 0 {
        thousandths(ms).skip(1)
    } else {
        thousandths(ms)
    };
    law_thousandths_read_back(ms);
    reveal_strlit("000");
    let long = short + "000"@;
    let (p, q) = (short.len() - 4, long.len() - 7);
    let digits = short.take(p) + short.skip(p + 1);
    let more = long.take(q) + long.skip(q + 1);
    assert(writes_unsigned(short, n as nat, 3));
    assert(more =~= digits.push('0').push('0').push('0'));
    law_next_digit(digits, '0');
    law_next_digit(digits.push('0'), '0');
    law_next_digit(digits.push('0').push('0'), '0');
    assert forall|i: int| 0 <= i < more.len() implies '0' <= #[trigger] more[i] <= '9' by {
        if i < digits.len() {
            assert(more[i] == digits[i]);
        }
    }
    assert(long[q] == short[p]);
    assert(writes_unsigned(long, (1000 * n) as nat, 6));
    if ms < 0 {
        assert(seconds(ms).skip(1) =~= long);
    }
}

/// The arguments that have `ffmpeg` render one segment of `url` to its standard
/// output.
///
/// The seek stands in front of the input, where it is fast and lands on a
/// keyframe. The segment begins with a keyframe of its own, keeps the sound as it
/// is, and carries the times of the whole video, so that players join segments
/// without a gap.
pub open spec fn render_args(
    url: Seq<char>,
    start_ms: int,
    duration_ms: int,
    firstname: Seq<char>,
    lastname: Seq<char>,
) -> Seq<Seq<char>> {
    seq![
        "-loglevel"@,
        "error"@,
        "-ss"@,
        seconds(start_ms),
        "-i"@,
        url,
        "-t"@,
        seconds(duration_ms),
        "-vf"@,
        watermark(firstname, lastname),
        "-c:v"@,
        "libx264"@,
        "-preset"@,
        "ultrafast"@,
        "-crf"@,
        "28"@,
        "-force_key_frames"@,
        "expr:eq(n,0)"@,
        "-c:a"@,
        "copy"@,
        "-output_ts_offset"@,
        seconds(start_ms),
        "-f"@,
        "mpegts"@,
        "pipe:1"@,
    ]
}

/// The arguments that have `ffmpeg` render one segment of `presign_url`, with the
/// name of the viewer drawn on it, to its standard output.
pub fn ffmpeg_args(
    presign_url: &str,
    start_ms: i64,
    duration_ms: i64,
    firstname: &str,
    lastname: &str,
) -> (args: Vec<String>)
    ensures
        contents(args@) == render_args(
            presign_url@,
            start_ms as int,
            duration_ms as int,
            firstname@,
            lastname@,
        ),
{
    let args = vec![
        "-loglevel".to_owned(),
        "error".to_owned(),
        "-ss".to_owned(),
        seconds_string(start_ms),
        "-i".to_owned(),
        presign_url.to_owned(),
        "-t".to_owned(),
        seconds_string(duration_ms),
        "-vf".to_owned(),
        watermark_filter(firstname, lastname),
        "-c:v".to_owned(),
        "libx264".to_owned(),
        "-preset".to_owned(),
        "ultrafast".to_owned(),
        "-crf".to_owned(),
        "28".to_owned(),
        "-force_key_frames".to_owned(),
        "expr:eq(n,0)".to_owned(),
        "-c:a".to_owned(),
        "copy".to_owned(),
        "-output_ts_offset".to_owned(),
        seconds_string(start_ms),
        "-f".to_owned(),
        "mpegts".to_owned(),
        "pipe:1".to_owned(),
    ];
    assert(contents(args@) =~= render_args(
        presign_url@,
        start_ms as int,
        duration_ms as int,
        firstname@,
        lastname@,
    ));
    args
}

/// A segment is rendered as a whole and stays in its place: behind `-ss` and behind
/// `-output_ts_offset` stands its beginning, behind `-t` its duration, each in seconds
/// with six decimals; behind `-i` stands the address of the video, and behind `-vf` what
/// draws the name of the viewer. The segment goes to the standard output.
pub proof fn law_segment_is_rendered_as_a_whole(
    url: Seq<char>,
    start_ms: int,
    duration_ms: int,
    firstname: Seq<char>,
    lastname: Seq<char>,
)
    ensures
        ({
            let args = render_args(url, start_ms, duration_ms, firstname, lastname);
            &&& args.len() == 25
            &&& args[2] == "-ss"@ && writes(args[3], 1000 * start_ms, 6)
            &&& args[4] == "-i"@ && args[5] == url
            &&& args[6] == "-t"@ && writes(args[7], 1000 * duration_ms, 6)
            &&& args[8] == "-vf"@ && args[9] == watermark(firstname, lastname)
            &&& args[20] == "-output_ts_offset"@ && writes(args[21], 1000 * start_ms, 6)
            &&& args[24] == "pipe:1"@
        }),
{
    law_seconds_read_back(start_ms);
    law_seconds_read_back(duration_ms);
}

/// Besides times, address and name, all segments of all videos are rendered alike.
pub proof fn law_segments_are_rendered_alike(
    url: Seq<char>,
    start_ms: int,
    duration_ms: int,
    firstname: Seq<char>,
    lastname: Seq<char>,
    other_url: Seq<char>,
    other_start_ms: int,
    other_duration_ms: int,
    other_first: Seq<char>,
    other_last: Seq<char>,
    i: int,
)
    requires
        0 <= i < 25,
        i != 3 && i != 5 && i != 7 && i != 9 && i != 21,
    ensures
        render_args(url, start_ms, duration_ms, firstname, lastname)[i] == render_args(
            other_url,
            other_start_ms,
            other_duration_ms,
            other_first,
            other_last,
        )[i],
{
}

/// Segments that follow one another are rendered without a gap and without an overlap:
/// where one begins, and for how long it is rendered, adds up to where the next begins.
pub proof fn law_segments_are_rendered_without_a_gap(
    keyframes: Seq<i64>,
    duration: int,
    target: int,
    segments: Seq<Segment>,
    i: int,
    url: Seq<char>,
    firstname: Seq<char>,
    lastname: Seq<char>,
    from: int,
    length: int,
    next_from: int,
)
    requires
        is_segmentation(keyframes, duration, target, segments),
        0 <= i < segments.len() - 1,
        ({
            let (s, next) = (segments[i], segments[i + 1]);
            let args = render_args(
                url,
                s.start_ms as int,
                s.duration_ms as int,
                firstname,
                lastname,
            );
            let next_args = render_args(
                url,
                next.start_ms as int,
                next.duration_ms as int,
                firstname,
                lastname,
            );
            &&& writes(args[3], from, 6)
            &&& writes(args[7], length, 6)
            &&& writes(next_args[3], next_from, 6)
        }),
    ensures
        from + length == next_from,
        from == 1000 * segments[i].start_ms,
        next_from == 1000 * segments[i].end_ms,
{
    let (s, next) = (segments[i], segments[i + 1]);
    law_segment_is_rendered_as_a_whole(
        url,
        s.start_ms as int,
        s.duration_ms as int,
        firstname,
        lastname,
    );
    law_segment_is_rendered_as_a_whole(
        url,
        next.start_ms as int,
        next.duration_ms as int,
        firstname,
        lastname,
    );
    law_text_writes_one_number(seconds(s.start_ms as int), 6, from, 1000 * s.start_ms);
    law_text_writes_one_number(seconds(s.duration_ms as int), 6, length, 1000 * s.duration_ms);
    law_text_writes_one_number(seconds(next.start_ms as int), 6, next_from, 1000 * next.start_ms);
    assert(s.end_ms == next.start_ms);
}

/// Rendering fails where the process does.
pub fn check_render(success: bool, code: Option<i32>) -> (r: Result<(), String>)
    ensures
        success ==> r == Ok::<(), String>(()),
        !success ==> (r matches Err(message) && message@ == "ffmpeg a échoué (code "@ + exit_code(code)
            + ")"@),
{
    if success {
        return Ok(());
    }
    let mut message = "ffmpeg a échoué (code ".to_owned();
    push_exit_code(&mut message, code);
    message.append(")");
    Err(message)
}

} // verus!
