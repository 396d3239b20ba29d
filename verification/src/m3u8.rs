//! Writes the playlist (M3U8) of a video on demand.
//!
//! The playlist is of version 3, which every player reads, begins at sequence
//! number 0 and is closed by an end tag, since nothing is ever added to it.

use crate::segmentation::{law_target_duration, max_segment_duration, target_duration, Segment};
use crate::text::{
    decimal, decimal_string, digits_value, is_digit, law_thousandths_read_back,
    lemma_decimal_digits, lemma_decimal_len, lemma_decimal_writes, magnitude, ten_to, thousandths,
    writes, writes_whole,
};
use vstd::prelude::*;
use vstd::utf8::{encode_utf8, is_ascii_chars, is_ascii_chars_encode_utf8};

verus! {

/// The media type of a playlist. Some players refuse any other.
pub const CONTENT_TYPE: &'static str = "application/vnd.apple.mpegurl";

/// Appends a tag and its value, as a line of its own.
pub fn push_kv(s: &mut String, key: &str, val: &str)
    ensures
        final(s)@ == old(s)@ + key@ + val@ + seq!['\n'],
{
    s.append(key);
    s.append(val);
    s.push('\n');
}

/// What stands in front of the segments: the tags that hold for all of them.
pub open spec fn header(segments: Seq<Segment>) -> Seq<char> {
    "#EXTM3U\n"@ + "#EXT-X-VERSION:3\n"@ + "#EXT-X-TARGETDURATION:"@ + decimal(
        target_duration(segments),
    ) + seq!['\n'] + "#EXT-X-MEDIA-SEQUENCE:0\n"@ + seq!['\n']
}

/// The address of a segment: base, session and index, with slashes between them.
pub open spec fn segment_url(base: Seq<char>, session: Seq<char>, index: nat) -> Seq<char> {
    base + seq!['/'] + session + seq!['/'] + decimal(index)
}

/// The two lines of one segment: its duration and its address.
pub open spec fn entry(base: Seq<char>, session: Seq<char>, segment: Segment) -> Seq<char> {
    "#EXTINF:"@ + thousandths(segment.duration_ms as int) + ",\n"@ + segment_url(
        base,
        session,
        segment.index as nat,
    ) + seq!['\n']
}

/// The lines of all segments, in their order.
pub open spec fn entries(base: Seq<char>, session: Seq<char>, segments: Seq<Segment>) -> Seq<char>
    decreases segments.len(),
{
    if segments.len() == 0 {
        seq![]
    } else {
        entries(base, session, segments.drop_last()) + entry(base, session, segments.last())
    }
}

/// A whole playlist.
pub open spec fn playlist(base: Seq<char>, session: Seq<char>, segments: Seq<Segment>) -> Seq<
    char,
> {
    header(segments) + entries(base, session, segments) + "#EXT-X-ENDLIST\n"@
}

/// How many bytes a playlist of `n` segments is expected to take: 120 for the tags
/// and 65 for each segment.
pub open spec fn planned_size(n: nat) -> nat {
    120 + 65 * n
}

/// How many bytes to hold ready for a playlist of `n` segments, so that a long one
/// is written without moving it. Where that is more than a string can hold, none.
fn expected_size(n: usize) -> (size: usize)
    ensures
        size == if planned_size(n as nat) <= isize::MAX {
            planned_size(n as nat)
        } else {
            0
        },
{
    let size: u128 = 120 + 65 * n as u128;
    if size <= isize::MAX as u128 {
        size as usize
    } else {
        0
    }
}

/// A playlist to be written.
pub struct M3u8Builder<'a> {
    session_id: &'a str,
    segments: &'a [Segment],
    segment_base: &'a str,
}

impl<'a> M3u8Builder<'a> {
    /// The session whose segments are listed.
    pub closed spec fn session(self) -> Seq<char> {
        self.session_id@
    }

    /// The segments that are listed.
    pub closed spec fn listed(self) -> Seq<Segment> {
        self.segments@
    }

    /// What the address of every segment begins with.
    pub closed spec fn base(self) -> Seq<char> {
        self.segment_base@
    }

    /// The playlist of a session, with addresses that begin with `/segment`.
    pub fn new(session_id: &'a str, segments: &'a [Segment]) -> (b: Self)
        ensures
            b.session() == session_id@,
            b.listed() == segments@,
            b.base() == "/segment"@,
    {
        M3u8Builder { session_id, segments, segment_base: "/segment" }
    }

    /// The same playlist, with addresses that begin with `base`.
    pub fn segment_base(self, base: &'a str) -> (b: Self)
        ensures
            b.session() == self.session(),
            b.listed() == self.listed(),
            b.base() == base@,
    {
        M3u8Builder { session_id: self.session_id, segments: self.segments, segment_base: base }
    }

    /// Writes the playlist.
    pub fn build(self) -> (out: String)
        ensures
            out@ == playlist(self.base(), self.session(), self.listed()),
    {
        let target_dur = max_segment_duration(self.segments);
        let mut out = String::with_capacity(expected_size(self.segments.len()));
        out.append("#EXTM3U\n");
        out.append("#EXT-X-VERSION:3\n");
        push_kv(&mut out, "#EXT-X-TARGETDURATION:", decimal_string(target_dur).as_str());
        out.append("#EXT-X-MEDIA-SEQUENCE:0\n");
        out.push('\n');
        assert(out@ =~= header(self.segments@));
        let mut i: usize = 0;
        assert(self.segments@.take(0) =~= Seq::<Segment>::empty());
        while i < self.segments.len()
            invariant
                0 <= i <= self.segments@.len(),
                out@ == header(self.segments@) + entries(
                    self.segment_base@,
                    self.session_id@,
                    self.segments@.take(i as int),
                ),
            decreases self.segments@.len() - i,
        {
            let ghost before = out@;
            let seg = &self.segments[i];
            out.append("#EXTINF:");
            out.append(seg.extinf().as_str());
            out.append(",\n");
            out.append(self.segment_base);
            out.push('/');
            out.append(self.session_id);
            out.push('/');
            out.append(decimal_string(seg.index as u64).as_str());
            out.push('\n');
            assert(out@ =~= before + entry(self.segment_base@, self.session_id@, *seg));
            assert(self.segments@.take(i + 1).drop_last() =~= self.segments@.take(i as int));
            assert(self.segments@.take(i + 1).last() == *seg);
            assert(out@ =~= header(self.segments@) + entries(
                self.segment_base@,
                self.session_id@,
                self.segments@.take(i + 1),
            ));
            i = i + 1;
        }
        assert(self.segments@.take(i as int) =~= self.segments@);
        out.append("#EXT-X-ENDLIST\n");
        out
    }
}

// ---------------------------------------------------------------------------
// Laws
// ---------------------------------------------------------------------------

/// A playlist opens with the tag that makes it one and is closed by the end tag.
pub proof fn law_playlist_is_closed(base: Seq<char>, session: Seq<char>, segments: Seq<Segment>)
    ensures
        "#EXTM3U\n"@.is_prefix_of(playlist(base, session, segments)),
        "#EXT-X-ENDLIST\n"@.is_suffix_of(playlist(base, session, segments)),
{
    let p = playlist(base, session, segments);
    assert(p.subrange(0, "#EXTM3U\n"@.len() as int) =~= "#EXTM3U\n"@);
    assert(p.subrange(p.len() - "#EXT-X-ENDLIST\n"@.len(), p.len() as int)
        =~= "#EXT-X-ENDLIST\n"@);
}

/// What a player reads in a playlist. Behind `#EXT-X-TARGETDURATION:` stands a whole
/// number of seconds that no segment exceeds, and that is the least such number. Then come
/// the segments in their order, and nothing else: for each, its own duration in seconds
/// with three decimals behind `#EXTINF:`, and an address that ends in its own index. The
/// end tag comes last.
///
/// What is read is given back: that number, and the duration and the index of each
/// segment as they are written.
pub proof fn law_playlist_reads_back(
    base: Seq<char>,
    session: Seq<char>,
    segments: Seq<Segment>,
) -> (read: (Seq<char>, Seq<Seq<char>>, Seq<Seq<char>>))
    ensures
        ({
            let (number, times, places) = read;
            let lines = Seq::new(
                segments.len(),
                |i: int|
                    "#EXTINF:"@ + times[i] + ",\n"@ + base + seq!['/'] + session + seq!['/']
                        + places[i] + seq!['\n'],
            );
            let longest_secs = digits_value(number);
            &&& playlist(base, session, segments) == "#EXTM3U\n"@ + "#EXT-X-VERSION:3\n"@
                + "#EXT-X-TARGETDURATION:"@ + number + seq!['\n'] + "#EXT-X-MEDIA-SEQUENCE:0\n"@
                + seq!['\n'] + lines.flatten() + "#EXT-X-ENDLIST\n"@
            &&& writes_whole(number, longest_secs as int)
            &&& forall|i: int|
                0 <= i < segments.len() ==> (#[trigger] segments[i]).duration_ms <= 1000
                    * longest_secs
            &&& longest_secs > 0 ==> exists|i: int|
                0 <= i < segments.len() && (#[trigger] segments[i]).duration_ms > 1000 * (
                longest_secs - 1)
            &&& times.len() == segments.len()
            &&& places.len() == segments.len()
            &&& forall|i: int|
                #![trigger times[i]]
                #![trigger places[i]]
                #![trigger segments[i]]
                0 <= i < segments.len() ==> writes(times[i], segments[i].duration_ms as int, 3)
                    && writes_whole(places[i], segments[i].index as int)
        }),
{
    let number = decimal(target_duration(segments));
    let times = segments.map_values(|s: Segment| thousandths(s.duration_ms as int));
    let places = segments.map_values(|s: Segment| decimal(s.index as nat));
    let lines = Seq::new(
        segments.len(),
        |i: int|
            "#EXTINF:"@ + times[i] + ",\n"@ + base + seq!['/'] + session + seq!['/'] + places[i]
                + seq!['\n'],
    );
    lemma_decimal_writes(target_duration(segments));
    law_target_duration(segments);
    assert forall|i: int| 0 <= i < segments.len() implies lines[i] == entry(
        base,
        session,
        segments[i],
    ) by {
        assert(lines[i] =~= entry(base, session, segments[i]));
    }
    lemma_entries_flat(base, session, segments, lines);
    assert(playlist(base, session, segments) =~= "#EXTM3U\n"@ + "#EXT-X-VERSION:3\n"@
        + "#EXT-X-TARGETDURATION:"@ + number + seq!['\n'] + "#EXT-X-MEDIA-SEQUENCE:0\n"@ + seq![
        '\n',
    ] + lines.flatten() + "#EXT-X-ENDLIST\n"@);
    assert forall|i: int|
        #![trigger times[i]]
        #![trigger places[i]]
        #![trigger segments[i]]
        0 <= i < segments.len() implies writes(times[i], segments[i].duration_ms as int, 3)
        && writes_whole(places[i], segments[i].index as int) by {
        law_thousandths_read_back(segments[i].duration_ms as int);
        lemma_decimal_writes(segments[i].index as nat);
    }
    (number, times, places)
}

/// The lines of all segments are those of each, one after the other.
proof fn lemma_entries_flat(
    base: Seq<char>,
    session: Seq<char>,
    segments: Seq<Segment>,
    lines: Seq<Seq<char>>,
)
    requires
        lines.len() == segments.len(),
        forall|i: int|
            0 <= i < segments.len() ==> #[trigger] lines[i] == entry(base, session, segments[i]),
    ensures
        entries(base, session, segments) == lines.flatten(),
    decreases segments.len(),
{
    if segments.len() > 0 {
        let rest = segments.drop_last();
        let front = lines.drop_last();
        assert forall|i: int| 0 <= i < rest.len() implies #[trigger] front[i] == entry(
            base,
            session,
            rest[i],
        ) by {
            assert(front[i] == lines[i]);
        }
        lemma_entries_flat(base, session, rest, front);
        assert(lines =~= front.push(lines.last()));
        front.lemma_flatten_push(lines.last());
    } else {
        assert(lines.flatten() =~= Seq::<char>::empty());
    }
}

/// Every segment is listed: its two lines stand in the playlist, behind those of
/// the segments before it.
pub proof fn law_every_segment_listed(
    base: Seq<char>,
    session: Seq<char>,
    segments: Seq<Segment>,
    i: int,
)
    requires
        0 <= i < segments.len(),
    ensures
        ({
            let p = playlist(base, session, segments);
            let from = header(segments).len() + entries(base, session, segments.take(i)).len();
            let lines = entry(base, session, segments[i]);
            &&& from + lines.len() <= p.len()
            &&& p.subrange(from as int, (from + lines.len()) as int) == lines
        }),
{
    let p = playlist(base, session, segments);
    let n = segments.len() as int;
    assert(segments.take(n) =~= segments);
    lemma_entries_prefix(base, session, segments, i + 1, n);
    let up_to = segments.take(i + 1);
    assert(up_to.drop_last() =~= segments.take(i));
    let head = entries(base, session, segments.take(i));
    let lines = entry(base, session, segments[i]);
    let all = entries(base, session, segments);
    assert(head + lines =~= all.take((head + lines).len() as int));
    let from = header(segments).len() + head.len();
    assert forall|k: int| 0 <= k < lines.len() implies p[from + k] == lines[k] by {
        assert(p[from + k] == all[head.len() + k]);
        assert((head + lines)[head.len() + k] == lines[k]);
    }
    assert(p.subrange(from as int, (from + lines.len()) as int) =~= lines);
}

/// The lines of the first segments stand in front of the rest.
proof fn lemma_entries_prefix(
    base: Seq<char>,
    session: Seq<char>,
    segments: Seq<Segment>,
    i: int,
    n: int,
)
    requires
        0 <= i <= n <= segments.len(),
    ensures
        ({
            let head = entries(base, session, segments.take(i));
            let all = entries(base, session, segments.take(n));
            head.len() <= all.len() && all.take(head.len() as int) == head
        }),
    decreases n,
{
    let head = entries(base, session, segments.take(i));
    let all = entries(base, session, segments.take(n));
    if i == n {
        assert(all.take(head.len() as int) =~= head);
    } else {
        lemma_entries_prefix(base, session, segments, i, n - 1);
        assert(segments.take(n).drop_last() =~= segments.take(n - 1));
        let shorter = entries(base, session, segments.take(n - 1));
        assert(all.take(head.len() as int) =~= shorter.take(head.len() as int));
    }
}

/// Addresses tell segments apart: under one base, two addresses are the same only
/// for the same segment of the same session.
pub proof fn law_segment_urls_differ(
    base: Seq<char>,
    session: Seq<char>,
    index: nat,
    other_session: Seq<char>,
    other_index: nat,
)
    requires
        segment_url(base, session, index) == segment_url(base, other_session, other_index),
    ensures
        session == other_session,
        index == other_index,
{
    let url = segment_url(base, session, index);
    let d = decimal(index);
    let e = decimal(other_index);
    lemma_decimal_digits(index);
    lemma_decimal_digits(other_index);
    // The last slash of the address stands in front of the index.
    assert(url[url.len() - d.len() - 1] == '/');
    assert(url[url.len() - e.len() - 1] == '/');
    assert forall|i: int| url.len() - d.len() <= i < url.len() implies url[i] != '/' by {
        assert(url[i] == d[i - (url.len() - d.len())]);
        assert(is_digit(d[i - (url.len() - d.len())]));
    }
    assert forall|i: int| url.len() - e.len() <= i < url.len() implies url[i] != '/' by {
        assert(url[i] == e[i - (url.len() - e.len())]);
        assert(is_digit(e[i - (url.len() - e.len())]));
    }
    assert(d.len() == e.len());
    let from = base.len() + 1;
    let to = url.len() - d.len() - 1;
    assert(d =~= url.skip(to + 1));
    assert(e =~= url.skip(to + 1));
    assert(session =~= url.subrange(from as int, to));
    assert(other_session =~= url.subrange(from as int, to));
}

/// What is held ready for a playlist is enough, with base and session of no more than
/// 30 characters together, indices below a thousand million and durations below a
/// thousand million seconds.
pub proof fn law_playlist_fits(base: Seq<char>, session: Seq<char>, segments: Seq<Segment>)
    requires
        base.len() + session.len() <= 30,
        forall|i: int|
            0 <= i < segments.len() ==> {
                let s = #[trigger] segments[i];
                s.index < 1_000_000_000 && 0 <= s.duration_ms < 1_000_000_000_000
            },
    ensures
        playlist(base, session, segments).len() <= planned_size(segments.len()),
        is_ascii_chars(base) && is_ascii_chars(session) ==> encode_utf8(
            playlist(base, session, segments),
        ).len() <= planned_size(segments.len()),
{
    lemma_header_size(segments);
    lemma_entries_size(base, session, segments);
    reveal_strlit("#EXT-X-ENDLIST\n");
    if is_ascii_chars(base) && is_ascii_chars(session) {
        law_playlist_is_ascii(base, session, segments);
        is_ascii_chars_encode_utf8(playlist(base, session, segments));
    }
}

/// The tags in front of the segments take no more than 83 characters.
proof fn lemma_header_size(segments: Seq<Segment>)
    requires
        forall|i: int|
            0 <= i < segments.len() ==> (#[trigger] segments[i]).duration_ms < 1_000_000_000_000,
    ensures
        header(segments).len() <= 83,
{
    reveal_strlit("#EXTM3U\n");
    reveal_strlit("#EXT-X-VERSION:3\n");
    reveal_strlit("#EXT-X-TARGETDURATION:");
    reveal_strlit("#EXT-X-MEDIA-SEQUENCE:0\n");
    law_target_duration(segments);
    assert(target_duration(segments) <= 1_000_000_000);
    assert(ten_to(10) == 10_000_000_000) by {
        reveal_with_fuel(ten_to, 11);
    }
    lemma_decimal_len(target_duration(segments), 10);
}

/// The lines of a segment take no more than 65 characters.
proof fn lemma_entries_size(base: Seq<char>, session: Seq<char>, segments: Seq<Segment>)
    requires
        base.len() + session.len() <= 30,
        forall|i: int|
            0 <= i < segments.len() ==> {
                let s = #[trigger] segments[i];
                s.index < 1_000_000_000 && 0 <= s.duration_ms < 1_000_000_000_000
            },
    ensures
        entries(base, session, segments).len() <= 65 * segments.len(),
    decreases segments.len(),
{
    if segments.len() > 0 {
        let rest = segments.drop_last();
        let s = segments[segments.len() - 1];
        assert forall|i: int| 0 <= i < rest.len() implies {
            let s = #[trigger] rest[i];
            s.index < 1_000_000_000 && 0 <= s.duration_ms < 1_000_000_000_000
        } by {
            assert(rest[i] == segments[i]);
        }
        lemma_entries_size(base, session, rest);
        reveal_strlit("#EXTINF:");
        reveal_strlit(",\n");
        assert(ten_to(9) == 1_000_000_000) by {
            reveal_with_fuel(ten_to, 10);
        }
        lemma_decimal_len(s.index as nat, 9);
        lemma_decimal_len((s.duration_ms as int / 1000) as nat, 9);
        assert(entry(base, session, s).len() <= 65);
    }
}

/// A playlist is ASCII, and so takes one byte for each character, if base and session
/// are.
pub proof fn law_playlist_is_ascii(base: Seq<char>, session: Seq<char>, segments: Seq<Segment>)
    requires
        is_ascii_chars(base),
        is_ascii_chars(session),
    ensures
        is_ascii_chars(playlist(base, session, segments)),
{
    reveal_strlit("#EXTM3U\n");
    reveal_strlit("#EXT-X-VERSION:3\n");
    reveal_strlit("#EXT-X-TARGETDURATION:");
    reveal_strlit("#EXT-X-MEDIA-SEQUENCE:0\n");
    reveal_strlit("#EXT-X-ENDLIST\n");
    lemma_decimal_is_ascii(target_duration(segments));
    lemma_entries_are_ascii(base, session, segments);
    let tag = "#EXTM3U\n"@ + "#EXT-X-VERSION:3\n"@ + "#EXT-X-TARGETDURATION:"@;
    assert(is_ascii_chars(tag));
    assert(is_ascii_chars(header(segments)));
}

/// Digits are ASCII.
proof fn lemma_decimal_is_ascii(n: nat)
    ensures
        is_ascii_chars(decimal(n)),
{
    lemma_decimal_digits(n);
    assert forall|i: int| 0 <= i < decimal(n).len() implies '\0' <= #[trigger] decimal(n)[i]
        <= '\u{7f}' by {
        assert(is_digit(decimal(n)[i]));
    }
}

/// The lines of the segments are ASCII if base and session are.
proof fn lemma_entries_are_ascii(base: Seq<char>, session: Seq<char>, segments: Seq<Segment>)
    requires
        is_ascii_chars(base),
        is_ascii_chars(session),
    ensures
        is_ascii_chars(entries(base, session, segments)),
    decreases segments.len(),
{
    if segments.len() > 0 {
        let s = segments.last();
        let m = magnitude(s.duration_ms as int) as int;
        lemma_entries_are_ascii(base, session, segments.drop_last());
        reveal_strlit("#EXTINF:");
        reveal_strlit(",\n");
        lemma_decimal_is_ascii(s.index as nat);
        lemma_decimal_is_ascii((m / 1000) as nat);
        assert(is_ascii_chars(thousandths(s.duration_ms as int)));
        assert(is_ascii_chars(segment_url(base, session, s.index as nat)));
        assert(is_ascii_chars(entry(base, session, s)));
    }
}

/// How often `c` occurs in `s`.
pub open spec fn occurrences(s: Seq<char>, c: char) -> nat
    decreases s.len(),
{
    if s.len() == 0 {
        0
    } else {
        occurrences(s.drop_last(), c) + if s.last() == c {
            1nat
        } else {
            0
        }
    }
}

/// A playlist has one tag and two lines for each segment, besides the five tags
/// and six lines that every playlist has, and besides any mark of a tag or line
/// break that base or session themselves bring into each address.
pub proof fn law_playlist_lines(base: Seq<char>, session: Seq<char>, segments: Seq<Segment>)
    ensures
        occurrences(playlist(base, session, segments), '\n') == 6 + segments.len() * (2
            + occurrences(base, '\n') + occurrences(session, '\n')),
        occurrences(playlist(base, session, segments), '#') == 5 + segments.len() * (1
            + occurrences(base, '#') + occurrences(session, '#')),
{
    let footer = "#EXT-X-ENDLIST\n"@;
    let front = header(segments) + entries(base, session, segments);
    lemma_header_occurrences(segments);
    reveal_strlit("#EXT-X-ENDLIST\n");
    lemma_tag_line(footer);
    assert forall|k: char| k == '#' || k == '\n' implies #[trigger] occurrences(
        playlist(base, session, segments),
        k,
    ) == occurrences(header(segments), k) + occurrences(entries(base, session, segments), k)
        + occurrences(footer, k) by {
        lemma_occurrences_add(header(segments), entries(base, session, segments), k);
        lemma_occurrences_add(front, footer, k);
    }
    lemma_entries_occurrences(base, session, segments, '#', 1);
    lemma_entries_occurrences(base, session, segments, '\n', 2);
}

/// What occurs in two texts occurs in both together.
proof fn lemma_occurrences_add(s: Seq<char>, t: Seq<char>, c: char)
    ensures
        occurrences(s + t, c) == occurrences(s, c) + occurrences(t, c),
    decreases t.len(),
{
    if t.len() == 0 {
        assert(s + t =~= s);
    } else {
        lemma_occurrences_add(s, t.drop_last(), c);
        assert((s + t).drop_last() =~= s + t.drop_last());
        assert((s + t).last() == t.last());
    }
}

/// What is not there does not occur.
proof fn lemma_absent(s: Seq<char>, c: char)
    requires
        forall|i: int| 0 <= i < s.len() ==> s[i] != c,
    ensures
        occurrences(s, c) == 0,
    decreases s.len(),
{
    if s.len() > 0 {
        lemma_absent(s.drop_last(), c);
    }
}

/// One character occurs once in itself.
proof fn lemma_single(c: char, d: char)
    ensures
        occurrences(seq![c], d) == if c == d {
            1nat
        } else {
            0
        },
{
    assert(seq![c].drop_last() =~= Seq::<char>::empty());
    assert(occurrences(seq![c].drop_last(), d) == 0);
}

/// A tag counts once, and holds no line break.
proof fn lemma_tag(s: Seq<char>)
    requires
        s.len() > 0,
        s[0] == '#',
        forall|i: int| 0 < i < s.len() ==> s[i] != '#' && s[i] != '\n',
    ensures
        occurrences(s, '#') == 1,
        occurrences(s, '\n') == 0,
{
    let rest = s.skip(1);
    assert(s =~= seq!['#'] + rest);
    lemma_absent(rest, '#');
    lemma_absent(s, '\n');
    lemma_single('#', '#');
    lemma_occurrences_add(seq!['#'], rest, '#');
}

/// A tag on a line of its own counts once, and so does its line break.
proof fn lemma_tag_line(s: Seq<char>)
    requires
        s.len() > 1,
        s[0] == '#',
        s.last() == '\n',
        forall|i: int| 0 < i < s.len() - 1 ==> s[i] != '#' && s[i] != '\n',
    ensures
        occurrences(s, '#') == 1,
        occurrences(s, '\n') == 1,
{
    lemma_tag(s.drop_last());
}

/// A number in decimal holds digits only.
proof fn lemma_decimal_occurrences(n: nat, c: char)
    requires
        !is_digit(c),
    ensures
        occurrences(decimal(n), c) == 0,
{
    lemma_decimal_digits(n);
    assert forall|i: int| 0 <= i < decimal(n).len() implies decimal(n)[i] != c by {
        assert(is_digit(decimal(n)[i]));
    }
    lemma_absent(decimal(n), c);
}

/// A number with decimals holds digits, a point and perhaps a minus sign.
proof fn lemma_thousandths_occurrences(n: int, c: char)
    requires
        !is_digit(c),
        c != '-',
        c != '.',
    ensures
        occurrences(thousandths(n), c) == 0,
{
    let t = thousandths(n);
    let m = magnitude(n) as int;
    let d = decimal((m / 1000) as nat);
    lemma_decimal_digits((m / 1000) as nat);
    assert forall|i: int| 0 <= i < t.len() implies t[i] != c by {
        let sign: int = if n < 0 {
            1
        } else {
            0
        };
        if sign <= i < sign + d.len() {
            assert(t[i] == d[i - sign]);
            assert(is_digit(d[i - sign]));
        }
    }
    lemma_absent(t, c);
}

/// Four tags and five lines stand in front of the segments.
proof fn lemma_header_occurrences(segments: Seq<Segment>)
    ensures
        occurrences(header(segments), '#') == 4,
        occurrences(header(segments), '\n') == 5,
{
    let a = "#EXTM3U\n"@;
    let b = "#EXT-X-VERSION:3\n"@;
    let c = "#EXT-X-TARGETDURATION:"@;
    let d = decimal(target_duration(segments));
    let e = "#EXT-X-MEDIA-SEQUENCE:0\n"@;
    let nl = seq!['\n'];
    reveal_strlit("#EXTM3U\n");
    reveal_strlit("#EXT-X-VERSION:3\n");
    reveal_strlit("#EXT-X-TARGETDURATION:");
    reveal_strlit("#EXT-X-MEDIA-SEQUENCE:0\n");
    lemma_tag_line(a);
    lemma_tag_line(b);
    lemma_tag(c);
    lemma_tag_line(e);
    lemma_single('\n', '\n');
    lemma_single('\n', '#');
    lemma_decimal_occurrences(target_duration(segments), '#');
    lemma_decimal_occurrences(target_duration(segments), '\n');
    assert forall|k: char| k == '#' || k == '\n' implies #[trigger] occurrences(header(segments), k)
        == occurrences(a, k) + occurrences(b, k) + occurrences(c, k) + occurrences(d, k)
        + occurrences(nl, k) + occurrences(e, k) + occurrences(nl, k) by {
        lemma_occurrences_add(a, b, k);
        lemma_occurrences_add(a + b, c, k);
        lemma_occurrences_add(a + b + c, d, k);
        lemma_occurrences_add(a + b + c + d, nl, k);
        lemma_occurrences_add(a + b + c + d + nl, e, k);
        lemma_occurrences_add(a + b + c + d + nl + e, nl, k);
    }
}

/// What occurs `own` times in the lines of a segment, besides its address, occurs so
/// often for each segment.
proof fn lemma_entries_occurrences(
    base: Seq<char>,
    session: Seq<char>,
    segments: Seq<Segment>,
    c: char,
    own: nat,
)
    requires
        c == '#' && own == 1 || c == '\n' && own == 2,
    ensures
        occurrences(entries(base, session, segments), c) == segments.len() * (own + occurrences(
            base,
            c,
        ) + occurrences(session, c)),
    decreases segments.len(),
{
    let each = own + occurrences(base, c) + occurrences(session, c);
    let n = segments.len();
    if n > 0 {
        let rest = entries(base, session, segments.drop_last());
        let last = entry(base, session, segments.last());
        lemma_entries_occurrences(base, session, segments.drop_last(), c, own);
        lemma_entry_occurrences(base, session, segments.last());
        lemma_occurrences_add(rest, last, c);
        assert((n - 1) * each + each == n * each) by (nonlinear_arith);
    } else {
        assert(n * each == 0) by (nonlinear_arith)
            requires
                n == 0,
        ;
    }
}

/// One tag and two lines stand for a segment, besides what its address brings.
proof fn lemma_entry_occurrences(base: Seq<char>, session: Seq<char>, segment: Segment)
    ensures
        occurrences(entry(base, session, segment), '#') == 1 + occurrences(base, '#')
            + occurrences(session, '#'),
        occurrences(entry(base, session, segment), '\n') == 2 + occurrences(base, '\n')
            + occurrences(session, '\n'),
{
    let a = "#EXTINF:"@;
    let b = thousandths(segment.duration_ms as int);
    let c = ",\n"@;
    let slash = seq!['/'];
    let d = decimal(segment.index as nat);
    let nl = seq!['\n'];
    reveal_strlit("#EXTINF:");
    reveal_strlit(",\n");
    lemma_tag(a);
    assert(c =~= seq![','] + nl);
    lemma_single(',', '#');
    lemma_single(',', '\n');
    lemma_single('/', '#');
    lemma_single('/', '\n');
    lemma_single('\n', '#');
    lemma_single('\n', '\n');
    assert forall|k: char| k == '#' || k == '\n' implies #[trigger] occurrences(
        entry(base, session, segment),
        k,
    ) == occurrences(a, k) + 2 * occurrences(nl, k) + occurrences(base, k) + occurrences(
        session,
        k,
    ) by {
        let url = segment_url(base, session, segment.index as nat);
        lemma_thousandths_occurrences(segment.duration_ms as int, k);
        lemma_decimal_occurrences(segment.index as nat, k);
        lemma_occurrences_add(seq![','], nl, k);
        lemma_occurrences_add(base, slash, k);
        lemma_occurrences_add(base + slash, session, k);
        lemma_occurrences_add(base + slash + session, slash, k);
        lemma_occurrences_add(base + slash + session + slash, d, k);
        lemma_occurrences_add(a, b, k);
        lemma_occurrences_add(a + b, c, k);
        lemma_occurrences_add(a + b + c, url, k);
        lemma_occurrences_add(a + b + c + url, nl, k);
    }
}

} // verus!
