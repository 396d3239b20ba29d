//! Sessions: what a viewer asks for, and what is answered.
//!
//! A session binds a viewer to a video. It is kept as a list of named fields
//! under `session:{id}` until some time after the end of the video, and every
//! segment is rendered from what it holds.

use crate::m3u8::{
    entries, entry, header, law_every_segment_listed, law_playlist_fits, planned_size, playlist,
    segment_url, M3u8Builder, CONTENT_TYPE,
};
use crate::segmentation::{compute_segments, is_segmentation, Segment};
use crate::text::{
    chars_of, decimal, hex, hex_char, is_digit, law_decimal_reads_back, law_trim_end,
    law_ts_is_taken_out, lemma_decimal_digits, lemma_without_ts_keeps, parse_unsigned,
    push_decimal, push_hex, strip_ts, thousandths, trim_end, trim_end_char, unsigned_value,
    without_ts,
};
use crate::video_metadata::{ascending, keyframes_at, meta_at, Keyframes, VideoMeta};
use std::collections::hash_map::DefaultHasher;
use std::hash::{Hash, Hasher};
use vstd::prelude::*;
use vstd::std_specs::hash::DefaultHasherAdditionalSpecFns;
use vstd::utf8::encode_utf8;

verus! {

/// What a request is refused with: an HTTP status and a text.
#[derive(Debug, Clone)]
pub struct AppError {
    pub status: u16,
    pub message: String,
}

impl AppError {
    /// Whether the answer is that something is not there, in the words of `message`.
    pub open spec fn is_not_found(self, message: Seq<char>) -> bool {
        self.status == 404 && self.message@ == message
    }

    /// The answer that something is not there has the status 404 and says what.
    pub proof fn law_not_found(self, message: Seq<char>)
        ensures
            self.is_not_found(message) <==> self.status == 404 && self.message@ == message,
    {
    }

    /// The answer that something is not there.
    pub fn not_found(msg: &str) -> (e: Self)
        ensures
            e.is_not_found(msg@),
    {
        AppError { status: 404, message: msg.to_owned() }
    }

    /// The answer that something went wrong here.
    pub fn internal(message: String) -> (e: Self)
        ensures
            e.status == 500,
            e.message == message,
    {
        AppError { status: 500, message }
    }
}

// ---------------------------------------------------------------------------
// Session ids
// ---------------------------------------------------------------------------

/// What a `DefaultHasher` has been fed once `s` follows what it was fed before.
pub uninterp spec fn fed(before: Seq<Seq<u8>>, s: Seq<char>) -> Seq<Seq<u8>>;

/// `<str as Hash>::hash` of std, on a `DefaultHasher`: what the hasher has been fed
/// afterwards depends on what it was fed before and on the characters of `s` alone.
/// Which bytes it is fed is left unsaid, since std promises none.
#[verifier::external_body]
fn feed(h: &mut DefaultHasher, s: &str)
    ensures
        final(h)@ == fed(old(h)@, s@),
{
    s.hash(h);
}

/// The hash of a viewer and a video.
pub open spec fn session_hash(viewer_id: Seq<char>, video_key: Seq<char>) -> u64 {
    DefaultHasher::spec_finish(fed(fed(seq![], viewer_id), video_key))
}

/// A session id stands for viewer and video together: two sessions share it exactly when
/// a hasher that is given the viewer and then the video comes to the same number for both.
pub proof fn law_session_id_stands_for_both(
    viewer_id: Seq<char>,
    video_key: Seq<char>,
    other_viewer: Seq<char>,
    other_video: Seq<char>,
)
    ensures
        hex(session_hash(viewer_id, video_key) as nat, 16) == hex(
            session_hash(other_viewer, other_video) as nat,
            16,
        ) <==> DefaultHasher::spec_finish(fed(fed(seq![], viewer_id), video_key))
            == DefaultHasher::spec_finish(fed(fed(seq![], other_viewer), other_video)),
{
    let (one, other) = (
        session_hash(viewer_id, video_key),
        session_hash(other_viewer, other_video),
    );
    if hex(one as nat, 16) == hex(other as nat, 16) {
        law_session_ids_differ(one, other);
    }
}

/// A hash as a session id: sixteen hexadecimal digits, in lower case.
pub fn format_session_id(hash: u64) -> (id: String)
    ensures
        id@ == hex(hash as nat, 16),
{
    let mut id = String::new();
    push_hex(&mut id, hash, 16);
    id
}

/// The id of the session of a viewer on a video. It is the same each time the same
/// viewer asks for the same video, so that the addresses of their segments are, too.
/// It depends on these two alone: no key goes into the hash.
pub fn make_session_id(viewer_id: &str, video_key: &str) -> (id: String)
    ensures
        id@ == hex(session_hash(viewer_id@, video_key@) as nat, 16),
{
    let mut h = DefaultHasher::new();
    feed(&mut h, viewer_id);
    feed(&mut h, video_key);
    format_session_id(h.finish())
}

/// The key under which a session is kept.
pub open spec fn session_at(session_id: Seq<char>) -> Seq<char> {
    "session:"@ + session_id
}

/// The key under which a session is kept.
pub fn session_key(session_id: &str) -> (s: String)
    ensures
        s@ == session_at(session_id@),
{
    let mut s = "session:".to_owned();
    s.append(session_id);
    s
}

/// Sixteen to the power of `width`.
pub open spec fn hex_limit(width: nat) -> nat
    decreases width,
{
    if width == 0 {
        1
    } else {
        16 * hex_limit((width - 1) as nat)
    }
}

/// A session id has as many characters as it is asked for, each of them a
/// hexadecimal digit in lower case.
pub proof fn law_session_id_digits(hash: nat, width: nat)
    ensures
        hex(hash, width).len() == width,
        forall|i: int|
            0 <= i < width ==> {
                let c = #[trigger] hex(hash, width)[i];
                '0' <= c <= '9' || 'a' <= c <= 'f'
            },
    decreases width,
{
    if width > 0 {
        law_session_id_digits(hash / 16, (width - 1) as nat);
        let front = hex(hash / 16, (width - 1) as nat);
        assert forall|i: int| 0 <= i < width implies {
            let c = #[trigger] hex(hash, width)[i];
            '0' <= c <= '9' || 'a' <= c <= 'f'
        } by {
            if i < width - 1 {
                assert(hex(hash, width)[i] == front[i]);
            }
        }
    }
}

/// The number that hexadecimal digits in lower case write.
pub open spec fn hex_value(s: Seq<char>) -> nat
    decreases s.len(),
{
    if s.len() == 0 {
        0
    } else {
        let c = s.last() as int;
        let digit = if c <= '9' as int {
            c - '0' as int
        } else {
            c - 'a' as int + 10
        };
        16 * hex_value(s.drop_last()) + digit as nat
    }
}

/// A session id in hexadecimal is read back as its hash.
pub proof fn law_session_id_reads_back(hash: u64)
    ensures
        hex(hash as nat, 16).len() == 16,
        hex_value(hex(hash as nat, 16)) == hash,
{
    assert(hex_limit(16) == 0x1_0000_0000_0000_0000) by {
        reveal_with_fuel(hex_limit, 17);
    }
    law_session_id_digits(hash as nat, 16);
    lemma_hex_value(hash as nat, 16);
}

/// A number that fits is read back from its digits.
proof fn lemma_hex_value(n: nat, width: nat)
    requires
        n < hex_limit(width),
    ensures
        hex_value(hex(n, width)) == n,
    decreases width,
{
    if width > 0 {
        let w = (width - 1) as nat;
        lemma_hex_value(n / 16, w);
        assert(hex(n, width).drop_last() =~= hex(n / 16, w));
        assert(hex(n, width).last() == hex_char((n % 16) as int));
    }
}

/// Two hashes give two session ids: an id loses nothing of its hash.
pub proof fn law_session_ids_differ(one: u64, other: u64)
    requires
        hex(one as nat, 16) == hex(other as nat, 16),
    ensures
        one == other,
{
    assert(hex_limit(16) == 0x1_0000_0000_0000_0000) by {
        reveal_with_fuel(hex_limit, 17);
    }
    lemma_hex_differs(one as nat, other as nat, 16);
}

/// Numbers that fit are told apart by their digits.
proof fn lemma_hex_differs(one: nat, other: nat, width: nat)
    requires
        one < hex_limit(width),
        other < hex_limit(width),
        hex(one, width) == hex(other, width),
    ensures
        one == other,
    decreases width,
{
    if width > 0 {
        let w = (width - 1) as nat;
        let a = hex(one, width);
        let b = hex(other, width);
        assert(a.drop_last() =~= hex(one / 16, w));
        assert(b.drop_last() =~= hex(other / 16, w));
        assert(a.last() == hex_char((one % 16) as int));
        assert(b.last() == hex_char((other % 16) as int));
        assert(one % 16 == other % 16);
        lemma_hex_differs(one / 16, other / 16, w);
    }
}

// ---------------------------------------------------------------------------
// Creating a session
// ---------------------------------------------------------------------------

/// A viewer asks for a video.
#[derive(Debug, Clone)]
pub struct CreateSessionRequest {
    pub video_key: String,
    pub viewer_id: String,
    pub firstname: String,
    pub lastname: String,
    pub presign_url: String,
}

/// The length that segments aim at.
pub const SEGMENT_TARGET_MS: i64 = 4000;

/// How long a session is kept behind the end of its video, in seconds: an hour.
pub const SESSION_GRACE_SECS: u64 = 3600;

/// What a session is to be.
#[derive(Debug, Clone)]
pub struct SessionPlan {
    pub session_id: String,
    pub session_key: String,
    pub segments: Vec<Segment>,
    pub ttl_secs: u64,
}

/// A video is known once its format is.
pub fn known_video(meta: Option<VideoMeta>) -> (r: Result<VideoMeta, AppError>)
    ensures
        match meta {
            Some(m) => r == Ok::<_, AppError>(m),
            None => r matches Err(e) && e.is_not_found(
                "vidéo non trouvée — lance d'abord POST /metadata"@,
            ),
        },
{
    match meta {
        Some(m) => Ok(m),
        None => Err(AppError::not_found("vidéo non trouvée — lance d'abord POST /metadata")),
    }
}

/// A video can be cut once its keyframes are known.
pub fn known_keyframes(keyframes: Option<Keyframes>) -> (r: Result<Keyframes, AppError>)
    ensures
        match keyframes {
            Some(k) => r == Ok::<_, AppError>(k),
            None => r matches Err(e) && e.is_not_found("keyframes manquants"@),
        },
{
    match keyframes {
        Some(k) => Ok(k),
        None => Err(AppError::not_found("keyframes manquants")),
    }
}

/// Timestamps on the timeline on which a video is cut.
pub open spec fn timeline(timestamps: Seq<u32>) -> Seq<i64> {
    timestamps.map_values(|t: u32| t as i64)
}

/// Every keyframe is placed, at its own time.
pub proof fn law_timeline(timestamps: Seq<u32>)
    ensures
        timeline(timestamps).len() == timestamps.len(),
        forall|i: int|
            0 <= i < timestamps.len() ==> #[trigger] timeline(timestamps)[i] == timestamps[i],
{
}

/// Keyframes on the timeline on which a video is cut.
fn place_keyframes(keyframes: &Keyframes) -> (v: Vec<i64>)
    ensures
        v@ == timeline(keyframes.timestamps_ms@),
{
    let mut v: Vec<i64> = Vec::new();
    let mut i: usize = 0;
    while i < keyframes.timestamps_ms.len()
        invariant
            0 <= i <= keyframes.timestamps_ms@.len(),
            v@ == timeline(keyframes.timestamps_ms@).take(i as int),
        decreases keyframes.timestamps_ms@.len() - i,
    {
        v.push(keyframes.timestamps_ms[i] as i64);
        i = i + 1;
        assert(v@ =~= timeline(keyframes.timestamps_ms@).take(i as int));
    }
    assert(v@ =~= timeline(keyframes.timestamps_ms@));
    v
}

/// Plans the session of a viewer on a video: its id, the segments of the video, and
/// how long it is kept.
pub fn plan_session(req: &CreateSessionRequest, meta: &VideoMeta, keyframes: &Keyframes) -> (plan:
    SessionPlan)
    requires
        meta.duration_ms > 0 ==> ascending(keyframes.timestamps_ms@),
    ensures
        plan.session_id@ == hex(session_hash(req.viewer_id@, req.video_key@) as nat, 16),
        plan.session_key@ == session_at(plan.session_id@),
        meta.duration_ms == 0 || keyframes.timestamps_ms@.len() == 0 ==> plan.segments@.len() == 0,
        meta.duration_ms > 0 && keyframes.timestamps_ms@.len() > 0 ==> is_segmentation(
            timeline(keyframes.timestamps_ms@),
            meta.duration_ms as int,
            4000,
            plan.segments@,
        ),
        plan.ttl_secs == meta.duration_ms / 1000 + 3600,
{
    let session_id = make_session_id(req.viewer_id.as_str(), req.video_key.as_str());
    let session_key = session_key(session_id.as_str());
    let keyframes_ms = place_keyframes(keyframes);
    let segments = compute_segments(
        keyframes_ms.as_slice(),
        meta.duration_ms as i64,
        SEGMENT_TARGET_MS,
    );
    let ttl_secs: u64 = meta.duration_ms as u64 / 1000 + SESSION_GRACE_SECS;
    SessionPlan { session_id, session_key, segments, ttl_secs }
}

/// The names and values of a list of fields.
pub open spec fn fields(v: Seq<(String, String)>) -> Seq<(Seq<char>, Seq<char>)> {
    v.map_values(|f: (String, String)| (f.0@, f.1@))
}

/// A list of fields has the names and values of each, in their order.
pub proof fn law_fields(v: Seq<(String, String)>)
    ensures
        fields(v).len() == v.len(),
        forall|i: int| 0 <= i < v.len() ==> #[trigger] fields(v)[i] == (v[i].0@, v[i].1@),
{
}

/// What is kept of a session.
pub open spec fn session_fields(req: CreateSessionRequest, segments_json: Seq<char>) -> Seq<
    (Seq<char>, Seq<char>),
> {
    seq![
        ("video_key"@, req.video_key@),
        ("viewer_id"@, req.viewer_id@),
        ("firstname"@, req.firstname@),
        ("lastname"@, req.lastname@),
        ("presign_url"@, req.presign_url@),
        ("segments"@, segments_json),
    ]
}

/// What is kept of a session: the request, and its segments as JSON.
pub fn session_entries(req: &CreateSessionRequest, segments_json: &str) -> (v: Vec<
    (String, String),
>)
    ensures
        fields(v@) == session_fields(*req, segments_json@),
{
    let v = vec![
        ("video_key".to_owned(), req.video_key.clone()),
        ("viewer_id".to_owned(), req.viewer_id.clone()),
        ("firstname".to_owned(), req.firstname.clone()),
        ("lastname".to_owned(), req.lastname.clone()),
        ("presign_url".to_owned(), req.presign_url.clone()),
        ("segments".to_owned(), segments_json.to_owned()),
    ];
    assert(fields(v@) =~= session_fields(*req, segments_json@));
    v
}

// ---------------------------------------------------------------------------
// The playlist of a session
// ---------------------------------------------------------------------------

/// A session is known as long as its segments are kept.
pub fn known_session(segments_json: Option<String>) -> (r: Result<String, AppError>)
    ensures
        match segments_json {
            Some(json) => r == Ok::<_, AppError>(json),
            None => r matches Err(e) && e.is_not_found("session inconnue ou expirée"@),
        },
{
    match segments_json {
        Some(json) => Ok(json),
        None => Err(AppError::not_found("session inconnue ou expirée")),
    }
}

/// What the addresses of segments begin with: `/segment`, behind the address that
/// is asked for, if any, without the slashes at its end.
pub open spec fn url_base(base_url: Option<Seq<char>>) -> Seq<char> {
    match base_url {
        Some(base) => trim_end(base, '/') + "/segment"@,
        None => "/segment"@,
    }
}

/// Addresses begin with what is asked for, and `/segment` behind it, however many slashes
/// stand at its end; or with `/segment` where nothing is asked for.
pub proof fn law_slashes_do_not_count(base: Seq<char>, slashes: nat)
    requires
        base.len() > 0 ==> base.last() != '/',
    ensures
        url_base(Some(base + Seq::new(slashes, |i: int| '/'))) == base + "/segment"@,
        url_base(None) == "/segment"@,
{
    law_trim_end(base, '/', slashes);
}

/// What the addresses of segments begin with.
pub fn segment_base_for(base_url: Option<&str>) -> (s: String)
    ensures
        s@ == url_base(
            match base_url {
                Some(base) => Some(base@),
                None => None,
            },
        ),
{
    match base_url {
        Some(base) => {
            let mut s = trim_end_char(base, '/');
            s.append("/segment");
            s
        },
        None => "/segment".to_owned(),
    }
}

/// The playlist of a session, with addresses under `base_url`, if it is given.
pub fn session_playlist(session_id: &str, segments: &[Segment], base_url: Option<&str>) -> (s:
    String)
    ensures
        s@ == playlist(
            url_base(
                match base_url {
                    Some(base) => Some(base@),
                    None => None,
                },
            ),
            session_id@,
            segments@,
        ),
{
    let base = segment_base_for(base_url);
    M3u8Builder::new(session_id, segments).segment_base(base.as_str()).build()
}

/// The headers that go with a playlist. It belongs to one viewer, and is not kept.
pub fn playlist_headers() -> (v: Vec<(String, String)>)
    ensures
        fields(v@) == seq![
            ("content-type"@, "application/vnd.apple.mpegurl"@),
            ("cache-control"@, "private, no-cache"@),
            ("access-control-allow-origin"@, "*"@),
            ("access-control-allow-methods"@, "GET, OPTIONS"@),
        ],
{
    let v = vec![
        ("content-type".to_owned(), CONTENT_TYPE.to_owned()),
        ("cache-control".to_owned(), "private, no-cache".to_owned()),
        ("access-control-allow-origin".to_owned(), "*".to_owned()),
        ("access-control-allow-methods".to_owned(), "GET, OPTIONS".to_owned()),
    ];
    assert(fields(v@) =~= seq![
        ("content-type"@, "application/vnd.apple.mpegurl"@),
        ("cache-control"@, "private, no-cache"@),
        ("access-control-allow-origin"@, "*"@),
        ("access-control-allow-methods"@, "GET, OPTIONS"@),
    ]);
    v
}

// ---------------------------------------------------------------------------
// A segment of a session
// ---------------------------------------------------------------------------

/// The segment that the last part of an address asks for: a number, with or
/// without the extension `.ts`.
pub open spec fn asked_segment(index_with_ext: Seq<char>) -> Option<nat> {
    unsigned_value(without_ts(index_with_ext), usize::MAX as nat)
}

/// The extension does not count, wherever it stands: the segment that is asked for is the
/// number that is left without it, if that is a number of the machine's size.
pub proof fn law_extension_does_not_count(front: Seq<char>, back: Seq<char>)
    requires
        forall|i: int|
            0 <= i < front.len() - 2 ==> !(#[trigger] front[i] == '.' && front[i + 1] == 't'
                && front[i + 2] == 's'),
        forall|i: int|
            0 <= i < back.len() - 2 ==> !(#[trigger] back[i] == '.' && back[i + 1] == 't' && back[i
                + 2] == 's'),
    ensures
        asked_segment(front) == unsigned_value(front, usize::MAX as nat),
        asked_segment(front + seq!['.', 't', 's'] + back) == unsigned_value(
            front + back,
            usize::MAX as nat,
        ),
{
    law_ts_is_taken_out(front, back);
    law_ts_is_taken_out(back, Seq::empty());
}

/// Reads the last part of the address of a segment.
pub fn parse_segment_index(index_with_ext: &str) -> (r: Result<usize, AppError>)
    ensures
        match asked_segment(index_with_ext@) {
            Some(i) => r matches Ok(index) && index == i,
            None => r matches Err(e) && e.is_not_found("Index invalide"@),
        },
{
    let text = strip_ts(index_with_ext);
    match parse_unsigned(text.as_slice(), usize::MAX as u64) {
        Some(i) => Ok(i as usize),
        None => Err(AppError::not_found("Index invalide")),
    }
}

/// What a segment is rendered from.
#[derive(Debug, Clone)]
pub struct SegmentSource {
    pub firstname: String,
    pub lastname: String,
    pub presign_url: String,
    pub segments_json: String,
}

/// The value of the field `name`, if there is one.
pub open spec fn field(entries: Seq<(Seq<char>, Seq<char>)>, name: Seq<char>) -> Option<Seq<char>>
    decreases entries.len(),
{
    if entries.len() == 0 {
        None
    } else if entries[0].0 == name {
        Some(entries[0].1)
    } else {
        field(entries.skip(1), name)
    }
}

/// The value of a field is that of the first one of its name. Where none has that name,
/// there is no value.
pub proof fn law_field_is_the_first_of_its_name(
    entries: Seq<(Seq<char>, Seq<char>)>,
    name: Seq<char>,
)
    ensures
        field(entries, name) is None <==> forall|i: int|
            0 <= i < entries.len() ==> (#[trigger] entries[i]).0 != name,
        field(entries, name) matches Some(value) ==> exists|i: int|
            0 <= i < entries.len() && #[trigger] entries[i] == (name, value) && forall|j: int|
                0 <= j < i ==> (#[trigger] entries[j]).0 != name,
    decreases entries.len(),
{
    if entries.len() > 0 {
        if entries[0].0 == name {
            assert(entries[0] == (name, entries[0].1));
        } else {
            let rest = entries.skip(1);
            law_field_is_the_first_of_its_name(rest, name);
            match field(rest, name) {
                Some(value) => {
                    let i = choose|i: int|
                        0 <= i < rest.len() && #[trigger] rest[i] == (name, value) && forall|j: int|
                            0 <= j < i ==> (#[trigger] rest[j]).0 != name;
                    assert(entries[i + 1] == (name, value));
                    assert forall|j: int| 0 <= j < i + 1 implies (#[trigger] entries[j]).0
                        != name by {
                        if j > 0 {
                            assert(rest[j - 1] == entries[j]);
                        }
                    }
                },
                None => {
                    assert forall|j: int| 0 <= j < entries.len() implies (#[trigger] entries[j]).0
                        != name by {
                        if j > 0 {
                            assert(rest[j - 1] == entries[j]);
                        }
                    }
                },
            }
        }
    }
}

/// The value of the field `name`, if there is one.
fn find_field(entries: &[(String, String)], name: &str) -> (r: Option<String>)
    ensures
        r is Some <==> field(fields(entries@), name@) is Some,
        r matches Some(s) ==> field(fields(entries@), name@) == Some(s@),
{
    let name_owned = name.to_owned();
    let ghost all = fields(entries@);
    let mut i: usize = 0;
    assert(all.skip(0) =~= all);
    while i < entries.len()
        invariant
            0 <= i <= entries@.len(),
            all == fields(entries@),
            name_owned@ == name@,
            field(all.skip(i as int), name@) == field(all, name@),
        decreases entries@.len() - i,
    {
        assert(all.skip(i as int)[0] == (entries@[i as int].0@, entries@[i as int].1@));
        if entries[i].0 == name_owned {
            return Some(entries[i].1.clone());
        }
        assert(all.skip(i as int).skip(1) =~= all.skip(i + 1));
        i = i + 1;
    }
    None
}

/// What a segment request is refused with, given what was found of the session:
/// nothing at all where it could not be looked up.
pub open spec fn refusal(found: Option<Seq<(Seq<char>, Seq<char>)>>) -> Option<Seq<char>> {
    match found {
        None => Some("session inconnue ou expirée"@),
        Some(entries) => if entries.len() == 0 {
            Some("session introuvable"@)
        } else if field(entries, "firstname"@) is None {
            Some("firstname manquant"@)
        } else if field(entries, "lastname"@) is None {
            Some("lastname manquant"@)
        } else if field(entries, "presign_url"@) is None {
            Some("presign_url manquante"@)
        } else if field(entries, "segments"@) is None {
            Some("segments manquants"@)
        } else {
            None
        },
    }
}

/// Whether one of the fields has the name `name`.
pub open spec fn has_field(entries: Seq<(Seq<char>, Seq<char>)>, name: Seq<char>) -> bool {
    exists|i: int| 0 <= i < entries.len() && (#[trigger] entries[i]).0 == name
}

/// A request is granted exactly when both names, the address and the segments are there.
/// What is missing is said: the first of them, or that there is no session.
pub proof fn law_what_is_missing_is_said(entries: Seq<(Seq<char>, Seq<char>)>)
    ensures
        refusal(None) == Some("session inconnue ou expirée"@),
        entries.len() == 0 ==> refusal(Some(entries)) == Some("session introuvable"@),
        entries.len() > 0 ==> refusal(Some(entries)) == if !has_field(entries, "firstname"@) {
            Some("firstname manquant"@)
        } else if !has_field(entries, "lastname"@) {
            Some("lastname manquant"@)
        } else if !has_field(entries, "presign_url"@) {
            Some("presign_url manquante"@)
        } else if !has_field(entries, "segments"@) {
            Some("segments manquants"@)
        } else {
            None
        },
{
    law_field_is_the_first_of_its_name(entries, "firstname"@);
    law_field_is_the_first_of_its_name(entries, "lastname"@);
    law_field_is_the_first_of_its_name(entries, "presign_url"@);
    law_field_is_the_first_of_its_name(entries, "segments"@);
}

/// What the segments of a session are rendered from, given the fields that were
/// found of it.
pub fn session_source(found: Option<Vec<(String, String)>>) -> (r: Result<SegmentSource, AppError>)
    ensures
        ({
            let f = match found {
                Some(v) => Some(fields(v@)),
                None => None,
            };
            match refusal(f) {
                Some(message) => r matches Err(e) && e.is_not_found(message),
                None => r matches Ok(s) && {
                    &&& Some(s.firstname@) == field(f.unwrap(), "firstname"@)
                    &&& Some(s.lastname@) == field(f.unwrap(), "lastname"@)
                    &&& Some(s.presign_url@) == field(f.unwrap(), "presign_url"@)
                    &&& Some(s.segments_json@) == field(f.unwrap(), "segments"@)
                },
            }
        }),
{
    let entries = match found {
        Some(v) => v,
        None => return Err(AppError::not_found("session inconnue ou expirée")),
    };
    if entries.len() == 0 {
        return Err(AppError::not_found("session introuvable"));
    }
    let firstname = match find_field(entries.as_slice(), "firstname") {
        Some(s) => s,
        None => return Err(AppError::not_found("firstname manquant")),
    };
    let lastname = match find_field(entries.as_slice(), "lastname") {
        Some(s) => s,
        None => return Err(AppError::not_found("lastname manquant")),
    };
    let presign_url = match find_field(entries.as_slice(), "presign_url") {
        Some(s) => s,
        None => return Err(AppError::not_found("presign_url manquante")),
    };
    let segments_json = match find_field(entries.as_slice(), "segments") {
        Some(s) => s,
        None => return Err(AppError::not_found("segments manquants")),
    };
    Ok(SegmentSource { firstname, lastname, presign_url, segments_json })
}

/// The segment that is asked for, if the session has it.
pub fn select_segment(segments: &[Segment], index: usize) -> (r: Result<Segment, AppError>)
    ensures
        index < segments@.len() ==> r == Ok::<_, AppError>(segments@[index as int]),
        index >= segments@.len() ==> (r matches Err(e) && e.is_not_found(
            "segment "@ + decimal(index as nat) + " inexistant"@,
        )),
{
    if index < segments.len() {
        return Ok(segments[index]);
    }
    let mut message = "segment ".to_owned();
    push_decimal(&mut message, index as u64);
    message.append(" inexistant");
    Err(AppError::not_found(message.as_str()))
}

/// The headers that go with a segment. It never changes, and may be kept for a day.
pub fn segment_headers() -> (v: Vec<(String, String)>)
    ensures
        fields(v@) == seq![
            ("content-type"@, "video/mp2t"@),
            ("cache-control"@, "public, max-age=86400, immutable"@),
            ("access-control-allow-origin"@, "*"@),
            ("access-control-allow-methods"@, "GET, OPTIONS"@),
        ],
{
    let v = vec![
        ("content-type".to_owned(), "video/mp2t".to_owned()),
        ("cache-control".to_owned(), "public, max-age=86400, immutable".to_owned()),
        ("access-control-allow-origin".to_owned(), "*".to_owned()),
        ("access-control-allow-methods".to_owned(), "GET, OPTIONS".to_owned()),
    ];
    assert(fields(v@) =~= seq![
        ("content-type"@, "video/mp2t"@),
        ("cache-control"@, "public, max-age=86400, immutable"@),
        ("access-control-allow-origin"@, "*"@),
        ("access-control-allow-methods"@, "GET, OPTIONS"@),
    ]);
    v
}

/// What was kept of a session is what its segments are rendered from: the names,
/// the address of the video and the segments come back as they were, and so do viewer
/// and video.
pub proof fn law_session_reads_back(req: CreateSessionRequest, segments_json: Seq<char>)
    ensures
        ({
            let kept = session_fields(req, segments_json);
            &&& refusal(Some(kept)) is None
            &&& field(kept, "firstname"@) == Some(req.firstname@)
            &&& field(kept, "lastname"@) == Some(req.lastname@)
            &&& field(kept, "presign_url"@) == Some(req.presign_url@)
            &&& field(kept, "segments"@) == Some(segments_json)
            &&& field(kept, "video_key"@) == Some(req.video_key@)
            &&& field(kept, "viewer_id"@) == Some(req.viewer_id@)
        }),
{
    reveal_strlit("video_key");
    reveal_strlit("viewer_id");
    reveal_strlit("firstname");
    reveal_strlit("lastname");
    reveal_strlit("presign_url");
    reveal_strlit("segments");
    let kept = session_fields(req, segments_json);
    assert("video_key"@[0] == 'v');
    assert("viewer_id"@[0] == 'v');
    assert("video_key"@[2] == 'd' && "viewer_id"@[2] == 'e');
    assert("firstname"@[0] == 'f');
    assert("lastname"@[0] == 'l');
    assert("presign_url"@[0] == 'p');
    assert("segments"@[0] == 's');
    reveal_with_fuel(field, 7);
}

/// An address in a playlist asks for the segment that it stands for, whether the
/// extension `.ts` is added to it or not.
pub proof fn law_address_reads_back(index: nat)
    requires
        index <= usize::MAX,
    ensures
        asked_segment(decimal(index)) == Some(index),
        asked_segment(decimal(index) + ".ts"@) == Some(index),
{
    let d = decimal(index);
    lemma_decimal_digits(index);
    assert forall|i: int| 0 <= i < d.len() implies d[i] != '.' by {
        assert(is_digit(d[i]));
    }
    lemma_without_ts_keeps(d);
    reveal_strlit(".ts");
    assert(".ts"@ =~= seq!['.', 't', 's']);
    law_decimal_reads_back(index, usize::MAX as nat);
}

/// What is held ready for the playlist of a session is enough, with addresses that
/// begin with `/segment`, indices below a thousand million and durations below a
/// thousand million seconds.
pub proof fn law_session_playlist_fits(hash: nat, segments: Seq<Segment>)
    requires
        forall|i: int|
            0 <= i < segments.len() ==> {
                let s = #[trigger] segments[i];
                s.index < 1_000_000_000 && 0 <= s.duration_ms < 1_000_000_000_000
            },
    ensures
        encode_utf8(playlist("/segment"@, hex(hash, 16), segments)).len() <= planned_size(
            segments.len(),
        ),
{
    reveal_strlit("/segment");
    law_session_id_digits(hash, 16);
    law_playlist_fits("/segment"@, hex(hash, 16), segments);
}

/// Sessions and videos are kept apart: no session has the key of another one, or one
/// of those of a video.
pub proof fn law_sessions_kept_apart(session: Seq<char>, other: Seq<char>, video: Seq<char>)
    ensures
        session_at(session) == session_at(other) ==> session == other,
        session_at(session) != meta_at(video),
        session_at(session) != keyframes_at(video),
        "session:"@.is_prefix_of(session_at(session)),
        session_at(session).skip("session:"@.len() as int) == session,
{
    assert(session_at(session).subrange(0, "session:"@.len() as int) =~= "session:"@);
    assert(session_at(session).skip("session:"@.len() as int) =~= session);
    let from = "session:"@.len() as int;
    if session_at(session) == session_at(other) {
        assert(session =~= session_at(session).skip(from));
        assert(other =~= session_at(other).skip(from));
    }
    reveal_strlit("session:");
    reveal_strlit("video:");
    assert(session_at(session)[0] == 's');
    assert(meta_at(video)[0] == 'v');
    assert(keyframes_at(video)[0] == 'v');
}

/// Every address in the playlist of a video leads to its own segment: it stands in
/// the playlist behind the duration of that segment, and what follows base and
/// session in it asks for that segment.
pub proof fn law_listed_address_leads_to_segment(
    keyframes: Seq<i64>,
    duration: int,
    target: int,
    segments: Seq<Segment>,
    base: Seq<char>,
    session: Seq<char>,
    i: int,
)
    requires
        is_segmentation(keyframes, duration, target, segments),
        0 <= i < segments.len(),
    ensures
        ({
            let p = playlist(base, session, segments);
            let line = "#EXTINF:"@ + thousandths(segments[i].duration_ms as int) + ",\n"@;
            let url = segment_url(base, session, segments[i].index as nat);
            let from = header(segments).len() + entries(base, session, segments.take(i)).len();
            let at = from + line.len();
            let to = at + url.len();
            &&& to < p.len()
            &&& p.subrange(from as int, at as int) == line
            &&& p.subrange(at as int, to as int) == url
            &&& p[to as int] == '\n'
            &&& asked_segment(url.skip((base.len() + session.len() + 2) as int)) == Some(i as nat)
        }),
{
    let p = playlist(base, session, segments);
    let line = "#EXTINF:"@ + thousandths(segments[i].duration_ms as int) + ",\n"@;
    let index = segments[i].index as nat;
    let url = segment_url(base, session, index);
    let both = entry(base, session, segments[i]);
    let from = header(segments).len() + entries(base, session, segments.take(i)).len();
    let at = from + line.len();
    let to = at + url.len();
    law_every_segment_listed(base, session, segments, i);
    let part = p.subrange(from as int, (from + both.len()) as int);
    assert(p.subrange(from as int, at as int) =~= part.take(line.len() as int));
    assert(both.take(line.len() as int) =~= line);
    assert(p.subrange(at as int, to as int) =~= part.subrange(
        line.len() as int,
        (line.len() + url.len()) as int,
    ));
    assert(both.subrange(line.len() as int, (line.len() + url.len()) as int) =~= url);
    assert(p[to as int] == part[(line.len() + url.len()) as int]);
    assert(url.skip((base.len() + session.len() + 2) as int) =~= decimal(index));
    law_address_reads_back(index);
}

// ---------------------------------------------------------------------------
// The service itself
// ---------------------------------------------------------------------------

/// Whether the service is in order: the store answers `PONG`. The number of free
/// slots for rendering is told as well.
pub fn health_report(reply: Option<&str>, slots: usize) -> (r: (u16, String))
    ensures
        reply matches Some(s) && s@ == "PONG"@ ==> r.0 == 200 && r.1@
            == "ok — ffmpeg slots disponibles: "@ + decimal(slots as nat),
        !(reply matches Some(s) && s@ == "PONG"@) ==> r.0 == 503 && r.1@ == "redis unreachable"@,
{
    let pong = "PONG".to_owned();
    let ok = match reply {
        Some(s) => s.to_owned() == pong,
        None => false,
    };
    if ok {
        let mut body = "ok — ffmpeg slots disponibles: ".to_owned();
        push_decimal(&mut body, slots as u64);
        (200, body)
    } else {
        (503, "redis unreachable".to_owned())
    }
}

/// How many segments are rendered at the same time: the number that is asked for,
/// or 4.
pub fn max_concurrent_ffmpeg(value: Option<&str>) -> (n: usize)
    ensures
        match value {
            Some(s) => match unsigned_value(s@, usize::MAX as nat) {
                Some(v) => n == v,
                None => n == 4,
            },
            None => n == 4,
        },
{
    match value {
        Some(s) => match parse_unsigned(chars_of(s).as_slice(), usize::MAX as u64) {
            Some(v) => v as usize,
            None => 4,
        },
        None => 4,
    }
}

} // verus!
