//! What is kept of a video: its format and its keyframes.
//!
//! The format is kept under `video:{key}:meta`, the keyframes under
//! `video:{key}:keyframes` in a compact binary form:
//!
//! - 4 bytes, little endian: the number of keyframes;
//! - 2 bytes each, little endian: the distance in milliseconds of a keyframe from
//!   the one before it, of the first one from zero.
//!
//! Two bytes a keyframe are a quarter of what a floating-point number takes.

use crate::ffprobe::{
    codec, find_video, first_video, frame_rate, or_zero, stream_codec, stream_frame_rate, RawStream,
};
use crate::text::{
    after_first, before_first, chars_of, contents, decimal, exit_code, find, find_char,
    law_cut_at_first, lemma_decimal_writes, lemma_find, push_decimal, push_exit_code, string_of,
    writes_whole,
};
use vstd::prelude::*;

verus! {

/// The format of a video.
#[derive(Debug, Clone)]
pub struct VideoMeta {
    pub duration_ms: u32,
    pub width: u32,
    pub height: u32,
    pub codec: String,
    pub fps_num: u32,
    pub fps_den: u32,
}

/// The keyframes of a video.
#[derive(Debug, Clone)]
pub struct Keyframes {
    pub timestamps_ms: Vec<u32>,
}

impl Keyframes {
    /// The number of keyframes.
    pub fn len(&self) -> (n: usize)
        ensures
            n == self.timestamps_ms@.len(),
    {
        self.timestamps_ms.len()
    }

    /// Whether there are no keyframes.
    pub fn is_empty(&self) -> (b: bool)
        ensures
            b == (self.timestamps_ms@.len() == 0),
    {
        self.timestamps_ms.len() == 0
    }
}

/// Timestamps in ascending order.
pub open spec fn ascending(timestamps: Seq<u32>) -> bool {
    forall|i: int, j: int| 0 <= i <= j < timestamps.len() ==> timestamps[i] <= timestamps[j]
}

// ---------------------------------------------------------------------------
// The binary form of keyframes
// ---------------------------------------------------------------------------

/// What goes wrong in reading keyframes.
#[derive(Debug, Clone, Copy, PartialEq, Eq)]
pub enum DecodeError {
    /// Not even the number of keyframes is there.
    TooShort,
    /// There are fewer bytes than the number of keyframes asks for.
    Corrupt { expected: u64, got: usize },
}

impl DecodeError {
    /// The text that tells a reader what went wrong.
    pub open spec fn text(self) -> Seq<char> {
        match self {
            DecodeError::TooShort => "buffer keyframes trop court"@,
            DecodeError::Corrupt { expected, got } => "buffer keyframes corrompu : attendu "@
                + decimal(expected as nat) + " bytes, got "@ + decimal(got as nat),
        }
    }

    /// The text that tells a reader what went wrong.
    pub fn message(&self) -> (s: String)
        ensures
            s@ == self.text(),
    {
        match self {
            DecodeError::TooShort => "buffer keyframes trop court".to_owned(),
            DecodeError::Corrupt { expected, got } => {
                let mut s = "buffer keyframes corrompu : attendu ".to_owned();
                push_decimal(&mut s, *expected);
                s.append(" bytes, got ");
                push_decimal(&mut s, *got as u64);
                s
            },
        }
    }
}

/// The text tells how many bytes there should be and how many there are: both numbers
/// are read back from it, and are given back as they are written.
pub proof fn law_decode_error_tells_the_sizes(expected: u64, got: usize) -> (read: (
    Seq<char>,
    Seq<char>,
))
    ensures
        (DecodeError::Corrupt { expected, got }).text() == "buffer keyframes corrompu : attendu "@
            + read.0 + " bytes, got "@ + read.1,
        writes_whole(read.0, expected as int),
        writes_whole(read.1, got as int),
{
    lemma_decimal_writes(expected as nat);
    lemma_decimal_writes(got as nat);
    (decimal(expected as nat), decimal(got as nat))
}

/// The timestamp in front of the one at `i`: zero in front of the first.
pub open spec fn previous(timestamps: Seq<u32>, i: int) -> int {
    if i == 0 {
        0
    } else {
        timestamps[i - 1] as int
    }
}

/// The distance of the timestamp at `i` from the one before it: 0 where it does
/// not come later.
pub open spec fn delta(timestamps: Seq<u32>, i: int) -> int {
    if timestamps[i] < previous(timestamps, i) {
        0
    } else {
        timestamps[i] - previous(timestamps, i)
    }
}

/// The distance of the timestamp at `i` from the one before it, as far as two
/// bytes hold it: 65535 at most.
pub open spec fn clipped_delta(timestamps: Seq<u32>, i: int) -> int {
    if delta(timestamps, i) > 65535 {
        65535
    } else {
        delta(timestamps, i)
    }
}

/// Whether two bytes are too few for a distance.
pub open spec fn is_clipped() -> spec_fn(u32) -> bool {
    |d: u32| d > 65535
}

/// The distances that two bytes are too few for, in their order.
pub open spec fn clipped_deltas(timestamps: Seq<u32>) -> Seq<u32> {
    Seq::new(timestamps.len(), |i: int| delta(timestamps, i) as u32).filter(is_clipped())
}

/// The four bytes of `n`, little endian; of a larger number, its last four bytes.
pub open spec fn le_bytes(n: int) -> Seq<u8> {
    seq![
        (n % 256) as u8,
        (n / 256 % 256) as u8,
        (n / 65536 % 256) as u8,
        (n / 16777216 % 256) as u8,
    ]
}

/// The binary form of keyframes.
pub open spec fn encoded(timestamps: Seq<u32>) -> Seq<u8> {
    le_bytes(timestamps.len() as int) + Seq::new(
        2 * timestamps.len(),
        |i: int|
            if i % 2 == 0 {
                (clipped_delta(timestamps, i / 2) % 256) as u8
            } else {
                (clipped_delta(timestamps, i / 2) / 256) as u8
            },
    )
}

/// The number of keyframes that the first four bytes give.
pub open spec fn stored_count(bytes: Seq<u8>) -> int {
    bytes[0] + 256 * bytes[1] + 65536 * bytes[2] + 16777216 * bytes[3]
}

/// The distance that is stored for keyframe `i`.
pub open spec fn stored_delta(bytes: Seq<u8>, i: int) -> int {
    bytes[4 + 2 * i] + 256 * bytes[5 + 2 * i]
}

/// The timestamp that is stored for keyframe `i`: the distances up to it added up.
pub open spec fn stored_timestamp(bytes: Seq<u8>, i: int) -> int
    decreases i + 1,
{
    if i < 0 {
        0
    } else {
        stored_timestamp(bytes, i - 1) + stored_delta(bytes, i)
    }
}

/// What `bytes` hold: the timestamps, or what is wrong with them. Bytes behind
/// the last keyframe do not count.
pub open spec fn decoded(bytes: Seq<u8>) -> Result<Seq<u32>, DecodeError> {
    if bytes.len() < 4 {
        Err(DecodeError::TooShort)
    } else if bytes.len() < 4 + 2 * stored_count(bytes) {
        Err(
            DecodeError::Corrupt {
                expected: (4 + 2 * stored_count(bytes)) as u64,
                got: bytes.len() as usize,
            },
        )
    } else {
        Ok(
            Seq::new(
                stored_count(bytes) as nat,
                |i: int| stored_timestamp(bytes, i) as u32,
            ),
        )
    }
}

/// Whether the last timestamp that `bytes` hold, and so each of them, is a number
/// of 32 bits.
pub open spec fn timestamps_fit(bytes: Seq<u8>) -> bool {
    decoded(bytes) is Ok ==> stored_timestamp(bytes, stored_count(bytes) - 1) <= u32::MAX
}

/// Timestamps never go back.
proof fn lemma_stored_timestamp_grows(bytes: Seq<u8>, i: int, j: int)
    requires
        -1 <= i <= j,
    ensures
        0 <= stored_timestamp(bytes, i) <= stored_timestamp(bytes, j),
    decreases j - i, j + 1,
{
    if i < j {
        lemma_stored_timestamp_grows(bytes, i, j - 1);
    } else if i >= 0 {
        lemma_stored_timestamp_grows(bytes, i - 1, i - 1);
    }
}

/// The distances that the binary form does not hold as they are: those above 65535
/// milliseconds, which no video should have.
pub fn find_clipped_deltas(timestamps_ms: &[u32]) -> (v: Vec<u32>)
    ensures
        v@ == clipped_deltas(timestamps_ms@),
{
    let mut v: Vec<u32> = Vec::new();
    let ghost all = Seq::new(timestamps_ms@.len(), |i: int| delta(timestamps_ms@, i) as u32);
    let mut prev_ms: u32 = 0;
    let mut i: usize = 0;
    proof {
        reveal(Seq::filter);
    }
    while i < timestamps_ms.len()
        invariant
            0 <= i <= timestamps_ms@.len(),
            all == Seq::new(timestamps_ms@.len(), |i: int| delta(timestamps_ms@, i) as u32),
            prev_ms == previous(timestamps_ms@, i as int),
            v@ == all.take(i as int).filter(is_clipped()),
        decreases timestamps_ms@.len() - i,
    {
        let ms = timestamps_ms[i];
        let delta: u32 = ms.saturating_sub(prev_ms);
        proof {
            reveal(Seq::filter);
            assert(all.take(i + 1).drop_last() =~= all.take(i as int));
            assert(all.take(i + 1).last() == delta);
        }
        if delta > 65535 {
            v.push(delta);
        }
        prev_ms = ms;
        i = i + 1;
    }
    assert(all.take(i as int) =~= all);
    v
}

/// Brings keyframes into their binary form.
pub fn encode_keyframes(timestamps_ms: &[u32]) -> (out: Vec<u8>)
    ensures
        out@ == encoded(timestamps_ms@),
        out@.len() == 4 + 2 * timestamps_ms@.len(),
{
    let len: usize = timestamps_ms.len();
    let n: u64 = len as u64;
    let mut out: Vec<u8> = Vec::with_capacity(len.saturating_add(len).saturating_add(4));
    out.push((n % 256) as u8);
    out.push((n / 256 % 256) as u8);
    out.push((n / 65536 % 256) as u8);
    out.push((n / 16777216 % 256) as u8);
    let ghost whole = encoded(timestamps_ms@);
    let mut prev_ms: u32 = 0;
    let mut i: usize = 0;
    assert(out@ =~= whole.take(4));
    while i < timestamps_ms.len()
        invariant
            0 <= i <= timestamps_ms@.len(),
            whole == encoded(timestamps_ms@),
            prev_ms == previous(timestamps_ms@, i as int),
            out@ == whole.take(4 + 2 * i),
        decreases timestamps_ms@.len() - i,
    {
        let ms = timestamps_ms[i];
        let delta: u32 = ms.saturating_sub(prev_ms);
        let clipped: u32 = if delta > 65535 {
            65535
        } else {
            delta
        };
        assert(clipped == clipped_delta(timestamps_ms@, i as int));
        assert((2 * i) / 2 == i && (2 * i + 1) / 2 == i);
        assert(whole[4 + 2 * i] == (clipped_delta(timestamps_ms@, i as int) % 256) as u8);
        assert(whole[5 + 2 * i] == (clipped_delta(timestamps_ms@, i as int) / 256) as u8);
        out.push((clipped % 256) as u8);
        out.push((clipped / 256) as u8);
        assert(out@ =~= whole.take(4 + 2 * (i + 1)));
        prev_ms = ms;
        i = i + 1;
    }
    assert(whole.take(4 + 2 * i) =~= whole);
    out
}

/// Reads the number of keyframes.
fn read_count(bytes: &[u8]) -> (n: u32)
    requires
        bytes@.len() >= 4,
    ensures
        n == stored_count(bytes@),
{
    bytes[0] as u32 + 256 * bytes[1] as u32 + 65536 * bytes[2] as u32 + 16777216 * bytes[3] as u32
}

/// Whether each timestamp that `bytes` hold is a number of 32 bits, as
/// `decode_keyframes` wants it.
pub fn check_timestamps_fit(bytes: &[u8]) -> (r: bool)
    ensures
        r == timestamps_fit(bytes@),
{
    if bytes.len() < 4 {
        return true;
    }
    let n: u32 = read_count(bytes);
    if (bytes.len() as u64) < 4 + 2 * n as u64 {
        return true;
    }
    let mut total: u64 = 0;
    let mut i: u32 = 0;
    let len: usize = bytes.len();
    while i < n
        invariant
            0 <= i <= n,
            n == stored_count(bytes@),
            len == bytes@.len(),
            bytes@.len() >= 4 + 2 * n,
            total == stored_timestamp(bytes@, i - 1),
            total <= 65535 * i,
        decreases n - i,
    {
        let at: usize = 4 + 2 * i as usize;
        total = total + bytes[at] as u64 + 256 * bytes[at + 1] as u64;
        i = i + 1;
    }
    total <= u32::MAX as u64
}

/// Reads keyframes from their binary form.
pub fn decode_keyframes(bytes: &[u8]) -> (r: Result<Keyframes, DecodeError>)
    requires
        timestamps_fit(bytes@),
    ensures
        match r {
            Ok(k) => decoded(bytes@) == Ok::<_, DecodeError>(k.timestamps_ms@) && ascending(
                k.timestamps_ms@,
            ),
            Err(e) => decoded(bytes@) == Err::<Seq<u32>, _>(e),
        },
{
    if bytes.len() < 4 {
        return Err(DecodeError::TooShort);
    }
    let n: u32 = read_count(bytes);
    let expected_len: u64 = 4 + 2 * n as u64;
    if (bytes.len() as u64) < expected_len {
        return Err(DecodeError::Corrupt { expected: expected_len, got: bytes.len() });
    }
    let len: usize = bytes.len();
    let mut timestamps_ms: Vec<u32> = Vec::with_capacity(n as usize);
    let mut acc_ms: u32 = 0;
    let mut i: u32 = 0;
    while i < n
        invariant
            0 <= i <= n,
            n == stored_count(bytes@),
            len == bytes@.len(),
            bytes@.len() >= 4 + 2 * n,
            stored_timestamp(bytes@, n - 1) <= u32::MAX,
            acc_ms == stored_timestamp(bytes@, i - 1),
            timestamps_ms@.len() == i,
            forall|j: int|
                0 <= j < i ==> #[trigger] timestamps_ms@[j] == stored_timestamp(bytes@, j),
        decreases n - i,
    {
        let at: usize = 4 + 2 * i as usize;
        let delta: u32 = bytes[at] as u32 + 256 * bytes[at + 1] as u32;
        assert(delta == stored_delta(bytes@, i as int));
        proof {
            lemma_stored_timestamp_grows(bytes@, i as int, n - 1);
        }
        acc_ms = acc_ms + delta;
        timestamps_ms.push(acc_ms);
        i = i + 1;
    }
    proof {
        assert(timestamps_ms@ =~= decoded(bytes@).unwrap());
        assert forall|j: int, k: int|
            0 <= j <= k < timestamps_ms@.len() implies timestamps_ms@[j] <= timestamps_ms@[k] by {
            lemma_stored_timestamp_grows(bytes@, j, k);
        }
    }
    Ok(Keyframes { timestamps_ms })
}

/// Whether the binary form holds `timestamps` as they are: there are not too many,
/// none comes before the one in front of it, and none more than 65535 milliseconds
/// behind it.
pub open spec fn representable(timestamps: Seq<u32>) -> bool {
    &&& timestamps.len() <= u32::MAX
    &&& forall|i: int|
        0 <= i < timestamps.len() ==> 0 <= #[trigger] timestamps[i] - previous(timestamps, i)
            <= 65535
}

/// Whether `bytes` hold the number of `timestamps` and each clipped distance.
pub open spec fn holds(bytes: Seq<u8>, timestamps: Seq<u32>) -> bool {
    &&& bytes.len() == 4 + 2 * timestamps.len()
    &&& stored_count(bytes) == timestamps.len()
    &&& forall|i: int|
        0 <= i < timestamps.len() ==> #[trigger] stored_delta(bytes, i) == clipped_delta(
            timestamps,
            i,
        )
}

/// The binary form holds the number of keyframes and each clipped distance.
proof fn lemma_encoded(timestamps: Seq<u32>)
    requires
        timestamps.len() <= u32::MAX,
    ensures
        holds(encoded(timestamps), timestamps),
{
    let b = encoded(timestamps);
    let n = timestamps.len() as int;
    assert(n == n % 256 + 256 * (n / 256 % 256) + 65536 * (n / 65536 % 256) + 16777216 * (n
        / 16777216 % 256));
    assert forall|i: int| 0 <= i < timestamps.len() implies #[trigger] stored_delta(b, i)
        == clipped_delta(timestamps, i) by {
        let d = clipped_delta(timestamps, i);
        assert((2 * i) / 2 == i && (2 * i + 1) / 2 == i);
        assert(b[4 + 2 * i] == (d % 256) as u8);
        assert(b[5 + 2 * i] == (d / 256) as u8);
    }
}

/// What is read back of timestamps that are in order never comes later than they
/// do, and comes as early as they do where the distances up to it all fit.
proof fn lemma_stored_timestamp(bytes: Seq<u8>, timestamps: Seq<u32>, i: int)
    requires
        holds(bytes, timestamps),
        ascending(timestamps),
        -1 <= i < timestamps.len(),
    ensures
        0 <= stored_timestamp(bytes, i) <= previous(timestamps, i + 1),
        (forall|j: int|
            0 <= j <= i ==> #[trigger] timestamps[j] - previous(timestamps, j) <= 65535)
            ==> stored_timestamp(bytes, i) == previous(timestamps, i + 1),
    decreases i + 1,
{
    if i >= 0 {
        lemma_stored_timestamp(bytes, timestamps, i - 1);
        assert(stored_delta(bytes, i) == clipped_delta(timestamps, i));
        assert(previous(timestamps, i) <= timestamps[i]) by {
            if i > 0 {
                assert(timestamps[i - 1] <= timestamps[i]);
            }
        }
    }
}

/// What comes out of bytes that hold timestamps in order.
proof fn lemma_decoded(bytes: Seq<u8>, timestamps: Seq<u32>)
    requires
        holds(bytes, timestamps),
        ascending(timestamps),
        timestamps.len() <= u32::MAX,
    ensures
        timestamps_fit(bytes),
        decoded(bytes) is Ok,
        ({
            let out = decoded(bytes).unwrap();
            &&& out.len() == timestamps.len()
            &&& forall|i: int| 0 <= i < out.len() ==> #[trigger] out[i] <= timestamps[i]
            &&& out == timestamps <==> representable(timestamps)
        }),
{
    let n = timestamps.len() as int;
    lemma_stored_timestamp(bytes, timestamps, n - 1);
    let out = decoded(bytes).unwrap();
    assert forall|i: int| 0 <= i < n implies #[trigger] out[i] == stored_timestamp(bytes, i)
        && out[i] <= timestamps[i] by {
        lemma_stored_timestamp(bytes, timestamps, i);
    }
    if representable(timestamps) {
        assert forall|i: int| 0 <= i < n implies out[i] == timestamps[i] by {
            lemma_stored_timestamp(bytes, timestamps, i);
        }
        assert(out =~= timestamps);
    }
    if out == timestamps {
        assert forall|i: int| 0 <= i < n implies 0 <= #[trigger] timestamps[i] - previous(
            timestamps,
            i,
        ) <= 65535 by {
            assert(out[i] == stored_timestamp(bytes, i));
            if i > 0 {
                assert(out[i - 1] == stored_timestamp(bytes, i - 1));
            }
            assert(stored_timestamp(bytes, i - 1) == previous(timestamps, i));
            assert(stored_delta(bytes, i) == clipped_delta(timestamps, i));
        }
    }
}

/// The binary form, byte by byte: four bytes that give the number of keyframes, the least
/// one first, and two for each, the lesser one first, that give its distance in
/// milliseconds from the one before it, of the first one from zero. A distance above 65535
/// is stored as 65535, and none below zero.
pub proof fn law_binary_form(timestamps: Seq<u32>)
    ensures
        ({
            let b = encoded(timestamps);
            &&& b.len() == 4 + 2 * timestamps.len()
            &&& timestamps.len() <= u32::MAX ==> b[0] + 256 * b[1] + 65536 * b[2] + 16777216 * b[3]
                == timestamps.len()
            &&& forall|i: int|
                0 <= i < timestamps.len() ==> {
                    let before: int = if i == 0 {
                        0
                    } else {
                        timestamps[i - 1] as int
                    };
                    let distance = #[trigger] timestamps[i] - before;
                    let stored = b[4 + 2 * i] + 256 * b[5 + 2 * i];
                    &&& distance < 0 ==> stored == 0
                    &&& 0 <= distance <= 65535 ==> stored == distance
                    &&& distance > 65535 ==> stored == 65535
                }
        }),
{
    let b = encoded(timestamps);
    if timestamps.len() <= u32::MAX {
        lemma_encoded(timestamps);
    }
    assert forall|i: int| 0 <= i < timestamps.len() implies {
        let d = clipped_delta(timestamps, i);
        b[4 + 2 * i] + 256 * b[5 + 2 * i] == d && (#[trigger] timestamps[i] >= 0)
    } by {
        let d = clipped_delta(timestamps, i);
        assert((2 * i) / 2 == i && (2 * i + 1) / 2 == i);
        assert(b[4 + 2 * i] == (d % 256) as u8);
        assert(b[5 + 2 * i] == (d / 256) as u8);
    }
}

/// Bytes that hold the distances of timestamps are read as these timestamps, whatever
/// follows the last of them.
pub proof fn law_distances_are_added_up(bytes: Seq<u8>, timestamps: Seq<u32>)
    requires
        bytes.len() >= 4 + 2 * timestamps.len(),
        bytes[0] + 256 * bytes[1] + 65536 * bytes[2] + 16777216 * bytes[3] == timestamps.len(),
        forall|i: int|
            0 <= i < timestamps.len() ==> bytes[4 + 2 * i] + 256 * bytes[5 + 2 * i]
                == #[trigger] timestamps[i] - (if i == 0 {
                0
            } else {
                timestamps[i - 1] as int
            }),
    ensures
        timestamps_fit(bytes),
        decoded(bytes) == Ok::<_, DecodeError>(timestamps),
{
    assert forall|i: int| 0 <= i < timestamps.len() implies stored_timestamp(bytes, i)
        == timestamps[i] by {
        lemma_distances_up_to(bytes, timestamps, i);
    }
    assert(decoded(bytes).unwrap() =~= timestamps);
}

/// The distances up to a timestamp add up to it.
proof fn lemma_distances_up_to(bytes: Seq<u8>, timestamps: Seq<u32>, i: int)
    requires
        0 <= i < timestamps.len(),
        forall|i: int|
            0 <= i < timestamps.len() ==> bytes[4 + 2 * i] + 256 * bytes[5 + 2 * i]
                == #[trigger] timestamps[i] - (if i == 0 {
                0
            } else {
                timestamps[i - 1] as int
            }),
    ensures
        stored_timestamp(bytes, i) == timestamps[i],
    decreases i,
{
    if i > 0 {
        lemma_distances_up_to(bytes, timestamps, i - 1);
    } else {
        assert(stored_timestamp(bytes, i - 1) == 0);
    }
    assert(bytes[4 + 2 * i] + 256 * bytes[5 + 2 * i] == timestamps[i] - (if i == 0 {
        0
    } else {
        timestamps[i - 1] as int
    }));
}

/// What is read from bytes: nothing where there are not even four, or fewer than the
/// number that the first four give asks for; else that number of timestamps, each as far
/// from the one before it as its two bytes say.
pub proof fn law_what_is_read(bytes: Seq<u8>)
    ensures
        bytes.len() < 4 ==> decoded(bytes) == Err::<Seq<u32>, _>(DecodeError::TooShort),
        bytes.len() >= 4 ==> {
            let n = bytes[0] + 256 * bytes[1] + 65536 * bytes[2] + 16777216 * bytes[3];
            if bytes.len() < 4 + 2 * n {
                bytes.len() <= usize::MAX ==> (decoded(bytes) matches Err(e) && e matches DecodeError::Corrupt {
                    expected,
                    got,
                } && expected == 4 + 2 * n && got == bytes.len())
            } else {
                &&& decoded(bytes) is Ok
                &&& decoded(bytes).unwrap().len() == n
                &&& timestamps_fit(bytes) ==> forall|i: int|
                    0 <= i < n ==> bytes[4 + 2 * i] + 256 * bytes[5 + 2 * i]
                        == #[trigger] decoded(bytes).unwrap()[i] - (if i == 0 {
                        0
                    } else {
                        decoded(bytes).unwrap()[i - 1] as int
                    })
            }
        },
{
    if decoded(bytes) is Ok && timestamps_fit(bytes) {
        let n = stored_count(bytes);
        let out = decoded(bytes).unwrap();
        assert forall|i: int| 0 <= i < n implies stored_delta(bytes, i) == #[trigger] out[i] - (if i
            == 0 {
            0
        } else {
            out[i - 1] as int
        }) by {
            lemma_stored_timestamp_grows(bytes, i, n - 1);
            lemma_stored_timestamp_grows(bytes, i - 1, i);
            assert(out[i] == stored_timestamp(bytes, i));
            if i > 0 {
                assert(out[i - 1] == stored_timestamp(bytes, i - 1));
            } else {
                assert(stored_timestamp(bytes, i - 1) == 0);
            }
        }
    }
}

/// Which distances are too long to be stored: one keyframe more adds its distance from
/// the last one, or from zero, if that is above 65535, and nothing else.
pub proof fn law_next_clipped_delta(timestamps: Seq<u32>, t: u32)
    ensures
        clipped_deltas(Seq::empty()).len() == 0,
        ({
            let last: int = if timestamps.len() == 0 {
                0
            } else {
                timestamps.last() as int
            };
            clipped_deltas(timestamps.push(t)) == if t - last > 65535 {
                clipped_deltas(timestamps).push((t - last) as u32)
            } else {
                clipped_deltas(timestamps)
            }
        }),
{
    reveal(Seq::filter);
    let more = timestamps.push(t);
    let all = Seq::new(timestamps.len(), |i: int| delta(timestamps, i) as u32);
    let longer = Seq::new(more.len(), |i: int| delta(more, i) as u32);
    assert(longer.drop_last() =~= all);
    assert(longer.last() == delta(more, timestamps.len() as int) as u32);
    assert(Seq::new(0, |i: int| delta(Seq::empty(), i) as u32) =~= Seq::<u32>::empty());
}

/// What is stored is read back: keyframes that are in order, no more than 65535
/// milliseconds apart and not too many come out of their binary form as they went in.
pub proof fn law_keyframes_read_back(timestamps: Seq<u32>)
    requires
        representable(timestamps),
    ensures
        timestamps_fit(encoded(timestamps)),
        decoded(encoded(timestamps)) == Ok::<_, DecodeError>(timestamps),
{
    lemma_representable_ascending(timestamps);
    law_stored_keyframes(timestamps);
}

/// Timestamps that the binary form holds are in order.
proof fn lemma_representable_ascending(timestamps: Seq<u32>)
    requires
        representable(timestamps),
    ensures
        ascending(timestamps),
{
    assert forall|i: int, j: int| 0 <= i <= j < timestamps.len() implies timestamps[i]
        <= timestamps[j] by {
        lemma_representable_pair(timestamps, i, j);
    }
}

/// Of two timestamps that the binary form holds, the later one is not smaller.
proof fn lemma_representable_pair(timestamps: Seq<u32>, i: int, j: int)
    requires
        representable(timestamps),
        0 <= i <= j < timestamps.len(),
    ensures
        timestamps[i] <= timestamps[j],
    decreases j - i,
{
    if i < j {
        lemma_representable_pair(timestamps, i, j - 1);
        assert(timestamps[j] - previous(timestamps, j) >= 0);
    }
}

/// Whatever is in order can be stored and read: as many keyframes come out as went
/// in, none of them later than it was, and all of them as they were exactly when
/// no two are more than 65535 milliseconds apart.
pub proof fn law_stored_keyframes(timestamps: Seq<u32>)
    requires
        timestamps.len() <= u32::MAX,
        ascending(timestamps),
    ensures
        timestamps_fit(encoded(timestamps)),
        decoded(encoded(timestamps)) is Ok,
        ({
            let out = decoded(encoded(timestamps)).unwrap();
            &&& out.len() == timestamps.len()
            &&& forall|i: int| 0 <= i < out.len() ==> #[trigger] out[i] <= timestamps[i]
            &&& out == timestamps <==> representable(timestamps)
        }),
{
    lemma_encoded(timestamps);
    lemma_decoded(encoded(timestamps), timestamps);
}

/// Where no distance is clipped, whatever is in order comes out of its binary form as
/// it went in.
pub proof fn law_unclipped_keyframes_read_back(timestamps: Seq<u32>)
    requires
        timestamps.len() <= u32::MAX,
        ascending(timestamps),
    ensures
        clipped_deltas(timestamps).len() == 0 <==> representable(timestamps),
        clipped_deltas(timestamps).len() == 0 ==> decoded(encoded(timestamps)) == Ok::<
            _,
            DecodeError,
        >(timestamps),
{
    let all = Seq::new(timestamps.len(), |i: int| delta(timestamps, i) as u32);
    broadcast use vstd::seq_lib::group_filter_ensures;

    if clipped_deltas(timestamps).len() == 0 {
        assert forall|i: int| 0 <= i < timestamps.len() implies 0 <= #[trigger] timestamps[i]
            - previous(timestamps, i) <= 65535 by {
            if i > 0 {
                assert(timestamps[i - 1] <= timestamps[i]);
            }
            if is_clipped()(all[i]) {
                assert(all.filter(is_clipped()).contains(all[i]));
            }
        }
        law_keyframes_read_back(timestamps);
    }
    if representable(timestamps) && clipped_deltas(timestamps).len() > 0 {
        let d = clipped_deltas(timestamps)[0];
        assert(is_clipped()(d));
        lemma_filter_from(all, is_clipped());
        let i = choose|i: int| 0 <= i < all.len() && all[i] == d;
        assert(timestamps[i] - previous(timestamps, i) <= 65535);
    }
}

/// What a filter lets through was there before.
proof fn lemma_filter_from(s: Seq<u32>, pred: spec_fn(u32) -> bool)
    ensures
        forall|k: int|
            0 <= k < s.filter(pred).len() ==> s.contains(#[trigger] s.filter(pred)[k]),
    decreases s.len(),
{
    reveal(Seq::filter);
    if s.len() > 0 {
        let rest = s.drop_last();
        lemma_filter_from(rest, pred);
        assert forall|k: int| 0 <= k < s.filter(pred).len() implies s.contains(
            #[trigger] s.filter(pred)[k],
        ) by {
            let x = s.filter(pred)[k];
            if k < rest.filter(pred).len() {
                assert(x == rest.filter(pred)[k]);
                let j = choose|j: int| 0 <= j < rest.len() && rest[j] == x;
                assert(s[j] == x);
            } else {
                assert(s[s.len() - 1] == x);
            }
        }
    }
}

/// What is read is stored back: reading bytes and storing the keyframes again
/// gives the same bytes, without any that stood behind the last keyframe.
pub proof fn law_bytes_store_back(bytes: Seq<u8>)
    requires
        decoded(bytes) is Ok,
        timestamps_fit(bytes),
    ensures
        encoded(decoded(bytes).unwrap()) == bytes.take(4 + 2 * stored_count(bytes)),
{
    let ts = decoded(bytes).unwrap();
    let n = stored_count(bytes);
    let b = encoded(ts);
    lemma_count_bytes(bytes);
    assert forall|k: int| 0 <= k < 4 + 2 * n implies b[k] == bytes[k] by {
        if k < 4 {
            assert(b[k] == le_bytes(n)[k]);
        } else {
            let i = (k - 4) / 2;
            lemma_clipped_is_stored(bytes, i);
            assert(k == 4 + 2 * i || k == 5 + 2 * i);
        }
    }
    assert(b =~= bytes.take(4 + 2 * n));
}

/// The first four bytes are those of the number that they give.
proof fn lemma_count_bytes(bytes: Seq<u8>)
    requires
        bytes.len() >= 4,
    ensures
        le_bytes(stored_count(bytes)) == bytes.take(4),
{
    let n = stored_count(bytes);
    let (b0, b1, b2, b3) = (bytes[0] as int, bytes[1] as int, bytes[2] as int, bytes[3] as int);
    assert(n / 256 == b1 + 256 * b2 + 65536 * b3);
    assert(n / 65536 == b2 + 256 * b3);
    assert(n / 16777216 == b3);
    assert(le_bytes(n) =~= bytes.take(4));
}

/// The distances between timestamps that are read are those that are stored.
proof fn lemma_clipped_is_stored(bytes: Seq<u8>, i: int)
    requires
        decoded(bytes) is Ok,
        timestamps_fit(bytes),
        0 <= i < stored_count(bytes),
    ensures
        clipped_delta(decoded(bytes).unwrap(), i) == stored_delta(bytes, i),
{
    let ts = decoded(bytes).unwrap();
    let n = stored_count(bytes);
    lemma_stored_timestamp_grows(bytes, i, n - 1);
    lemma_stored_timestamp_grows(bytes, i - 1, i);
    assert(ts[i] == stored_timestamp(bytes, i));
    if i > 0 {
        assert(ts[i - 1] == stored_timestamp(bytes, i - 1));
    }
}

/// Bytes behind the last keyframe change nothing.
pub proof fn law_trailing_bytes_ignored(bytes: Seq<u8>, more: Seq<u8>)
    requires
        decoded(bytes) is Ok,
    ensures
        decoded(bytes + more) == decoded(bytes),
{
    let long = bytes + more;
    let n = stored_count(bytes);
    assert(stored_count(long) == n);
    assert forall|i: int| 0 <= i < n implies stored_timestamp(long, i) == stored_timestamp(
        bytes,
        i,
    ) by {
        lemma_stored_timestamp_same(bytes, more, i);
    }
    assert(decoded(long).unwrap() =~= decoded(bytes).unwrap());
}

/// A timestamp depends on the bytes up to it only.
proof fn lemma_stored_timestamp_same(bytes: Seq<u8>, more: Seq<u8>, i: int)
    requires
        i < 0 || 6 + 2 * i <= bytes.len(),
    ensures
        stored_timestamp(bytes + more, i) == stored_timestamp(bytes, i),
    decreases i + 1,
{
    if i >= 0 {
        lemma_stored_timestamp_same(bytes, more, i - 1);
    }
}

// ---------------------------------------------------------------------------
// Where it is kept
// ---------------------------------------------------------------------------

/// How long the format and the keyframes of a video are kept, in seconds: a year.
pub const TTL: u64 = 60 * 60 * 24 * 365;

/// The key under which the format of a video is kept.
pub open spec fn meta_at(video: Seq<char>) -> Seq<char> {
    "video:"@ + video + ":meta"@
}

/// The key under which the keyframes of a video are kept.
pub open spec fn keyframes_at(video: Seq<char>) -> Seq<char> {
    "video:"@ + video + ":keyframes"@
}

/// The key under which the format of a video is kept.
pub fn meta_key(video_key: &str) -> (s: String)
    ensures
        s@ == meta_at(video_key@),
{
    let mut s = "video:".to_owned();
    s.append(video_key);
    s.append(":meta");
    s
}

/// The key under which the keyframes of a video are kept.
pub fn keyframes_key(video_key: &str) -> (s: String)
    ensures
        s@ == keyframes_at(video_key@),
{
    let mut s = "video:".to_owned();
    s.append(video_key);
    s.append(":keyframes");
    s
}

/// The keyframes that are kept of a video, from what the store holds under its key:
/// none where it holds nothing.
pub open spec fn kept(raw: Option<Seq<u8>>) -> Result<Option<Seq<u32>>, DecodeError> {
    match raw {
        Some(bytes) => match decoded(bytes) {
            Ok(timestamps) => Ok(Some(timestamps)),
            Err(e) => Err(e),
        },
        None => Ok(None),
    }
}

/// The keyframes that are kept of a video, from what the store answers when it is
/// asked for `keyframes_key`.
pub fn kept_keyframes(raw: Option<Vec<u8>>) -> (r: Result<Option<Keyframes>, DecodeError>)
    requires
        raw matches Some(bytes) ==> timestamps_fit(bytes@),
    ensures
        ({
            let held = match raw {
                Some(bytes) => kept(Some(bytes@)),
                None => kept(None),
            };
            match r {
                Ok(Some(k)) => held == Ok::<_, DecodeError>(Some(k.timestamps_ms@)) && ascending(
                    k.timestamps_ms@,
                ),
                Ok(None) => held == Ok::<Option<Seq<u32>>, DecodeError>(None),
                Err(e) => held == Err::<Option<Seq<u32>>, _>(e),
            }
        }),
{
    match raw {
        Some(bytes) => match decode_keyframes(bytes.as_slice()) {
            Ok(k) => Ok(Some(k)),
            Err(e) => Err(e),
        },
        None => Ok(None),
    }
}

/// The keys of a video are its name between `video:` and what is kept there.
pub proof fn law_keys_of_a_video(video: Seq<char>)
    ensures
        ({
            let (m, k) = (meta_at(video), keyframes_at(video));
            &&& m.len() == "video:"@.len() + video.len() + ":meta"@.len()
            &&& "video:"@.is_prefix_of(m) && ":meta"@.is_suffix_of(m)
            &&& m.subrange("video:"@.len() as int, m.len() - ":meta"@.len()) == video
            &&& k.len() == "video:"@.len() + video.len() + ":keyframes"@.len()
            &&& "video:"@.is_prefix_of(k) && ":keyframes"@.is_suffix_of(k)
            &&& k.subrange("video:"@.len() as int, k.len() - ":keyframes"@.len()) == video
        }),
{
    let (m, k) = (meta_at(video), keyframes_at(video));
    let from = "video:"@.len() as int;
    assert(m.subrange(0, from) =~= "video:"@);
    assert(k.subrange(0, from) =~= "video:"@);
    assert(m.subrange(m.len() - ":meta"@.len(), m.len() as int) =~= ":meta"@);
    assert(k.subrange(k.len() - ":keyframes"@.len(), k.len() as int) =~= ":keyframes"@);
    assert(m.subrange(from, m.len() - ":meta"@.len()) =~= video);
    assert(k.subrange(from, k.len() - ":keyframes"@.len()) =~= video);
}

/// Where the store holds nothing, no keyframes are kept; where it holds bytes that are
/// too few, that is an error; and no keyframes are made up.
pub proof fn law_kept_is_what_is_held(bytes: Seq<u8>)
    ensures
        kept(None) == Ok::<Option<Seq<u32>>, DecodeError>(None),
        match decoded(bytes) {
            Ok(timestamps) => kept(Some(bytes)) == Ok::<_, DecodeError>(Some(timestamps)),
            Err(e) => kept(Some(bytes)) == Err::<Option<Seq<u32>>, _>(e),
        },
{
}

/// What is kept of a video is found again: once the binary form of keyframes that it
/// holds is in the store under the key of the video, those keyframes are read there.
pub proof fn law_kept_keyframes_found(
    store: Map<Seq<char>, Seq<u8>>,
    video: Seq<char>,
    timestamps: Seq<u32>,
)
    requires
        representable(timestamps),
    ensures
        ({
            let key = keyframes_at(video);
            kept(store.insert(key, encoded(timestamps)).get(key)) == Ok::<_, DecodeError>(
                Some(timestamps),
            )
        }),
{
    law_keyframes_read_back(timestamps);
}

/// Videos are kept apart: no two share a key, and none has its format where another,
/// or the same, has its keyframes.
pub proof fn law_videos_kept_apart(video: Seq<char>, other: Seq<char>)
    ensures
        meta_at(video) == meta_at(other) ==> video == other,
        keyframes_at(video) == keyframes_at(other) ==> video == other,
        meta_at(video) != keyframes_at(other),
{
    let from = "video:"@.len() as int;
    if meta_at(video) == meta_at(other) {
        assert(meta_at(video).len() == meta_at(other).len());
        assert(video =~= meta_at(video).subrange(from, from + video.len()));
        assert(other =~= meta_at(other).subrange(from, from + other.len()));
    }
    if keyframes_at(video) == keyframes_at(other) {
        assert(keyframes_at(video).len() == keyframes_at(other).len());
        assert(video =~= keyframes_at(video).subrange(from, from + video.len()));
        assert(other =~= keyframes_at(other).subrange(from, from + other.len()));
    }
    reveal_strlit(":meta");
    reveal_strlit(":keyframes");
    assert(meta_at(video).last() == 'a');
    assert(keyframes_at(other).last() == 's');
}

/// The keyframes of a video stay as they are when the format or the keyframes of
/// another video, or its own format, are put into the store.
pub proof fn law_kept_keyframes_stay(
    store: Map<Seq<char>, Seq<u8>>,
    video: Seq<char>,
    other: Seq<char>,
    bytes: Seq<u8>,
)
    ensures
        kept(store.insert(meta_at(other), bytes).get(keyframes_at(video))) == kept(
            store.get(keyframes_at(video)),
        ),
        video != other ==> kept(
            store.insert(keyframes_at(other), bytes).get(keyframes_at(video)),
        ) == kept(store.get(keyframes_at(video))),
{
    law_videos_kept_apart(video, other);
    law_videos_kept_apart(other, video);
}

// ---------------------------------------------------------------------------
// Probes
// ---------------------------------------------------------------------------

/// What goes wrong in a probe.
#[derive(Debug, Clone)]
pub enum MetadataError {
    /// The format probe failed, with what it wrote.
    MetaFailed(String),
    /// The file holds no video stream.
    NoVideoStream,
    /// The keyframe probe failed, with its exit code.
    KeyframesFailed(Option<i32>),
    /// The keyframe probe reported no keyframe.
    NoKeyframe,
}

impl MetadataError {
    /// The text that tells a reader what went wrong.
    pub open spec fn text(self) -> Seq<char> {
        match self {
            MetadataError::MetaFailed(stderr) => "ffprobe meta : "@ + stderr@,
            MetadataError::NoVideoStream => "aucun stream vidéo"@,
            MetadataError::KeyframesFailed(code) => "ffprobe keyframes a échoué (code "@
                + exit_code(code) + ")"@,
            MetadataError::NoKeyframe => "aucun keyframe trouvé"@,
        }
    }

    /// The text that tells a reader what went wrong.
    pub fn message(&self) -> (s: String)
        ensures
            s@ == self.text(),
    {
        match self {
            MetadataError::MetaFailed(stderr) => {
                let mut s = "ffprobe meta : ".to_owned();
                s.append(stderr.as_str());
                s
            },
            MetadataError::NoVideoStream => "aucun stream vidéo".to_owned(),
            MetadataError::KeyframesFailed(code) => {
                let mut s = "ffprobe keyframes a échoué (code ".to_owned();
                push_exit_code(&mut s, *code);
                s.append(")");
                s
            },
            MetadataError::NoKeyframe => "aucun keyframe trouvé".to_owned(),
        }
    }
}

/// An error tells what the probe left behind: what it wrote, or its exit code.
pub proof fn law_metadata_error_tells_the_cause(stderr: String, code: Option<i32>)
    ensures
        ({
            let failed = MetadataError::MetaFailed(stderr).text();
            let from = "ffprobe meta : "@.len() as int;
            failed.len() >= from && failed.take(from) == "ffprobe meta : "@ && failed.skip(from)
                == stderr@
        }),
        ({
            let failed = MetadataError::KeyframesFailed(code).text();
            let from = "ffprobe keyframes a échoué (code "@.len() as int;
            &&& failed.len() > from
            &&& failed.take(from) == "ffprobe keyframes a échoué (code "@
            &&& failed.subrange(from, failed.len() - 1) == exit_code(code)
            &&& failed.last() == ')'
        }),
{
    let meta = MetadataError::MetaFailed(stderr).text();
    let from = "ffprobe meta : "@.len() as int;
    assert(meta.take(from) =~= "ffprobe meta : "@);
    assert(meta.skip(from) =~= stderr@);
    reveal_strlit(")");
    let keyframes = MetadataError::KeyframesFailed(code).text();
    let from = "ffprobe keyframes a échoué (code "@.len() as int;
    assert(keyframes.take(from) =~= "ffprobe keyframes a échoué (code "@);
    assert(keyframes.subrange(from, keyframes.len() - 1) =~= exit_code(code));
}

/// The format of a video, from the length of the file and its first video stream.
pub fn video_meta(duration_ms: u32, streams: &[RawStream]) -> (r: Result<VideoMeta, MetadataError>)
    ensures
        first_video(streams@) == streams@.len() ==> r == Err::<VideoMeta, _>(
            MetadataError::NoVideoStream,
        ),
        first_video(streams@) < streams@.len() ==> {
            let video = streams@[first_video(streams@)];
            r matches Ok(m) && {
                &&& m.duration_ms == duration_ms
                &&& m.width == or_zero(video.width)
                &&& m.height == or_zero(video.height)
                &&& m.codec@ == codec(video)
                &&& (m.fps_num as nat, m.fps_den as nat) == frame_rate(video)
            }
        },
{
    let i = find_video(streams);
    if i == streams.len() {
        return Err(MetadataError::NoVideoStream);
    }
    let video = &streams[i];
    let (fps_num, fps_den) = stream_frame_rate(video);
    Ok(
        VideoMeta {
            duration_ms,
            width: video.width.unwrap_or(0),
            height: video.height.unwrap_or(0),
            codec: stream_codec(video),
            fps_num,
            fps_den,
        },
    )
}

/// The arguments that have `ffprobe` read a file from its standard input and report
/// time and flags of each packet of the first video stream, one line each.
pub open spec fn keyframe_args() -> Seq<Seq<char>> {
    seq![
        "-v"@,
        "quiet"@,
        "-select_streams"@,
        "v:0"@,
        "-show_packets"@,
        "-show_entries"@,
        "packet=pts_time,flags"@,
        "-of"@,
        "csv=p=0"@,
        "-"@,
    ]
}

/// The arguments that have `ffprobe` read a file from its standard input and report
/// time and flags of each packet of the first video stream, one line each.
pub fn keyframe_probe_args() -> (args: Vec<String>)
    ensures
        contents(args@) == keyframe_args(),
{
    let args = vec![
        "-v".to_owned(),
        "quiet".to_owned(),
        "-select_streams".to_owned(),
        "v:0".to_owned(),
        "-show_packets".to_owned(),
        "-show_entries".to_owned(),
        "packet=pts_time,flags".to_owned(),
        "-of".to_owned(),
        "csv=p=0".to_owned(),
        "-".to_owned(),
    ];
    assert(contents(args@) =~= keyframe_args());
    args
}

/// The time that a line such as `4.000000,K_` gives, if it is that of a keyframe:
/// the text in front of the first comma, where `K` stands behind it.
pub open spec fn keyframe_time(line: Seq<char>) -> Option<Seq<char>> {
    match after_first(line, ',') {
        Some(flags) => if flags.len() > 0 && flags[0] == 'K' {
            Some(before_first(line, ','))
        } else {
            None
        },
        None => None,
    }
}

/// Every line of a keyframe counts: with a time of any length, and whatever follows the
/// `K` behind the first comma, the time is what stands in front of that comma.
pub proof fn law_keyframe_line_gives_its_time(time: Seq<char>, flags: Seq<char>)
    requires
        forall|i: int| 0 <= i < time.len() ==> time[i] != ',',
    ensures
        keyframe_time(time + seq![',', 'K'] + flags) == Some(time),
{
    let back = seq!['K'] + flags;
    assert(time + seq![',', 'K'] + flags =~= time + seq![','] + back);
    law_cut_at_first(time, ',', back);
}

/// No other line counts: one that gives a time has it in front of its first comma, and a
/// `K` behind that.
pub proof fn law_only_keyframe_lines_count(line: Seq<char>)
    ensures
        keyframe_time(line) matches Some(time) ==> {
            &&& forall|i: int| 0 <= i < time.len() ==> time[i] != ','
            &&& time.len() + 2 <= line.len()
            &&& line == time + seq![',', 'K'] + line.skip(time.len() as int + 2)
        },
{
    lemma_find(line, ',');
    match keyframe_time(line) {
        Some(time) => {
            assert(line.skip(find(line, ',') + 1)[0] == line[find(line, ',') + 1]);
            assert(line =~= time + seq![',', 'K'] + line.skip(time.len() as int + 2));
        },
        None => {},
    }
}

/// The text of the time in a line such as `4.000000,K_`, if it is that of a
/// keyframe.
pub fn keyframe_pts(line: &str) -> (r: Option<String>)
    ensures
        r is Some <==> keyframe_time(line@) is Some,
        r matches Some(s) ==> keyframe_time(line@) == Some(s@),
{
    let v = chars_of(line);
    let comma = find_char(v.as_slice(), ',');
    proof {
        lemma_find(line@, ',');
    }
    if comma < v.len() && v.len() - comma > 1 && v[comma + 1] == 'K' {
        let s = string_of(v.as_slice(), 0, comma);
        assert(s@ =~= before_first(line@, ','));
        assert(line@.skip(find(line@, ',') + 1)[0] == v@[comma + 1]);
        Some(s)
    } else {
        None
    }
}

/// Whether one timestamp stands in front of another.
pub open spec fn in_order() -> spec_fn(u32, u32) -> bool {
    |a: u32, b: u32| a <= b
}

/// `<[u32]>::sort_unstable` of std: the same numbers, in ascending order.
#[verifier::external_body]
fn sort_unstable(v: &mut Vec<u32>)
    ensures
        vstd::relations::sorted_by(final(v)@, in_order()),
        final(v)@.to_multiset() == old(v)@.to_multiset(),
{
    v.sort_unstable();
}

/// `timestamps` with the first one at zero where it is below 100 milliseconds.
pub open spec fn start_at_zero(timestamps: Seq<u32>) -> Seq<u32> {
    if timestamps[0] < 100 {
        timestamps.update(0, 0)
    } else {
        timestamps
    }
}

/// The keyframes of a video, from the times that the probe reported: in ascending
/// order, with the first one at zero where it is below 100 milliseconds.
pub fn keyframes_from_probe(timestamps_ms: Vec<u32>) -> (r: Result<Keyframes, MetadataError>)
    ensures
        timestamps_ms@.len() == 0 ==> r == Err::<Keyframes, _>(MetadataError::NoKeyframe),
        timestamps_ms@.len() > 0 ==> (r matches Ok(k) && k.timestamps_ms@ == start_at_zero(
            timestamps_ms@.sort_by(in_order()),
        ) && ascending(k.timestamps_ms@)),
{
    if timestamps_ms.len() == 0 {
        return Err(MetadataError::NoKeyframe);
    }
    let mut t = timestamps_ms;
    sort_unstable(&mut t);
    proof {
        timestamps_ms@.lemma_sort_by_ensures(in_order());
        vstd::seq_lib::lemma_sorted_unique(t@, timestamps_ms@.sort_by(in_order()), in_order());
        broadcast use vstd::seq_lib::group_to_multiset_ensures;

        assert(t@.len() == t@.to_multiset().len());
    }
    let ghost s = t@;
    if t[0] < 100 {
        t.set(0, 0);
    }
    assert forall|i: int, j: int| 0 <= i <= j < t@.len() implies t@[i] <= t@[j] by {
        if i < j {
            assert(in_order()(s[i], s[j]));
        }
    }
    Ok(Keyframes { timestamps_ms: t })
}

/// What becomes of the times that the probe reported: none is lost and none is added,
/// they come out in ascending order, and the earliest one alone is set to zero, if it is
/// below 100 milliseconds.
pub proof fn law_reported_keyframes(timestamps: Seq<u32>, earliest: u32)
    requires
        timestamps.contains(earliest),
        forall|i: int| 0 <= i < timestamps.len() ==> earliest <= #[trigger] timestamps[i],
    ensures
        ({
            let out = start_at_zero(timestamps.sort_by(in_order()));
            &&& out.len() == timestamps.len()
            &&& out[0] == if earliest < 100 {
                0
            } else {
                earliest
            }
            &&& out.update(0, earliest).to_multiset() == timestamps.to_multiset()
            &&& forall|i: int, j: int| 0 <= i <= j < out.len() ==> out[i] <= out[j]
        }),
{
    let t = timestamps.sort_by(in_order());
    let out = start_at_zero(t);
    timestamps.lemma_sort_by_ensures(in_order());
    broadcast use vstd::seq_lib::group_to_multiset_ensures;

    assert(t.len() == t.to_multiset().len());
    assert(timestamps.to_multiset().contains(earliest));
    assert(t.contains(earliest));
    let k = choose|k: int| 0 <= k < t.len() && t[k] == earliest;
    if k > 0 {
        assert(in_order()(t[0], t[k]));
    }
    assert(t.contains(t[0]));
    assert(timestamps.to_multiset().contains(t[0]));
    assert(timestamps.contains(t[0]));
    assert(t[0] == earliest);
    assert(out.update(0, earliest) =~= t);
    assert forall|i: int, j: int| 0 <= i <= j < out.len() implies out[i] <= out[j] by {
        if i < j {
            assert(in_order()(t[i], t[j]));
        }
    }
}

/// The format probe fails where its process does.
pub fn check_meta_probe(success: bool, stderr: String) -> (r: Result<(), MetadataError>)
    ensures
        r == if success {
            Ok::<(), MetadataError>(())
        } else {
            Err(MetadataError::MetaFailed(stderr))
        },
{
    if success {
        Ok(())
    } else {
        Err(MetadataError::MetaFailed(stderr))
    }
}

/// The keyframe probe fails where its process does.
pub fn check_keyframe_probe(success: bool, code: Option<i32>) -> (r: Result<(), MetadataError>)
    ensures
        r == if success {
            Ok::<(), MetadataError>(())
        } else {
            Err(MetadataError::KeyframesFailed(code))
        },
{
    if success {
        Ok(())
    } else {
        Err(MetadataError::KeyframesFailed(code))
    }
}

} // verus!
