//! Ingest writers: the transactional inserts for video chunks, frames,
//! OCR text, audio chunks, transcriptions, speakers and embeddings, and
//! the bulk updates. Each runs as one transaction on the store value:
//! it either applies whole or leaves the store unchanged.

use vstd::prelude::*;

use crate::store::{
    chunk_frame_count, has_key, lemma_has_key_push, DatabaseManager, DbView, Keyed,
};
use crate::text::str_eq;
use crate::types::{
    opt_ref_view, opt_string_or, AudioChunkRow, AudioChunkRowV, AudioDevice, DbError, FrameRow, FrameRowV,
    OcrEmbeddingRow,
    OcrEmbeddingRowV, OcrRow, OcrRowV, Speaker, SpeakerEmbeddingRow, SpeakerEmbeddingRowV,
    SpeakerRow, SpeakerRowV, SpeakerV, TranscriptionRow, TranscriptionRowV, UiRow, UiRowV, VideoChunkRow,
    VideoChunkRowV, VideoMetadata,
};

verus! {

/// The UTF-8 byte length of a text, as the store's `LENGTH` counts it.
#[verifier::opaque]
pub open spec fn byte_len(s: Seq<char>) -> nat {
    vstd::utf8::encode_utf8(s).len()
}

/// Relies on std's `SystemTime::now` for the wall clock; nothing is
/// promised of the value. A clock set before the epoch yields 0 rather
/// than failing.
#[verifier::external_body]
fn now_millis() -> i64 {
    match std::time::SystemTime::now().duration_since(std::time::UNIX_EPOCH) {
        Ok(d) => d.as_millis() as i64,
        Err(_) => 0,
    }
}

// ---------------------------------------------------------------------------
// Lookup helpers over audio chunks (keyed by file path) and video chunks
// (latest per device)
// ---------------------------------------------------------------------------

/// The first audio chunk whose file path is `path`.
pub open spec fn first_chunk_with_path(s: Seq<AudioChunkRowV>, path: Seq<char>) -> Option<
    AudioChunkRowV,
>
    decreases s.len(),
{
    if s.len() == 0 {
        None
    } else if s[0].file_path == path {
        Some(s[0])
    } else {
        first_chunk_with_path(s.drop_first(), path)
    }
}

pub proof fn lemma_first_chunk_with_path_at(s: Seq<AudioChunkRowV>, path: Seq<char>, i: int)
    requires
        0 <= i < s.len(),
        s[i].file_path == path,
        forall|j: int| 0 <= j < i ==> (#[trigger] s[j]).file_path != path,
    ensures
        first_chunk_with_path(s, path) == Some(s[i]),
    decreases s.len(),
{
    if i > 0 {
        lemma_first_chunk_with_path_at(s.drop_first(), path, i - 1);
    }
}

pub proof fn lemma_first_chunk_with_path_none(s: Seq<AudioChunkRowV>, path: Seq<char>)
    requires
        forall|j: int| 0 <= j < s.len() ==> (#[trigger] s[j]).file_path != path,
    ensures
        first_chunk_with_path(s, path) is None,
    decreases s.len(),
{
    if s.len() > 0 {
        lemma_first_chunk_with_path_none(s.drop_first(), path);
    }
}

/// A found chunk is a row of the table.
pub proof fn lemma_first_chunk_with_path_props(s: Seq<AudioChunkRowV>, path: Seq<char>)
    ensures
        first_chunk_with_path(s, path) matches Some(c) ==> s.contains(c) && c.file_path == path,
    decreases s.len(),
{
    if s.len() > 0 && s[0].file_path != path {
        lemma_first_chunk_with_path_props(s.drop_first(), path);
        if first_chunk_with_path(s.drop_first(), path) is Some {
            let c = first_chunk_with_path(s.drop_first(), path)->Some_0;
            let i = choose|i: int| 0 <= i < s.drop_first().len() && s.drop_first()[i] == c;
            assert(s[i + 1] == c);
        }
    }
}

/// The most recent video chunk for a device: the matching row with the
/// greatest identifier.
pub open spec fn latest_chunk_for_device(s: Seq<VideoChunkRowV>, device: Seq<char>) -> Option<
    VideoChunkRowV,
>
    decreases s.len(),
{
    if s.len() == 0 {
        None
    } else {
        let rest = latest_chunk_for_device(s.drop_last(), device);
        if s.last().device_name == device {
            match rest {
                None => Some(s.last()),
                Some(b) => if s.last().id > b.id {
                    Some(s.last())
                } else {
                    Some(b)
                },
            }
        } else {
            rest
        }
    }
}

pub proof fn lemma_latest_chunk_props(s: Seq<VideoChunkRowV>, device: Seq<char>)
    ensures
        latest_chunk_for_device(s, device) matches Some(c) ==> s.contains(c) && c.device_name
            == device,
        latest_chunk_for_device(s, device) is None ==> forall|i: int|
            0 <= i < s.len() ==> (#[trigger] s[i]).device_name != device,
    decreases s.len(),
{
    if s.len() > 0 {
        lemma_latest_chunk_props(s.drop_last(), device);
        let rest = latest_chunk_for_device(s.drop_last(), device);
        if rest is Some {
            let b = rest->Some_0;
            let i = choose|i: int| 0 <= i < s.drop_last().len() && s.drop_last()[i] == b;
            assert(s[i] == b);
        }
        if latest_chunk_for_device(s, device) is None {
            assert forall|i: int| 0 <= i < s.len() implies (#[trigger] s[i]).device_name != device
                by {
                if i < s.len() - 1 {
                    assert(s.drop_last()[i] == s[i]);
                }
            }
        }
    }
}

/// The greatest frame offset inside a chunk, or -1 with no frames.
pub open spec fn max_offset(frames: Seq<FrameRowV>, chunk_id: i64) -> int
    decreases frames.len(),
{
    if frames.len() == 0 {
        -1
    } else {
        let m = max_offset(frames.drop_last(), chunk_id);
        if frames.last().video_chunk_id == chunk_id && frames.last().offset_index > m {
            frames.last().offset_index as int
        } else {
            m
        }
    }
}

pub proof fn lemma_max_offset_props(frames: Seq<FrameRowV>, chunk_id: i64)
    ensures
        max_offset(frames, chunk_id) >= -1,
        forall|i: int|
            0 <= i < frames.len() && (#[trigger] frames[i]).video_chunk_id == chunk_id
                ==> frames[i].offset_index <= max_offset(frames, chunk_id),
        max_offset(frames, chunk_id) >= 0 ==> exists|i: int|
            0 <= i < frames.len() && (#[trigger] frames[i]).video_chunk_id == chunk_id
                && frames[i].offset_index == max_offset(frames, chunk_id),
    decreases frames.len(),
{
    if frames.len() > 0 {
        lemma_max_offset_props(frames.drop_last(), chunk_id);
        let m = max_offset(frames.drop_last(), chunk_id);
        assert forall|i: int|
            0 <= i < frames.len() && (#[trigger] frames[i]).video_chunk_id == chunk_id implies
            frames[i].offset_index <= max_offset(frames, chunk_id) by {
            if i < frames.len() - 1 {
                assert(frames.drop_last()[i] == frames[i]);
            }
        }
        if max_offset(frames, chunk_id) >= 0 {
            if frames.last().video_chunk_id == chunk_id && frames.last().offset_index > m {
                assert(frames[frames.len() - 1].video_chunk_id == chunk_id);
            } else {
                let dl = frames.drop_last();
                let i = choose|i: int|
                    0 <= i < dl.len() && (#[trigger] dl[i]).video_chunk_id == chunk_id
                        && dl[i].offset_index == m;
                assert(frames[i].video_chunk_id == chunk_id);
            }
        }
    }
}

// ---------------------------------------------------------------------------
// The transitions, as functions of the model
// ---------------------------------------------------------------------------

pub open spec fn spec_insert_video_chunk(
    db: DbView,
    path: Seq<char>,
    device: Seq<char>,
    t: i64,
) -> (DbView, i64) {
    (
        DbView {
            video_chunks: db.video_chunks.push(
                VideoChunkRowV {
                    id: db.next_video_chunk_id,
                    file_path: path,
                    device_name: device,
                    timestamp: t,
                },
            ),
            next_video_chunk_id: (db.next_video_chunk_id + 1) as i64,
            ..db
        },
        db.next_video_chunk_id,
    )
}

pub open spec fn spec_insert_audio_chunk(db: DbView, path: Seq<char>, t: i64) -> (DbView, i64) {
    (
        DbView {
            audio_chunks: db.audio_chunks.push(
                AudioChunkRowV { id: db.next_audio_chunk_id, file_path: path, timestamp: t },
            ),
            next_audio_chunk_id: (db.next_audio_chunk_id + 1) as i64,
            ..db
        },
        db.next_audio_chunk_id,
    )
}

/// Get-or-insert on audio chunks: the id of the first row carrying the
/// path, or a fresh row.
pub open spec fn spec_get_or_insert_audio_chunk(db: DbView, path: Seq<char>, t: i64) -> (
    DbView,
    i64,
) {
    match first_chunk_with_path(db.audio_chunks, path) {
        Some(c) => (db, c.id),
        None => spec_insert_audio_chunk(db, path, t),
    }
}

pub open spec fn spec_insert_frame(db: DbView, chunk: VideoChunkRowV, t: i64, url: Option<
    Seq<char>,
>) -> (DbView, i64) {
    (
        DbView {
            frames: db.frames.push(
                FrameRowV {
                    id: db.next_frame_id,
                    video_chunk_id: chunk.id,
                    offset_index: (max_offset(db.frames, chunk.id) + 1) as i64,
                    timestamp: t,
                    name: chunk.file_path,
                    browser_url: url,
                },
            ),
            next_frame_id: (db.next_frame_id + 1) as i64,
            ..db
        },
        db.next_frame_id,
    )
}

pub open spec fn spec_insert_ocr_text(
    db: DbView,
    frame_id: i64,
    text: Seq<char>,
    text_json: Seq<char>,
    app_name: Seq<char>,
    window_name: Seq<char>,
    ocr_engine: Seq<char>,
    focused: bool,
) -> DbView {
    DbView {
        ocr: db.ocr.push(
            OcrRowV {
                frame_id,
                text,
                text_json,
                app_name,
                window_name,
                ocr_engine,
                focused,
                text_length: byte_len(text) as usize,
            },
        ),
        ..db
    }
}

pub open spec fn spec_insert_audio_transcription(
    db: DbView,
    audio_chunk_id: i64,
    transcription: Seq<char>,
    offset_index: i64,
    engine: Seq<char>,
    device: Seq<char>,
    is_input: bool,
    speaker_id: Option<i64>,
    start_time: Option<i64>,
    end_time: Option<i64>,
    t: i64,
) -> (DbView, i64) {
    (
        DbView {
            transcriptions: db.transcriptions.push(
                TranscriptionRowV {
                    id: db.next_transcription_id,
                    audio_chunk_id,
                    transcription,
                    offset_index,
                    timestamp: t,
                    transcription_engine: engine,
                    device,
                    is_input_device: is_input,
                    speaker_id,
                    start_time,
                    end_time,
                    text_length: byte_len(transcription) as usize,
                },
            ),
            next_transcription_id: (db.next_transcription_id + 1) as i64,
            ..db
        },
        db.next_transcription_id,
    )
}

pub open spec fn spec_insert_speaker(db: DbView, embedding: Seq<u8>) -> (DbView, SpeakerV) {
    (
        DbView {
            speakers: db.speakers.push(
                SpeakerRowV {
                    id: db.next_speaker_id,
                    name: Seq::empty(),
                    metadata: Seq::empty(),
                    hallucination: false,
                },
            ),
            speaker_embeddings: db.speaker_embeddings.push(
                SpeakerEmbeddingRowV { speaker_id: db.next_speaker_id, embedding },
            ),
            next_speaker_id: (db.next_speaker_id + 1) as i64,
            ..db
        },
        SpeakerV { id: db.next_speaker_id, name: Seq::empty(), metadata: Seq::empty() },
    )
}

/// The frame table after a bulk rename: of one frame (`by_frame` with the
/// frame's id) or of a whole chunk's frames (the chunk's id).
pub open spec fn spec_rename_frames(
    frames: Seq<FrameRowV>,
    by_frame: bool,
    key: i64,
    name: Seq<char>,
) -> Seq<FrameRowV> {
    frames.map_values(
        |f: FrameRowV|
            if (if by_frame {
                f.id == key
            } else {
                f.video_chunk_id == key
            }) {
                FrameRowV { name, ..f }
            } else {
                f
            },
    )
}

/// `db` with its frame table replaced: the shape the bulk updates keep.
pub open spec fn db_with_frames(db: DbView, frames: Seq<FrameRowV>) -> DbView {
    DbView { frames, ..db }
}

/// A bulk frame rename preserves the invariant: it changes names only.
#[verifier::rlimit(100)]
pub proof fn lemma_rename_frames_wf(
    pre: DbView,
    post: DbView,
    by_frame: bool,
    key: i64,
    name: Seq<char>,
)
    requires
        pre.wf(),
        post == db_with_frames(pre, spec_rename_frames(pre.frames, by_frame, key, name)),
    ensures
        post.wf(),
{
    let mapped = spec_rename_frames(pre.frames, by_frame, key, name);
    assert(forall|j: int|
        0 <= j < mapped.len() ==> (#[trigger] mapped[j]).id == pre.frames[j].id && (
        #[trigger] mapped[j]).video_chunk_id == pre.frames[j].video_chunk_id && (
        #[trigger] mapped[j]).offset_index == pre.frames[j].offset_index);
    assert forall|a: int, b: int| 0 <= a < b < post.frames.len() implies (
    #[trigger] post.frames[a]).id != (#[trigger] post.frames[b]).id by {
        assert(post.frames[a].id == pre.frames[a].id && post.frames[b].id == pre.frames[b].id);
    }
    assert forall|a: int, b: int| 0 <= a < b < post.frames.len() implies !((
    #[trigger] post.frames[a]).video_chunk_id == (#[trigger] post.frames[b]).video_chunk_id
        && post.frames[a].offset_index == post.frames[b].offset_index) by {
        assert(post.frames[a].video_chunk_id == pre.frames[a].video_chunk_id
            && post.frames[b].video_chunk_id == pre.frames[b].video_chunk_id);
    }
    assert forall|a: int| 0 <= a < post.frames.len() implies 1 <= (
    #[trigger] post.frames[a]).id < post.next_frame_id by {
        assert(post.frames[a].id == pre.frames[a].id);
    }
    assert forall|a: int| 0 <= a < post.frames.len() implies has_key(
        post.video_chunks,
        (#[trigger] post.frames[a]).video_chunk_id,
    ) by {
        assert(post.frames[a].video_chunk_id == pre.frames[a].video_chunk_id);
    }
    assert forall|i: int| 0 <= i < post.ocr.len() implies has_key(
        post.frames,
        (#[trigger] post.ocr[i]).frame_id,
    ) by {
        assert(has_key(pre.frames, pre.ocr[i].frame_id));
        let fid = pre.ocr[i].frame_id;
        let w = choose|w: int|
            0 <= w < pre.frames.len() && (#[trigger] pre.frames[w]).key() == fid;
        assert(post.frames[w].key() == fid);
    }
    assert forall|i: int| 0 <= i < post.ocr_embeddings.len() implies has_key(
        post.frames,
        (#[trigger] post.ocr_embeddings[i]).frame_id,
    ) by {
        assert(has_key(pre.frames, pre.ocr_embeddings[i].frame_id));
        let fid = pre.ocr_embeddings[i].frame_id;
        let w = choose|w: int|
            0 <= w < pre.frames.len() && (#[trigger] pre.frames[w]).key() == fid;
        assert(post.frames[w].key() == fid);
    }
    assert forall|a: int| 0 <= a < post.frames.len() implies 0 <= (
    #[trigger] post.frames[a]).offset_index < chunk_frame_count(
        post.frames,
        post.frames[a].video_chunk_id,
    ) by {
        crate::store::lemma_chunk_count_pointwise(
            mapped,
            pre.frames,
            post.frames[a].video_chunk_id,
        );
    }
    assert forall|a: int|
        0 <= a < post.frames.len() && (#[trigger] post.frames[a]).offset_index > 0 implies exists|
            b: int,
        |
            0 <= b < post.frames.len() && (#[trigger] post.frames[b]).video_chunk_id
                == post.frames[a].video_chunk_id && post.frames[b].offset_index
                == post.frames[a].offset_index - 1 by {
        let fa = pre.frames[a];
        let b = choose|b: int|
            0 <= b < pre.frames.len() && (#[trigger] pre.frames[b]).video_chunk_id
                == fa.video_chunk_id && pre.frames[b].offset_index == fa.offset_index - 1;
        assert(post.frames[b].video_chunk_id == post.frames[a].video_chunk_id
            && post.frames[b].offset_index == post.frames[a].offset_index - 1);
    }
    assert(post.wf());
}

/// A chunk no frame points at has a zero frame count.
pub proof fn lemma_fresh_chunk_count_zero(frames: Seq<FrameRowV>, cid: i64)
    requires
        forall|i: int| 0 <= i < frames.len() ==> (#[trigger] frames[i]).video_chunk_id != cid,
    ensures
        chunk_frame_count(frames, cid) == 0,
    decreases frames.len(),
{
    reveal(Seq::filter);
    if frames.len() > 0 {
        assert(forall|i: int|
            0 <= i < frames.len() - 1 ==> #[trigger] frames.drop_last()[i] == frames[i]);
        lemma_fresh_chunk_count_zero(frames.drop_last(), cid);
    }
}

/// One imported frame: dense offset `j`, identifier `first_id + j`.
pub open spec fn import_frame(
    cid: i64,
    first_id: i64,
    nm: Seq<char>,
    ct: i64,
    offs: Seq<i64>,
    j: int,
) -> FrameRowV {
    FrameRowV {
        id: (first_id + j) as i64,
        video_chunk_id: cid,
        offset_index: j as i64,
        timestamp: (ct + offs[j]) as i64,
        name: nm,
        browser_url: None,
    }
}

/// The store after the first `k` frames of an import.
pub open spec fn import_state(
    mid: DbView,
    cid: i64,
    first_id: i64,
    nm: Seq<char>,
    ct: i64,
    offs: Seq<i64>,
    k: int,
) -> DbView {
    DbView {
        frames: mid.frames + Seq::new(
            k as nat,
            |j: int| import_frame(cid, first_id, nm, ct, offs, j),
        ),
        next_frame_id: (first_id + k) as i64,
        ..mid
    }
}

/// Importing frames into a fresh chunk preserves the invariant at each
/// step.
#[verifier::rlimit(100)]
pub proof fn lemma_import_state_wf(
    mid: DbView,
    cid: i64,
    first_id: i64,
    nm: Seq<char>,
    ct: i64,
    offs: Seq<i64>,
    k: int,
)
    requires
        mid.wf(),
        first_id == mid.next_frame_id,
        first_id + offs.len() <= i64::MAX,
        has_key(mid.video_chunks, cid),
        chunk_frame_count(mid.frames, cid) == 0,
        0 <= k <= offs.len(),
    ensures
        import_state(mid, cid, first_id, nm, ct, offs, k).wf(),
        chunk_frame_count(import_state(mid, cid, first_id, nm, ct, offs, k).frames, cid) == k,
    decreases k,
{
    broadcast use Seq::lemma_filter_push;

    let cur = import_state(mid, cid, first_id, nm, ct, offs, k);
    if k == 0 {
        assert(cur.frames =~= mid.frames);
        assert(cur.next_frame_id == mid.next_frame_id);
        assert(cur.wf());
    } else {
        lemma_import_state_wf(mid, cid, first_id, nm, ct, offs, k - 1);
        let prev = import_state(mid, cid, first_id, nm, ct, offs, k - 1);
        let f = import_frame(cid, first_id, nm, ct, offs, k - 1);
        assert(cur.frames =~= prev.frames.push(f));
        // Uniqueness: every earlier frame of the chunk is one of the
        // generated ones, with a smaller offset.
        assert forall|a: int, b: int| 0 <= a < b < cur.frames.len() implies !((
        #[trigger] cur.frames[a]).video_chunk_id == (#[trigger] cur.frames[b]).video_chunk_id
            && cur.frames[a].offset_index == cur.frames[b].offset_index) by {
            if b == cur.frames.len() - 1 {
                assert(cur.frames[a] == prev.frames[a]);
                if a < mid.frames.len() {
                    if mid.frames[a].video_chunk_id == cid {
                        assert(0 <= mid.frames[a].offset_index < chunk_frame_count(
                            mid.frames,
                            cid,
                        ));
                    }
                }
            }
        }
        assert forall|a: int| 0 <= a < cur.frames.len() implies 0 <= (
        #[trigger] cur.frames[a]).offset_index < chunk_frame_count(
            cur.frames,
            cur.frames[a].video_chunk_id,
        ) by {
            let ca = cur.frames[a].video_chunk_id;
            assert(cur.frames.filter(|fr: FrameRowV| fr.video_chunk_id == ca) == if f
                .video_chunk_id == ca {
                prev.frames.filter(|fr: FrameRowV| fr.video_chunk_id == ca).push(f)
            } else {
                prev.frames.filter(|fr: FrameRowV| fr.video_chunk_id == ca)
            });
            if a < cur.frames.len() - 1 {
                assert(cur.frames[a] == prev.frames[a]);
                assert(0 <= prev.frames[a].offset_index < chunk_frame_count(prev.frames, ca));
            } else {
                assert(chunk_frame_count(cur.frames, cid) == chunk_frame_count(
                    prev.frames,
                    cid,
                ) + 1);
            }
        }
        assert forall|a: int|
            0 <= a < cur.frames.len() && (#[trigger] cur.frames[a]).offset_index > 0 implies
            exists|b: int|
                0 <= b < cur.frames.len() && (#[trigger] cur.frames[b]).video_chunk_id
                    == cur.frames[a].video_chunk_id && cur.frames[b].offset_index
                    == cur.frames[a].offset_index - 1 by {
            if a < cur.frames.len() - 1 {
                let b = choose|b: int|
                    0 <= b < prev.frames.len() && (#[trigger] prev.frames[b]).video_chunk_id
                        == prev.frames[a].video_chunk_id && prev.frames[b].offset_index
                        == prev.frames[a].offset_index - 1;
                assert(cur.frames[b] == prev.frames[b]);
            } else {
                if cur.frames[a].offset_index > 0 {
                    let b = mid.frames.len() + (k - 2);
                    assert(cur.frames[b].video_chunk_id == cid);
                }
            }
        }
        assert forall|i: int| 0 <= i < cur.ocr.len() implies has_key(
            cur.frames,
            (#[trigger] cur.ocr[i]).frame_id,
        ) by {
            assert(prev.ocr[i] == cur.ocr[i]);
            assert(has_key(prev.frames, prev.ocr[i].frame_id));
            lemma_has_key_push(prev.frames, f, cur.ocr[i].frame_id);
        }
        assert forall|i: int| 0 <= i < cur.ocr_embeddings.len() implies has_key(
            cur.frames,
            (#[trigger] cur.ocr_embeddings[i]).frame_id,
        ) by {
            assert(prev.ocr_embeddings[i] == cur.ocr_embeddings[i]);
            assert(has_key(prev.frames, prev.ocr_embeddings[i].frame_id));
            lemma_has_key_push(prev.frames, f, cur.ocr_embeddings[i].frame_id);
        }
        assert forall|i: int| 0 <= i < cur.frames.len() implies has_key(
            cur.video_chunks,
            (#[trigger] cur.frames[i]).video_chunk_id,
        ) by {
            if i < cur.frames.len() - 1 {
                assert(cur.frames[i] == prev.frames[i]);
            }
        }
        assert(cur.wf());
    }
}

fn clone_bytes(v: &Vec<u8>) -> (r: Vec<u8>)
    ensures
        r@ == v@,
{
    let mut r: Vec<u8> = Vec::new();
    let mut i: usize = 0;
    while i < v.len()
        invariant
            i <= v@.len(),
            r@ == v@.subrange(0, i as int),
        decreases v@.len() - i,
    {
        r.push(v[i]);
        i = i + 1;
        proof {
            assert(r@ =~= v@.subrange(0, i as int));
        }
    }
    proof {
        assert(r@ =~= v@);
    }
    r
}


/// Appending a frame at one past the chunk's greatest offset preserves
/// the invariant.
#[verifier::rlimit(100)]
pub proof fn lemma_insert_frame_wf(
    pre: DbView,
    post: DbView,
    c: VideoChunkRowV,
    t: i64,
    url: Option<Seq<char>>,
)
    requires
        pre.wf(),
        pre.video_chunks.contains(c),
        max_offset(pre.frames, c.id) < i64::MAX,
        pre.next_frame_id < i64::MAX,
        post == spec_insert_frame(pre, c, t, url).0,
    ensures
        post.wf(),
{
    broadcast use Seq::lemma_filter_push;

    let m = max_offset(pre.frames, c.id);
    let f = FrameRowV {
        id: pre.next_frame_id,
        video_chunk_id: c.id,
        offset_index: (m + 1) as i64,
        timestamp: t,
        name: c.file_path,
        browser_url: url,
    };
    assert(post.frames =~= pre.frames.push(f));
    lemma_max_offset_props(pre.frames, c.id);
    assert(has_key(post.video_chunks, c.id)) by {
        let w = choose|w: int| 0 <= w < pre.video_chunks.len() && pre.video_chunks[w] == c;
        assert(pre.video_chunks[w].key() == c.id);
    }
    assert forall|j: int| 0 <= j < post.ocr.len() implies has_key(
        post.frames,
        (#[trigger] post.ocr[j]).frame_id,
    ) by {
        lemma_has_key_push(pre.frames, f, post.ocr[j].frame_id);
    }
    assert forall|j: int| 0 <= j < post.ocr_embeddings.len() implies has_key(
        post.frames,
        (#[trigger] post.ocr_embeddings[j]).frame_id,
    ) by {
        lemma_has_key_push(pre.frames, f, post.ocr_embeddings[j].frame_id);
    }
    assert forall|a: int, b: int| 0 <= a < b < post.frames.len() implies !((
    #[trigger] post.frames[a]).video_chunk_id == (#[trigger] post.frames[b]).video_chunk_id
        && post.frames[a].offset_index == post.frames[b].offset_index) by {
        if b == post.frames.len() - 1 {
            assert(post.frames[a] == pre.frames[a]);
            if pre.frames[a].video_chunk_id == c.id {
                assert(pre.frames[a].offset_index <= m);
            }
        }
    }
    assert forall|a: int| 0 <= a < post.frames.len() implies 0 <= (
    #[trigger] post.frames[a]).offset_index < chunk_frame_count(
        post.frames,
        post.frames[a].video_chunk_id,
    ) by {
        let cid = post.frames[a].video_chunk_id;
        assert(post.frames.filter(|fr: FrameRowV| fr.video_chunk_id == cid) == if f
            .video_chunk_id == cid {
            pre.frames.filter(|fr: FrameRowV| fr.video_chunk_id == cid).push(f)
        } else {
            pre.frames.filter(|fr: FrameRowV| fr.video_chunk_id == cid)
        });
        if a < post.frames.len() - 1 {
            assert(post.frames[a] == pre.frames[a]);
            assert(0 <= pre.frames[a].offset_index < chunk_frame_count(pre.frames, cid));
            assert(chunk_frame_count(post.frames, cid) >= chunk_frame_count(pre.frames, cid));
        } else {
            if m >= 0 {
                let w = choose|w: int|
                    0 <= w < pre.frames.len() && (#[trigger] pre.frames[w]).video_chunk_id == c.id
                        && pre.frames[w].offset_index == m;
                assert(pre.frames[w].offset_index < chunk_frame_count(pre.frames, c.id));
            }
            assert(chunk_frame_count(post.frames, c.id) == chunk_frame_count(pre.frames, c.id)
                + 1);
        }
    }
    assert forall|a: int|
        0 <= a < post.frames.len() && (#[trigger] post.frames[a]).offset_index > 0 implies exists|
            b: int,
        |
            0 <= b < post.frames.len() && (#[trigger] post.frames[b]).video_chunk_id
                == post.frames[a].video_chunk_id && post.frames[b].offset_index
                == post.frames[a].offset_index - 1 by {
        if a < post.frames.len() - 1 {
            assert(pre.frames[a].offset_index > 0);
            let fa = pre.frames[a];
            let b = choose|b: int|
                0 <= b < pre.frames.len() && (#[trigger] pre.frames[b]).video_chunk_id
                    == fa.video_chunk_id && pre.frames[b].offset_index == fa.offset_index - 1;
            assert(post.frames[b] == pre.frames[b]);
        } else {
            if post.frames[a].offset_index > 0 {
                let b = choose|b: int|
                    0 <= b < pre.frames.len() && (#[trigger] pre.frames[b]).video_chunk_id == c.id
                        && pre.frames[b].offset_index == m;
                assert(post.frames[b] == pre.frames[b]);
            }
        }
    }
    assert(post.wf());
}



// ---------------------------------------------------------------------------
// Writers
// ---------------------------------------------------------------------------

impl DatabaseManager {
    /// Insert a new video chunk; always creates a row.
    pub fn insert_video_chunk(&mut self, file_path: &str, device_name: &str) -> (r: Result<
        i64,
        DbError,
    >)
        requires
            old(self)@.wf(),
        ensures
            final(self)@.wf(),
            old(self)@.next_video_chunk_id == i64::MAX ==> (r matches Err(
                DbError::StoreUnavailable,
            ) && final(self)@ == old(self)@),
            old(self)@.next_video_chunk_id < i64::MAX ==> exists|t: i64|
                #[trigger] spec_insert_video_chunk(old(self)@, file_path@, device_name@, t) == (
                final(self)@,
                r->Ok_0,
                ) && r is Ok,
    {
        if self.next_video_chunk_id == i64::MAX {
            return Err(DbError::StoreUnavailable);
        }
        let id = self.next_video_chunk_id;
        let t = now_millis();
        let row = VideoChunkRow {
            id,
            file_path: file_path.to_owned(),
            device_name: device_name.to_owned(),
            timestamp: t,
        };
        self.video_chunks.push(row);
        self.next_video_chunk_id = id + 1;
        proof {
            let post = self@;
            let pre = old(self)@;
            assert(post.video_chunks =~= pre.video_chunks.push(
                VideoChunkRowV {
                    id,
                    file_path: file_path@,
                    device_name: device_name@,
                    timestamp: t,
                },
            ));
            assert(spec_insert_video_chunk(pre, file_path@, device_name@, t) == (post, id));
            assert forall|i: int| 0 <= i < post.frames.len() implies has_key(
                post.video_chunks,
                (#[trigger] post.frames[i]).video_chunk_id,
            ) by {
                lemma_has_key_push(
                    pre.video_chunks,
                    post.video_chunks.last(),
                    post.frames[i].video_chunk_id,
                );
            }
            assert(post.wf());
        }
        Ok(id)
    }

    /// Insert a new audio chunk row.
    pub fn insert_audio_chunk(&mut self, file_path: &str) -> (r: Result<i64, DbError>)
        requires
            old(self)@.wf(),
        ensures
            final(self)@.wf(),
            old(self)@.next_audio_chunk_id == i64::MAX ==> (r matches Err(
                DbError::StoreUnavailable,
            ) && final(self)@ == old(self)@),
            old(self)@.next_audio_chunk_id < i64::MAX ==> exists|t: i64|
                #[trigger] spec_insert_audio_chunk(old(self)@, file_path@, t) == (
                final(self)@,
                r->Ok_0,
                ) && r is Ok,
    {
        if self.next_audio_chunk_id == i64::MAX {
            return Err(DbError::StoreUnavailable);
        }
        let id = self.next_audio_chunk_id;
        let t = now_millis();
        let row = AudioChunkRow { id, file_path: file_path.to_owned(), timestamp: t };
        self.audio_chunks.push(row);
        self.next_audio_chunk_id = id + 1;
        proof {
            let post = self@;
            let pre = old(self)@;
            assert(post.audio_chunks =~= pre.audio_chunks.push(
                AudioChunkRowV { id, file_path: file_path@, timestamp: t },
            ));
            assert(spec_insert_audio_chunk(pre, file_path@, t) == (post, id));
            assert forall|i: int| 0 <= i < post.transcriptions.len() implies has_key(
                post.audio_chunks,
                (#[trigger] post.transcriptions[i]).audio_chunk_id,
            ) by {
                lemma_has_key_push(
                    pre.audio_chunks,
                    post.audio_chunks.last(),
                    post.transcriptions[i].audio_chunk_id,
                );
            }
            assert(post.wf());
        }
        Ok(id)
    }

    /// The id of the first audio chunk carrying `file_path`, or 0.
    fn get_audio_chunk_id(&self, file_path: &str) -> (r: i64)
        ensures
            r == match first_chunk_with_path(self@.audio_chunks, file_path@) {
                Some(c) => c.id,
                None => 0,
            },
    {
        let n = self.audio_chunks.len();
        let mut i: usize = 0;
        while i < n
            invariant
                i <= n,
                n == self@.audio_chunks.len(),
                forall|j: int|
                    0 <= j < i ==> (#[trigger] self@.audio_chunks[j]).file_path != file_path@,
            decreases n - i,
        {
            if str_eq(self.audio_chunks[i].file_path.as_str(), file_path) {
                proof {
                    lemma_first_chunk_with_path_at(self@.audio_chunks, file_path@, i as int);
                }
                return self.audio_chunks[i].id;
            }
            i = i + 1;
        }
        proof {
            lemma_first_chunk_with_path_none(self@.audio_chunks, file_path@);
        }
        0
    }

    /// Insert a frame into the most recent video chunk of `device_name`,
    /// allocating the next offset within that chunk. With no chunk for
    /// the device, nothing is inserted and the returned id is 0.
    #[verifier::rlimit(100)]
    pub fn insert_frame(
        &mut self,
        device_name: &str,
        timestamp: Option<i64>,
        browser_url: Option<&str>,
    ) -> (r: Result<i64, DbError>)
        requires
            old(self)@.wf(),
        ensures
            final(self)@.wf(),
            match latest_chunk_for_device(old(self)@.video_chunks, device_name@) {
                None => r == Ok::<i64, DbError>(0) && final(self)@ == old(self)@,
                Some(c) => {
                    if max_offset(old(self)@.frames, c.id) == i64::MAX || old(self)@.next_frame_id
                        == i64::MAX {
                        r matches Err(DbError::StoreUnavailable) && final(self)@ == old(self)@
                    } else {
                        r == Ok::<i64, DbError>(old(self)@.next_frame_id) && match timestamp {
                            Some(ts) => final(self)@ == spec_insert_frame(
                                old(self)@,
                                c,
                                ts,
                                opt_ref_view(browser_url),
                            ).0,
                            None => exists|t: i64|
                                final(self)@ == #[trigger] spec_insert_frame(
                                    old(self)@,
                                    c,
                                    t,
                                    opt_ref_view(browser_url),
                                ).0,
                        }
                    }
                },
            },
    {
        let n = self.video_chunks.len();
        let mut best: usize = n;
        let mut i: usize = 0;
        while i < n
            invariant
                i <= n,
                n == self@.video_chunks.len(),
                best == n || best < i,
                best == n ==> latest_chunk_for_device(
                    self@.video_chunks.subrange(0, i as int),
                    device_name@,
                ) is None,
                best < n ==> latest_chunk_for_device(
                    self@.video_chunks.subrange(0, i as int),
                    device_name@,
                ) == Some(self@.video_chunks[best as int]),
            decreases n - i,
        {
            proof {
                assert(self@.video_chunks.subrange(0, i + 1).drop_last() =~= self@
                    .video_chunks.subrange(0, i as int));
                assert(self@.video_chunks.subrange(0, i + 1).last() == self@.video_chunks[
                    i as int]);
            }
            if str_eq(self.video_chunks[i].device_name.as_str(), device_name) {
                if best == n {
                    best = i;
                } else if self.video_chunks[i].id > self.video_chunks[best].id {
                    best = i;
                }
            }
            i = i + 1;
        }
        proof {
            assert(self@.video_chunks.subrange(0, n as int) =~= self@.video_chunks);
        }
        if best == n {
            return Ok(0);
        }
        let chunk_id = self.video_chunks[best].id;
        let ghost c = self@.video_chunks[best as int];
        // Allocate the next offset: one past the greatest in the chunk.
        let nf = self.frames.len();
        let mut m: i64 = -1;
        let mut k: usize = 0;
        while k < nf
            invariant
                k <= nf,
                nf == self@.frames.len(),
                m as int == max_offset(self@.frames.subrange(0, k as int), chunk_id),
            decreases nf - k,
        {
            proof {
                assert(self@.frames.subrange(0, k + 1).drop_last() =~= self@.frames.subrange(
                    0,
                    k as int,
                ));
                assert(self@.frames.subrange(0, k + 1).last() == self@.frames[k as int]);
            }
            if self.frames[k].video_chunk_id == chunk_id && self.frames[k].offset_index > m {
                m = self.frames[k].offset_index;
            }
            k = k + 1;
        }
        proof {
            assert(self@.frames.subrange(0, nf as int) =~= self@.frames);
        }
        if m == i64::MAX || self.next_frame_id == i64::MAX {
            return Err(DbError::StoreUnavailable);
        }
        let t = match timestamp {
            Some(ts) => ts,
            None => now_millis(),
        };
        let id = self.next_frame_id;
        let name = self.video_chunks[best].file_path.clone();
        let url: Option<String> = match browser_url {
            Some(u) => Some(u.to_owned()),
            None => None,
        };
        let row = FrameRow {
            id,
            video_chunk_id: chunk_id,
            offset_index: m + 1,
            timestamp: t,
            name,
            browser_url: url,
        };
        self.frames.push(row);
        self.next_frame_id = id + 1;
        proof {
            let pre = old(self)@;
            let post = self@;
            let f = FrameRowV {
                id,
                video_chunk_id: chunk_id,
                offset_index: (m + 1) as i64,
                timestamp: t,
                name: c.file_path,
                browser_url: opt_ref_view(browser_url),
            };
            assert(post.frames =~= pre.frames.push(f));
            assert(post == spec_insert_frame(pre, c, t, opt_ref_view(browser_url)).0);
            lemma_latest_chunk_props(pre.video_chunks, device_name@);
            lemma_insert_frame_wf(pre, post, c, t, opt_ref_view(browser_url));
        }
        Ok(id)
    }

    /// Idempotent insert of an audio chunk, de-duplicated by file path.
    pub fn get_or_insert_audio_chunk(&mut self, file_path: &str) -> (r: Result<i64, DbError>)
        requires
            old(self)@.wf(),
        ensures
            final(self)@.wf(),
            first_chunk_with_path(old(self)@.audio_chunks, file_path@) is None && old(
                self,
            )@.next_audio_chunk_id == i64::MAX ==> (r matches Err(DbError::StoreUnavailable)
                && final(self)@ == old(self)@),
            first_chunk_with_path(old(self)@.audio_chunks, file_path@) is Some || old(
                self,
            )@.next_audio_chunk_id < i64::MAX ==> exists|t: i64|
                #[trigger] spec_get_or_insert_audio_chunk(old(self)@, file_path@, t) == (
                final(self)@,
                r->Ok_0,
                ) && r is Ok,
    {
        let id = self.get_audio_chunk_id(file_path);
        proof {
            lemma_first_chunk_with_path_props(self@.audio_chunks, file_path@);
        }
        if id == 0 {
            let r = self.insert_audio_chunk(file_path);
            proof {
                if old(self)@.next_audio_chunk_id < i64::MAX {
                    let t = choose|t: i64|
                        #[trigger] spec_insert_audio_chunk(old(self)@, file_path@, t) == (
                        self@,
                        r->Ok_0,
                        ) && r is Ok;
                    assert(spec_get_or_insert_audio_chunk(old(self)@, file_path@, t) == (
                    self@,
                    r->Ok_0,
                    ));
                }
            }
            r
        } else {
            proof {
                let t0: i64 = 0;
                assert(spec_get_or_insert_audio_chunk(old(self)@, file_path@, t0) == (self@, id));
            }
            Ok(id)
        }
    }

    /// Attach the OCR text of a frame. The frame must exist and carry no
    /// OCR yet; otherwise the write is rejected whole.
    pub fn insert_ocr_text(
        &mut self,
        frame_id: i64,
        text: &str,
        text_json: &str,
        app_name: &str,
        window_name: &str,
        ocr_engine: &str,
        focused: bool,
    ) -> (r: Result<(), DbError>)
        requires
            old(self)@.wf(),
        ensures
            final(self)@.wf(),
            !has_key(old(self)@.frames, frame_id) || has_key(old(self)@.ocr, frame_id) ==> (
            r matches Err(DbError::IntegrityViolation) && final(self)@ == old(self)@),
            has_key(old(self)@.frames, frame_id) && !has_key(old(self)@.ocr, frame_id) ==> (r
                is Ok && final(self)@ == spec_insert_ocr_text(
                old(self)@,
                frame_id,
                text@,
                text_json@,
                app_name@,
                window_name@,
                ocr_engine@,
                focused,
            )),
    {
        let fp = self.frame_pos(frame_id);
        if fp.is_none() {
            return Err(DbError::IntegrityViolation);
        }
        proof {
            assert(self@.frames[fp->Some_0 as int].key() == frame_id);
        }
        let op = self.ocr_pos(frame_id);
        if op.is_some() {
            proof {
                assert(self@.ocr[op->Some_0 as int].key() == frame_id);
            }
            return Err(DbError::IntegrityViolation);
        }
        proof {
            reveal(byte_len);
        }
        let text_length = text.len();
        let row = OcrRow {
            frame_id,
            text: text.to_owned(),
            text_json: text_json.to_owned(),
            app_name: app_name.to_owned(),
            window_name: window_name.to_owned(),
            ocr_engine: ocr_engine.to_owned(),
            focused,
            text_length,
        };
        self.ocr.push(row);
        proof {
            let pre = old(self)@;
            let post = self@;
            assert(post.ocr =~= pre.ocr.push(
                OcrRowV {
                    frame_id,
                    text: text@,
                    text_json: text_json@,
                    app_name: app_name@,
                    window_name: window_name@,
                    ocr_engine: ocr_engine@,
                    focused,
                    text_length: byte_len(text@) as usize,
                },
            ));
            assert forall|a: int, b: int| 0 <= a < b < post.ocr.len() implies (
            #[trigger] post.ocr[a]).frame_id != (#[trigger] post.ocr[b]).frame_id by {
                if b == post.ocr.len() - 1 {
                    if pre.ocr[a].frame_id == frame_id {
                        assert(pre.ocr[a].key() == frame_id);
                    }
                }
            }
            assert(post == spec_insert_ocr_text(
                pre,
                frame_id,
                text@,
                text_json@,
                app_name@,
                window_name@,
                ocr_engine@,
                focused,
            ));
            assert(post.wf());
        }
        Ok(())
    }

    /// Insert a transcription for an existing audio chunk, recording the
    /// transcription's character count alongside it.
    pub fn insert_audio_transcription(
        &mut self,
        audio_chunk_id: i64,
        transcription: &str,
        offset_index: i64,
        transcription_engine: &str,
        device: &AudioDevice,
        speaker_id: Option<i64>,
        start_time: Option<i64>,
        end_time: Option<i64>,
    ) -> (r: Result<i64, DbError>)
        requires
            old(self)@.wf(),
        ensures
            final(self)@.wf(),
            !has_key(old(self)@.audio_chunks, audio_chunk_id) ==> (r matches Err(
                DbError::IntegrityViolation,
            ) && final(self)@ == old(self)@),
            has_key(old(self)@.audio_chunks, audio_chunk_id) && old(self)@.next_transcription_id
                == i64::MAX ==> (r matches Err(DbError::StoreUnavailable) && final(self)@ == old(
                self,
            )@),
            has_key(old(self)@.audio_chunks, audio_chunk_id) && old(self)@.next_transcription_id
                < i64::MAX ==> exists|t: i64|
                #[trigger] spec_insert_audio_transcription(
                    old(self)@,
                    audio_chunk_id,
                    transcription@,
                    offset_index,
                    transcription_engine@,
                    device.name@,
                    device.is_input,
                    speaker_id,
                    start_time,
                    end_time,
                    t,
                ) == (final(self)@, r->Ok_0) && r is Ok,
    {
        let cp = self.audio_chunk_pos(audio_chunk_id);
        if cp.is_none() {
            return Err(DbError::IntegrityViolation);
        }
        proof {
            assert(self@.audio_chunks[cp->Some_0 as int].key() == audio_chunk_id);
        }
        if self.next_transcription_id == i64::MAX {
            return Err(DbError::StoreUnavailable);
        }
        let id = self.next_transcription_id;
        let t = now_millis();
        proof {
            reveal(byte_len);
        }
        let text_length = transcription.len();
        let row = TranscriptionRow {
            id,
            audio_chunk_id,
            transcription: transcription.to_owned(),
            offset_index,
            timestamp: t,
            transcription_engine: transcription_engine.to_owned(),
            device: device.name.clone(),
            is_input_device: device.is_input,
            speaker_id,
            start_time,
            end_time,
            text_length,
        };
        self.transcriptions.push(row);
        self.next_transcription_id = id + 1;
        proof {
            let pre = old(self)@;
            let post = self@;
            assert(post.transcriptions =~= pre.transcriptions.push(
                TranscriptionRowV {
                    id,
                    audio_chunk_id,
                    transcription: transcription@,
                    offset_index,
                    timestamp: t,
                    transcription_engine: transcription_engine@,
                    device: device.name@,
                    is_input_device: device.is_input,
                    speaker_id,
                    start_time,
                    end_time,
                    text_length: byte_len(transcription@) as usize,
                },
            ));
            assert(spec_insert_audio_transcription(
                pre,
                audio_chunk_id,
                transcription@,
                offset_index,
                transcription_engine@,
                device.name@,
                device.is_input,
                speaker_id,
                start_time,
                end_time,
                t,
            ) == (post, id));
            assert(post.wf());
        }
        Ok(id)
    }


    /// Create a speaker with an empty name and record its embedding, in
    /// one transaction.
    pub fn insert_speaker(&mut self, embedding: &Vec<u8>) -> (r: Result<Speaker, DbError>)
        requires
            old(self)@.wf(),
        ensures
            final(self)@.wf(),
            old(self)@.next_speaker_id == i64::MAX ==> (r matches Err(DbError::StoreUnavailable)
                && final(self)@ == old(self)@),
            old(self)@.next_speaker_id < i64::MAX ==> {
                &&& r is Ok
                &&& (final(self)@, (r->Ok_0)@) == spec_insert_speaker(old(self)@, embedding@)
            },
    {
        if self.next_speaker_id == i64::MAX {
            return Err(DbError::StoreUnavailable);
        }
        let id = self.next_speaker_id;
        let srow = SpeakerRow {
            id,
            name: String::new(),
            metadata: String::new(),
            hallucination: false,
        };
        self.speakers.push(srow);
        let erow = SpeakerEmbeddingRow { speaker_id: id, embedding: clone_bytes(embedding) };
        self.speaker_embeddings.push(erow);
        self.next_speaker_id = id + 1;
        let sp = Speaker { id, name: String::new(), metadata: String::new() };
        proof {
            let pre = old(self)@;
            let post = self@;
            assert(post.speakers =~= pre.speakers.push(
                SpeakerRowV {
                    id,
                    name: Seq::empty(),
                    metadata: Seq::empty(),
                    hallucination: false,
                },
            ));
            assert(post.speaker_embeddings =~= pre.speaker_embeddings.push(
                SpeakerEmbeddingRowV { speaker_id: id, embedding: embedding@ },
            ));
            assert((post, sp@) == spec_insert_speaker(pre, embedding@));
            assert forall|j: int| 0 <= j < post.speaker_embeddings.len() implies has_key(
                post.speakers,
                (#[trigger] post.speaker_embeddings[j]).speaker_id,
            ) by {
                if j < post.speaker_embeddings.len() - 1 {
                    lemma_has_key_push(
                        pre.speakers,
                        post.speakers.last(),
                        post.speaker_embeddings[j].speaker_id,
                    );
                } else {
                    assert(post.speakers[post.speakers.len() - 1].key() == id);
                }
            }
            assert(post.wf());
        }
        Ok(sp)
    }

    /// Record a text embedding for a frame; the frame must exist.
    pub fn insert_embeddings(&mut self, frame_id: i64, embedding: String) -> (r: Result<
        (),
        DbError,
    >)
        requires
            old(self)@.wf(),
        ensures
            final(self)@.wf(),
            !has_key(old(self)@.frames, frame_id) ==> (r matches Err(DbError::IntegrityViolation)
                && final(self)@ == old(self)@),
            has_key(old(self)@.frames, frame_id) ==> (r is Ok) && final(self)@ == (DbView {
                ocr_embeddings: old(self)@.ocr_embeddings.push(
                    OcrEmbeddingRowV { frame_id, embedding: embedding@ },
                ),
                ..old(self)@
            }),
    {
        let fp = self.frame_pos(frame_id);
        if fp.is_none() {
            return Err(DbError::IntegrityViolation);
        }
        proof {
            assert(self@.frames[fp->Some_0 as int].key() == frame_id);
        }
        let ghost emb = embedding@;
        let row = OcrEmbeddingRow { frame_id, embedding };
        self.ocr_embeddings.push(row);
        proof {
            assert(self@.ocr_embeddings =~= old(self)@.ocr_embeddings.push(
                OcrEmbeddingRowV { frame_id, embedding: emb },
            ));
            assert(self@.wf());
        }
        Ok(())
    }

    /// Record an accessibility-tree snapshot.
    pub fn insert_ui_monitoring(
        &mut self,
        text_output: &str,
        timestamp: Option<i64>,
        app: &str,
        window: &str,
        initial_traversal_at: Option<i64>,
    ) -> (r: Result<i64, DbError>)
        requires
            old(self)@.wf(),
        ensures
            final(self)@.wf(),
            old(self)@.next_ui_id == i64::MAX ==> (r matches Err(DbError::StoreUnavailable)
                && final(self)@ == old(self)@),
            old(self)@.next_ui_id < i64::MAX ==> {
                &&& r == Ok::<i64, DbError>(old(self)@.next_ui_id)
                &&& exists|t: i64|
                    (timestamp matches Some(t0) ==> t == t0) && final(self)@
                        == #[trigger] spec_insert_ui_monitoring(
                        old(self)@,
                        text_output@,
                        t,
                        app@,
                        window@,
                        initial_traversal_at,
                    ).0
            },
    {
        if self.next_ui_id == i64::MAX {
            return Err(DbError::StoreUnavailable);
        }
        let id = self.next_ui_id;
        let t = match timestamp {
            Some(ts) => ts,
            None => now_millis(),
        };
        proof {
            reveal(byte_len);
        }
        let text_length = text_output.len();
        let row = UiRow {
            id,
            text_output: text_output.to_owned(),
            timestamp: t,
            app: app.to_owned(),
            window: window.to_owned(),
            initial_traversal_at,
            text_length,
        };
        self.ui_rows.push(row);
        self.next_ui_id = id + 1;
        proof {
            assert(self@.ui_rows =~= old(self)@.ui_rows.push(
                UiRowV {
                    id,
                    text_output: text_output@,
                    timestamp: t,
                    app: app@,
                    window: window@,
                    initial_traversal_at,
                    text_length: byte_len(text_output@) as usize,
                },
            ));
            assert(self@ == spec_insert_ui_monitoring(
                old(self)@,
                text_output@,
                t,
                app@,
                window@,
                initial_traversal_at,
            ).0);
            assert(self@.wf());
        }
        Ok(id)
    }

    /// Rename one frame.
    pub fn update_frame_name(&mut self, frame_id: i64, name: &str) -> (r: Result<(), DbError>)
        requires
            old(self)@.wf(),
        ensures
            final(self)@.wf(),
            (r is Ok),
            final(self)@ == (DbView {
                frames: spec_rename_frames(old(self)@.frames, true, frame_id, name@),
                ..old(self)@
            }),
    {
        self.rename_frames_where(true, frame_id, name);
        Ok(())
    }

    /// Rename every frame of a video chunk.
    pub fn update_video_chunk_frames_names(&mut self, video_chunk_id: i64, name: &str) -> (r:
        Result<(), DbError>)
        requires
            old(self)@.wf(),
        ensures
            final(self)@.wf(),
            (r is Ok),
            final(self)@ == (DbView {
                frames: spec_rename_frames(old(self)@.frames, false, video_chunk_id, name@),
                ..old(self)@
            }),
    {
        self.rename_frames_where(false, video_chunk_id, name);
        Ok(())
    }

    /// Shared renaming walk: by frame id, or by owning chunk id.
    fn rename_frames_where(&mut self, by_frame: bool, key: i64, name: &str)
        requires
            old(self)@.wf(),
        ensures
            final(self)@.wf(),
            final(self)@ == (DbView {
                frames: spec_rename_frames(old(self)@.frames, by_frame, key, name@),
                ..old(self)@
            }),
    {
        let ghost pre_frames = self@.frames;
        let ghost mapped = spec_rename_frames(pre_frames, by_frame, key, name@);
        let n = self.frames.len();
        let mut i: usize = 0;
        while i < n
            invariant
                i <= n,
                n == self@.frames.len(),
                pre_frames.len() == n,
                pre_frames == old(self)@.frames,
                mapped == spec_rename_frames(pre_frames, by_frame, key, name@),
                db_with_frames(self@, pre_frames) == db_with_frames(old(self)@, pre_frames),
                forall|j: int| 0 <= j < i ==> self@.frames[j] == mapped[j],
                forall|j: int| i <= j < n ==> self@.frames[j] == pre_frames[j],
            decreases n - i,
        {
            let ghost cur0 = self@.frames;
            let hit = if by_frame {
                self.frames[i].id == key
            } else {
                self.frames[i].video_chunk_id == key
            };
            if hit {
                let row = self.frames.remove(i);
                let new_row = FrameRow { name: name.to_owned(), ..row };
                self.frames.insert(i, new_row);
                proof {
                    assert(self@.frames =~= cur0.update(i as int, new_row@));
                    assert(cur0[i as int] == pre_frames[i as int]);
                    assert(new_row@ == mapped[i as int]);
                }
            }
            i = i + 1;
        }
        proof {
            assert(self@.frames =~= mapped);
            assert(self@ == DbView { frames: mapped, ..old(self)@ });
            lemma_rename_frames_wf(old(self)@, self@, by_frame, key, name@);
        }
    }

    /// Import a video: one chunk and one frame per given timestamp
    /// offset, with dense offsets from zero. The device defaults to
    /// `"imported_files"`, frame names to the metadata name or the file
    /// path.
    #[verifier::rlimit(100)]
    pub fn create_video_with_frames(
        &mut self,
        file_path: &str,
        frame_offsets: &Vec<i64>,
        metadata: &VideoMetadata,
    ) -> (r: Result<Vec<i64>, DbError>)
        requires
            old(self)@.wf(),
            forall|k: int|
                0 <= k < frame_offsets@.len() ==> i64::MIN <= metadata.creation_time + (
                #[trigger] frame_offsets@[k]) <= i64::MAX,
        ensures
            final(self)@.wf(),
            old(self)@.next_video_chunk_id == i64::MAX || frame_offsets@.len() > i64::MAX - old(
                self,
            )@.next_frame_id ==> (r matches Err(DbError::StoreUnavailable) && final(self)@ == old(
                self,
            )@),
            old(self)@.next_video_chunk_id < i64::MAX && frame_offsets@.len() <= i64::MAX - old(
                self,
            )@.next_frame_id ==> {
                &&& r is Ok
                &&& (r->Ok_0)@ == Seq::new(
                    frame_offsets@.len(),
                    |k: int| (old(self)@.next_frame_id + k) as i64,
                )
                &&& exists|t: i64|
                    final(self)@ == #[trigger] spec_create_video_with_frames(
                        old(self)@,
                        file_path@,
                        frame_offsets@,
                        metadata.creation_time,
                        opt_string_or(metadata.name, file_path@),
                        opt_string_or(metadata.device_name, "imported_files"@),
                        t,
                    )
            },
    {
        if self.next_video_chunk_id == i64::MAX {
            return Err(DbError::StoreUnavailable);
        }
        let n = frame_offsets.len();
        if n as u64 > (i64::MAX - self.next_frame_id) as u64 {
            return Err(DbError::StoreUnavailable);
        }
        let device_name: String = match &metadata.device_name {
            Some(d) => d.clone(),
            None => {
                let s: &str = "imported_files";
                s.to_owned()
            },
        };
        let frame_name: String = match &metadata.name {
            Some(nm) => nm.clone(),
            None => file_path.to_owned(),
        };
        proof {
            assert(device_name@ == opt_string_or(metadata.device_name, "imported_files"@));
            assert(frame_name@ == opt_string_or(metadata.name, file_path@));
        }
        let cid = match self.insert_video_chunk(file_path, device_name.as_str()) {
            Ok(id) => id,
            Err(e) => {
                return Err(DbError::StoreUnavailable);
            },
        };
        let ghost t_chunk = choose|t: i64|
            #[trigger] spec_insert_video_chunk(
                old(self)@,
                file_path@,
                device_name@,
                t,
            ) == (self@, cid);
        let ghost mid = self@;
        let first_id = self.next_frame_id;
        proof {
            assert(mid == spec_insert_video_chunk(old(self)@, file_path@, device_name@, t_chunk).0);
            assert(cid == old(self)@.next_video_chunk_id);
            assert(has_key(mid.video_chunks, cid)) by {
                assert(mid.video_chunks[mid.video_chunks.len() - 1].key() == cid);
            }
            assert forall|i: int| 0 <= i < mid.frames.len() implies (
            #[trigger] mid.frames[i]).video_chunk_id != cid by {
                let pre = old(self)@;
                assert(has_key(pre.video_chunks, pre.frames[i].video_chunk_id));
                let w = choose|w: int|
                    0 <= w < pre.video_chunks.len() && (#[trigger] pre.video_chunks[w]).key()
                        == pre.frames[i].video_chunk_id;
                assert(pre.video_chunks[w].id < cid);
            }
            lemma_fresh_chunk_count_zero(mid.frames, cid);
        }
        let ghost nm = frame_name@;
        let ghost ct = metadata.creation_time;
        let ghost offs = frame_offsets@;
        let mut ids: Vec<i64> = Vec::new();
        let mut k: usize = 0;
        while k < n
            invariant
                k <= n,
                n == offs.len(),
                offs == frame_offsets@,
                ct == metadata.creation_time,
                nm == frame_name@,
                mid.wf(),
                first_id == mid.next_frame_id,
                first_id + n <= i64::MAX,
                has_key(mid.video_chunks, cid),
                chunk_frame_count(mid.frames, cid) == 0,
                forall|j: int|
                    0 <= j < n ==> i64::MIN <= ct + (#[trigger] offs[j]) <= i64::MAX,
                ids@.len() == k,
                forall|j: int| 0 <= j < k ==> ids@[j] == (first_id + j) as i64,
                self@ == import_state(mid, cid, first_id, nm, ct, offs, k as int),
            decreases n - k,
        {
            let fid = self.next_frame_id;
            proof {
                assert(ct + offs[k as int] <= i64::MAX);
                assert(ct + offs[k as int] >= i64::MIN);
            }
            let ts = metadata.creation_time + frame_offsets[k];
            let row = FrameRow {
                id: fid,
                video_chunk_id: cid,
                offset_index: k as i64,
                timestamp: ts,
                name: frame_name.clone(),
                browser_url: None,
            };
            self.frames.push(row);
            self.next_frame_id = fid + 1;
            ids.push(fid);
            k = k + 1;
            proof {
                let prev = import_state(mid, cid, first_id, nm, ct, offs, k - 1);
                let f = import_frame(cid, first_id, nm, ct, offs, k - 1);
                assert(self@.frames =~= prev.frames.push(f));
                assert(self@.frames =~= import_state(mid, cid, first_id, nm, ct, offs, k as int)
                    .frames);
                assert(self@ == import_state(mid, cid, first_id, nm, ct, offs, k as int));
            }
        }
        proof {
            lemma_import_state_wf(mid, cid, first_id, nm, ct, offs, n as int);
            assert(ids@ =~= Seq::new(n as nat, |j: int| (first_id + j) as i64));
            assert(self@.frames =~= old(self)@.frames + Seq::new(
                n as nat,
                |j: int| import_frame(cid, first_id, nm, ct, offs, j),
            ));
            assert(self@ == spec_create_video_with_frames(
                old(self)@,
                file_path@,
                frame_offsets@,
                metadata.creation_time,
                opt_string_or(metadata.name, file_path@),
                opt_string_or(metadata.device_name, "imported_files"@),
                t_chunk,
            )) by {
                assert(self@.frames =~= spec_create_video_with_frames(
                    old(self)@,
                    file_path@,
                    frame_offsets@,
                    metadata.creation_time,
                    opt_string_or(metadata.name, file_path@),
                    opt_string_or(metadata.device_name, "imported_files"@),
                    t_chunk,
                ).frames);
            }
        }
        Ok(ids)
    }
}

/// The store after a video import: one fresh chunk, and one frame per
/// offset with dense offsets from zero.
pub open spec fn spec_create_video_with_frames(
    db: DbView,
    path: Seq<char>,
    offsets: Seq<i64>,
    creation_time: i64,
    frame_name: Seq<char>,
    device: Seq<char>,
    t: i64,
) -> DbView {
    DbView {
        video_chunks: db.video_chunks.push(
            VideoChunkRowV {
                id: db.next_video_chunk_id,
                file_path: path,
                device_name: device,
                timestamp: t,
            },
        ),
        frames: db.frames + Seq::new(
            offsets.len(),
            |j: int|
                FrameRowV {
                    id: (db.next_frame_id + j) as i64,
                    video_chunk_id: db.next_video_chunk_id,
                    offset_index: j as i64,
                    timestamp: (creation_time + offsets[j]) as i64,
                    name: frame_name,
                    browser_url: None,
                },
        ),
        next_video_chunk_id: (db.next_video_chunk_id + 1) as i64,
        next_frame_id: (db.next_frame_id + offsets.len()) as i64,
        ..db
    }
}

/// The store after an accessibility snapshot is recorded.
pub open spec fn spec_insert_ui_monitoring(
    db: DbView,
    text_output: Seq<char>,
    t: i64,
    app: Seq<char>,
    window: Seq<char>,
    initial_traversal_at: Option<i64>,
) -> (DbView, i64) {
    (
        DbView {
            ui_rows: db.ui_rows.push(
                UiRowV {
                    id: db.next_ui_id,
                    text_output,
                    timestamp: t,
                    app,
                    window,
                    initial_traversal_at,
                    text_length: byte_len(text_output) as usize,
                },
            ),
            next_ui_id: (db.next_ui_id + 1) as i64,
            ..db
        },
        db.next_ui_id,
    )
}

} // verus!
