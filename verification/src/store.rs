//! The store itself: an in-memory value of plain tables, its
//! well-formedness invariant, and first-match lookup machinery shared by
//! the ingest writers and the search engine.

use vstd::prelude::*;

use crate::types::{
    AudioChunkRow, AudioChunkRowV, FrameRow, FrameRowV, OcrEmbeddingRow, OcrEmbeddingRowV, OcrRow,
    OcrRowV, SpeakerEmbeddingRow, SpeakerEmbeddingRowV, SpeakerRow, SpeakerRowV, TagLink, TagRow,
    TagRowV, TranscriptionRow, TranscriptionRowV, UiRow, UiRowV, VideoChunkRow, VideoChunkRowV,
};

verus! {

// ---------------------------------------------------------------------------
// Generic first-match lookup over a table
// ---------------------------------------------------------------------------

/// A table row addressed by an integer key.
pub trait Keyed: Sized {
    spec fn key(self) -> i64;
}

impl Keyed for VideoChunkRowV {
    open spec fn key(self) -> i64 {
        self.id
    }
}

impl Keyed for FrameRowV {
    open spec fn key(self) -> i64 {
        self.id
    }
}

impl Keyed for AudioChunkRowV {
    open spec fn key(self) -> i64 {
        self.id
    }
}

impl Keyed for SpeakerRowV {
    open spec fn key(self) -> i64 {
        self.id
    }
}

impl Keyed for TagRowV {
    open spec fn key(self) -> i64 {
        self.id
    }
}

impl Keyed for UiRowV {
    open spec fn key(self) -> i64 {
        self.id
    }
}

impl Keyed for OcrRowV {
    open spec fn key(self) -> i64 {
        self.frame_id
    }
}

impl Keyed for OcrEmbeddingRowV {
    open spec fn key(self) -> i64 {
        self.frame_id
    }
}

impl Keyed for SpeakerEmbeddingRowV {
    open spec fn key(self) -> i64 {
        self.speaker_id
    }
}

/// The first row of `s` whose key is `k`, if any.
pub open spec fn find_by_key<T: Keyed>(s: Seq<T>, k: i64) -> Option<T>
    decreases s.len(),
{
    if s.len() == 0 {
        None
    } else if s[0].key() == k {
        Some(s[0])
    } else {
        find_by_key(s.drop_first(), k)
    }
}

/// Whether some row of `s` has key `k`.
pub open spec fn has_key<T: Keyed>(s: Seq<T>, k: i64) -> bool {
    exists|i: int| 0 <= i < s.len() && (#[trigger] s[i]).key() == k
}

/// A found row is a row of the table, and conversely a first match exists
/// exactly when some row matches.
pub proof fn lemma_find_by_key_some<T: Keyed>(s: Seq<T>, k: i64)
    ensures
        find_by_key(s, k) is Some <==> has_key(s, k),
        find_by_key(s, k) matches Some(r) ==> r.key() == k && s.contains(r),
    decreases s.len(),
{
    if s.len() > 0 {
        lemma_find_by_key_some(s.drop_first(), k);
        if s[0].key() == k {
        } else {
            assert(forall|i: int|
                0 <= i < s.drop_first().len() ==> #[trigger] s.drop_first()[i] == s[i + 1]);
            if has_key(s, k) {
                let i = choose|i: int| 0 <= i < s.len() && (#[trigger] s[i]).key() == k;
                assert(s.drop_first()[i - 1].key() == k);
            }
            if has_key(s.drop_first(), k) {
                let i = choose|i: int|
                    0 <= i < s.drop_first().len() && (#[trigger] s.drop_first()[i]).key() == k;
                assert(s[i + 1].key() == k);
            }
            if find_by_key(s.drop_first(), k) is Some {
                let r = find_by_key(s.drop_first(), k)->Some_0;
                assert(s.drop_first().contains(r));
                let i = choose|i: int|
                    0 <= i < s.drop_first().len() && s.drop_first()[i] == r;
                assert(s[i + 1] == r);
            }
        }
    }
}

/// A key found in a table is still found after a row is appended.
pub proof fn lemma_has_key_push<T: Keyed>(s: Seq<T>, x: T, k: i64)
    ensures
        has_key(s, k) ==> has_key(s.push(x), k),
        x.key() == k ==> has_key(s.push(x), k),
{
    if has_key(s, k) {
        let i = choose|i: int| 0 <= i < s.len() && (#[trigger] s[i]).key() == k;
        assert(s.push(x)[i] == s[i]);
    }
    if x.key() == k {
        assert(s.push(x)[s.len() as int] == x);
    }
}

// ---------------------------------------------------------------------------
// Derived table measures
// ---------------------------------------------------------------------------

/// How many frames belong to the chunk with identifier `chunk_id`.
pub open spec fn chunk_frame_count(frames: Seq<FrameRowV>, chunk_id: i64) -> int {
    frames.filter(|f: FrameRowV| f.video_chunk_id == chunk_id).len() as int
}

// ---------------------------------------------------------------------------
// The store value and its view
// ---------------------------------------------------------------------------

/// The persistence core. Tables are held as plain rows; identifiers are
/// allocated from per-table counters, starting at 1 as the embedded
/// store's rowids do.
#[derive(Debug)]
pub struct DatabaseManager {
    pub video_chunks: Vec<VideoChunkRow>,
    pub frames: Vec<FrameRow>,
    pub ocr: Vec<OcrRow>,
    pub audio_chunks: Vec<AudioChunkRow>,
    pub transcriptions: Vec<TranscriptionRow>,
    pub speakers: Vec<SpeakerRow>,
    pub speaker_embeddings: Vec<SpeakerEmbeddingRow>,
    pub ocr_embeddings: Vec<OcrEmbeddingRow>,
    pub ui_rows: Vec<UiRow>,
    pub tags: Vec<TagRow>,
    pub vision_tags: Vec<TagLink>,
    pub audio_tags: Vec<TagLink>,
    pub ui_tags: Vec<TagLink>,
    pub next_video_chunk_id: i64,
    pub next_frame_id: i64,
    pub next_audio_chunk_id: i64,
    pub next_transcription_id: i64,
    pub next_speaker_id: i64,
    pub next_ui_id: i64,
    pub next_tag_id: i64,
}

/// The mathematical model of the store.
pub struct DbView {
    pub video_chunks: Seq<VideoChunkRowV>,
    pub frames: Seq<FrameRowV>,
    pub ocr: Seq<OcrRowV>,
    pub audio_chunks: Seq<AudioChunkRowV>,
    pub transcriptions: Seq<TranscriptionRowV>,
    pub speakers: Seq<SpeakerRowV>,
    pub speaker_embeddings: Seq<SpeakerEmbeddingRowV>,
    pub ocr_embeddings: Seq<OcrEmbeddingRowV>,
    pub ui_rows: Seq<UiRowV>,
    pub tags: Seq<TagRowV>,
    pub vision_tags: Seq<TagLink>,
    pub audio_tags: Seq<TagLink>,
    pub ui_tags: Seq<TagLink>,
    pub next_video_chunk_id: i64,
    pub next_frame_id: i64,
    pub next_audio_chunk_id: i64,
    pub next_transcription_id: i64,
    pub next_speaker_id: i64,
    pub next_ui_id: i64,
    pub next_tag_id: i64,
}

impl View for DatabaseManager {
    type V = DbView;

    open spec fn view(&self) -> DbView {
        DbView {
            video_chunks: self.video_chunks@.map_values(|r: VideoChunkRow| r@),
            frames: self.frames@.map_values(|r: FrameRow| r@),
            ocr: self.ocr@.map_values(|r: OcrRow| r@),
            audio_chunks: self.audio_chunks@.map_values(|r: AudioChunkRow| r@),
            transcriptions: self.transcriptions@.map_values(|r: TranscriptionRow| r@),
            speakers: self.speakers@.map_values(|r: SpeakerRow| r@),
            speaker_embeddings: self.speaker_embeddings@.map_values(
                |r: SpeakerEmbeddingRow| r@,
            ),
            ocr_embeddings: self.ocr_embeddings@.map_values(|r: OcrEmbeddingRow| r@),
            ui_rows: self.ui_rows@.map_values(|r: UiRow| r@),
            tags: self.tags@.map_values(|r: TagRow| r@),
            vision_tags: self.vision_tags@,
            audio_tags: self.audio_tags@,
            ui_tags: self.ui_tags@,
            next_video_chunk_id: self.next_video_chunk_id,
            next_frame_id: self.next_frame_id,
            next_audio_chunk_id: self.next_audio_chunk_id,
            next_transcription_id: self.next_transcription_id,
            next_speaker_id: self.next_speaker_id,
            next_ui_id: self.next_ui_id,
            next_tag_id: self.next_tag_id,
        }
    }
}

/// The store a fresh open yields: every table empty, every identifier
/// counter at 1.
pub open spec fn empty_db() -> DbView {
    DbView {
        video_chunks: Seq::empty(),
        frames: Seq::empty(),
        ocr: Seq::empty(),
        audio_chunks: Seq::empty(),
        transcriptions: Seq::empty(),
        speakers: Seq::empty(),
        speaker_embeddings: Seq::empty(),
        ocr_embeddings: Seq::empty(),
        ui_rows: Seq::empty(),
        tags: Seq::empty(),
        vision_tags: Seq::empty(),
        audio_tags: Seq::empty(),
        ui_tags: Seq::empty(),
        next_video_chunk_id: 1,
        next_frame_id: 1,
        next_audio_chunk_id: 1,
        next_transcription_id: 1,
        next_speaker_id: 1,
        next_ui_id: 1,
        next_tag_id: 1,
    }
}

impl DbView {
    /// Identifiers lie below their table's counter.
    pub open spec fn ids_bounded(self) -> bool {
        &&& self.next_video_chunk_id >= 1
        &&& self.next_frame_id >= 1
        &&& self.next_audio_chunk_id >= 1
        &&& self.next_transcription_id >= 1
        &&& self.next_speaker_id >= 1
        &&& self.next_ui_id >= 1
        &&& self.next_tag_id >= 1
        &&& forall|i: int|
            0 <= i < self.video_chunks.len() ==> 1 <= (#[trigger] self.video_chunks[i]).id
                < self.next_video_chunk_id
        &&& forall|i: int|
            0 <= i < self.frames.len() ==> 1 <= (#[trigger] self.frames[i]).id
                < self.next_frame_id
        &&& forall|i: int|
            0 <= i < self.audio_chunks.len() ==> 1 <= (#[trigger] self.audio_chunks[i]).id
                < self.next_audio_chunk_id
        &&& forall|i: int|
            0 <= i < self.transcriptions.len() ==> 1 <= (#[trigger] self.transcriptions[i]).id
                < self.next_transcription_id
        &&& forall|i: int|
            0 <= i < self.speakers.len() ==> 1 <= (#[trigger] self.speakers[i]).id
                < self.next_speaker_id
        &&& forall|i: int|
            0 <= i < self.ui_rows.len() ==> 1 <= (#[trigger] self.ui_rows[i]).id < self.next_ui_id
        &&& forall|i: int|
            0 <= i < self.tags.len() ==> 1 <= (#[trigger] self.tags[i]).id < self.next_tag_id
    }

    /// Identifiers are unique within each table; OCR rows are keyed by
    /// frame (exactly one per frame); tag names are unique.
    pub open spec fn ids_unique(self) -> bool {
        &&& forall|i: int, j: int|
            0 <= i < j < self.video_chunks.len() ==> (#[trigger] self.video_chunks[i]).id != (
            #[trigger] self.video_chunks[j]).id
        &&& forall|i: int, j: int|
            0 <= i < j < self.frames.len() ==> (#[trigger] self.frames[i]).id != (
            #[trigger] self.frames[j]).id
        &&& forall|i: int, j: int|
            0 <= i < j < self.ocr.len() ==> (#[trigger] self.ocr[i]).frame_id != (
            #[trigger] self.ocr[j]).frame_id
        &&& forall|i: int, j: int|
            0 <= i < j < self.audio_chunks.len() ==> (#[trigger] self.audio_chunks[i]).id != (
            #[trigger] self.audio_chunks[j]).id
        &&& forall|i: int, j: int|
            0 <= i < j < self.transcriptions.len() ==> (#[trigger] self.transcriptions[i]).id != (
            #[trigger] self.transcriptions[j]).id
        &&& forall|i: int, j: int|
            0 <= i < j < self.speakers.len() ==> (#[trigger] self.speakers[i]).id != (
            #[trigger] self.speakers[j]).id
        &&& forall|i: int, j: int|
            0 <= i < j < self.ui_rows.len() ==> (#[trigger] self.ui_rows[i]).id != (
            #[trigger] self.ui_rows[j]).id
        &&& forall|i: int, j: int|
            0 <= i < j < self.tags.len() ==> (#[trigger] self.tags[i]).id != (
            #[trigger] self.tags[j]).id
        &&& forall|i: int, j: int|
            0 <= i < j < self.tags.len() ==> (#[trigger] self.tags[i]).name != (
            #[trigger] self.tags[j]).name
    }

    /// Referential integrity: frames point at chunks, OCR rows and text
    /// embeddings at frames, transcriptions at audio chunks, speaker
    /// embeddings at speakers.
    pub open spec fn refs_ok(self) -> bool {
        &&& forall|i: int|
            0 <= i < self.frames.len() ==> has_key(
                self.video_chunks,
                (#[trigger] self.frames[i]).video_chunk_id,
            )
        &&& forall|i: int|
            0 <= i < self.ocr.len() ==> has_key(self.frames, (#[trigger] self.ocr[i]).frame_id)
        &&& forall|i: int|
            0 <= i < self.ocr_embeddings.len() ==> has_key(
                self.frames,
                (#[trigger] self.ocr_embeddings[i]).frame_id,
            )
        &&& forall|i: int|
            0 <= i < self.transcriptions.len() ==> has_key(
                self.audio_chunks,
                (#[trigger] self.transcriptions[i]).audio_chunk_id,
            )
        &&& forall|i: int|
            0 <= i < self.speaker_embeddings.len() ==> has_key(
                self.speakers,
                (#[trigger] self.speaker_embeddings[i]).speaker_id,
            )
    }

    /// Frame offsets: unique within a chunk, inside `[0, frame count)`,
    /// and downward closed (every positive offset has a predecessor), so
    /// each chunk's offsets are exactly `0, 1, ..., n-1`.
    pub open spec fn offsets_ok(self) -> bool {
        &&& forall|i: int, j: int|
            0 <= i < j < self.frames.len() ==> !((#[trigger] self.frames[i]).video_chunk_id == (
            #[trigger] self.frames[j]).video_chunk_id && self.frames[i].offset_index
                == self.frames[j].offset_index)
        &&& forall|i: int|
            0 <= i < self.frames.len() ==> 0 <= (#[trigger] self.frames[i]).offset_index
                < chunk_frame_count(self.frames, self.frames[i].video_chunk_id)
        &&& forall|i: int|
            0 <= i < self.frames.len() && (#[trigger] self.frames[i]).offset_index > 0
                ==> exists|j: int|
                0 <= j < self.frames.len() && (#[trigger] self.frames[j]).video_chunk_id
                    == self.frames[i].video_chunk_id && self.frames[j].offset_index
                    == self.frames[i].offset_index - 1
    }

    /// The store's invariant: every transaction establishes and preserves
    /// it.
    pub open spec fn wf(self) -> bool {
        &&& self.ids_bounded()
        &&& self.ids_unique()
        &&& self.refs_ok()
        &&& self.offsets_ok()
    }
}

/// Two frame tables that agree on chunk membership row for row have the
/// same per-chunk counts.
pub proof fn lemma_chunk_count_pointwise(a: Seq<FrameRowV>, b: Seq<FrameRowV>, cid: i64)
    requires
        a.len() == b.len(),
        forall|j: int|
            0 <= j < a.len() ==> (#[trigger] a[j]).video_chunk_id == (
            #[trigger] b[j]).video_chunk_id,
    ensures
        chunk_frame_count(a, cid) == chunk_frame_count(b, cid),
    decreases a.len(),
{
    reveal(Seq::filter);
    if a.len() > 0 {
        let bdl = b.drop_last();
        assert(forall|j: int|
            0 <= j < a.len() - 1 ==> #[trigger] a.drop_last()[j] == a[j] && #[trigger] bdl[j]
                == b[j]);
        lemma_chunk_count_pointwise(a.drop_last(), b.drop_last(), cid);
    }
}


/// The greatest frame timestamp, if any.
pub open spec fn latest_frame_ts(s: Seq<FrameRowV>) -> Option<i64>
    decreases s.len(),
{
    if s.len() == 0 {
        None
    } else {
        match latest_frame_ts(s.drop_last()) {
            None => Some(s.last().timestamp),
            Some(m) => if s.last().timestamp > m {
                Some(s.last().timestamp)
            } else {
                Some(m)
            },
        }
    }
}

/// The greatest audio chunk timestamp, if any.
pub open spec fn latest_audio_ts(s: Seq<AudioChunkRowV>) -> Option<i64>
    decreases s.len(),
{
    if s.len() == 0 {
        None
    } else {
        match latest_audio_ts(s.drop_last()) {
            None => Some(s.last().timestamp),
            Some(m) => if s.last().timestamp > m {
                Some(s.last().timestamp)
            } else {
                Some(m)
            },
        }
    }
}

/// The greatest snapshot timestamp, if any.
pub open spec fn latest_ui_ts(s: Seq<UiRowV>) -> Option<i64>
    decreases s.len(),
{
    if s.len() == 0 {
        None
    } else {
        match latest_ui_ts(s.drop_last()) {
            None => Some(s.last().timestamp),
            Some(m) => if s.last().timestamp > m {
                Some(s.last().timestamp)
            } else {
                Some(m)
            },
        }
    }
}

impl DatabaseManager {
    /// The position of the frame with identifier `id`.
    pub fn frame_pos(&self, id: i64) -> (r: Option<usize>)
        ensures
            r matches Some(i) ==> i < self@.frames.len() && self@.frames[i as int].id == id,
            r is None ==> !has_key(self@.frames, id),
    {
        let n = self.frames.len();
        let mut i: usize = 0;
        while i < n
            invariant
                i <= n,
                n == self@.frames.len(),
                forall|j: int| 0 <= j < i ==> (#[trigger] self@.frames[j]).id != id,
            decreases n - i,
        {
            if self.frames[i].id == id {
                return Some(i);
            }
            i = i + 1;
        }
        None
    }

    /// The position of the video chunk with identifier `id`.
    pub fn video_chunk_pos(&self, id: i64) -> (r: Option<usize>)
        ensures
            r matches Some(i) ==> i < self@.video_chunks.len() && self@.video_chunks[i as int].id
                == id,
            r is None ==> !has_key(self@.video_chunks, id),
    {
        let n = self.video_chunks.len();
        let mut i: usize = 0;
        while i < n
            invariant
                i <= n,
                n == self@.video_chunks.len(),
                forall|j: int| 0 <= j < i ==> (#[trigger] self@.video_chunks[j]).id != id,
            decreases n - i,
        {
            if self.video_chunks[i].id == id {
                return Some(i);
            }
            i = i + 1;
        }
        None
    }

    /// The position of the audio chunk with identifier `id`.
    pub fn audio_chunk_pos(&self, id: i64) -> (r: Option<usize>)
        ensures
            r matches Some(i) ==> i < self@.audio_chunks.len() && self@.audio_chunks[i as int].id
                == id,
            r is None ==> !has_key(self@.audio_chunks, id),
    {
        let n = self.audio_chunks.len();
        let mut i: usize = 0;
        while i < n
            invariant
                i <= n,
                n == self@.audio_chunks.len(),
                forall|j: int| 0 <= j < i ==> (#[trigger] self@.audio_chunks[j]).id != id,
            decreases n - i,
        {
            if self.audio_chunks[i].id == id {
                return Some(i);
            }
            i = i + 1;
        }
        None
    }

    /// The position of the speaker with identifier `id`.
    pub fn speaker_pos(&self, id: i64) -> (r: Option<usize>)
        ensures
            r matches Some(i) ==> i < self@.speakers.len() && self@.speakers[i as int].id == id,
            r is None ==> !has_key(self@.speakers, id),
    {
        let n = self.speakers.len();
        let mut i: usize = 0;
        while i < n
            invariant
                i <= n,
                n == self@.speakers.len(),
                forall|j: int| 0 <= j < i ==> (#[trigger] self@.speakers[j]).id != id,
            decreases n - i,
        {
            if self.speakers[i].id == id {
                return Some(i);
            }
            i = i + 1;
        }
        None
    }

    /// The position of the OCR row of frame `frame_id`.
    pub fn ocr_pos(&self, frame_id: i64) -> (r: Option<usize>)
        ensures
            r matches Some(i) ==> i < self@.ocr.len() && self@.ocr[i as int].frame_id == frame_id,
            r is None ==> !has_key(self@.ocr, frame_id),
    {
        let n = self.ocr.len();
        let mut i: usize = 0;
        while i < n
            invariant
                i <= n,
                n == self@.ocr.len(),
                forall|j: int| 0 <= j < i ==> (#[trigger] self@.ocr[j]).frame_id != frame_id,
            decreases n - i,
        {
            if self.ocr[i].frame_id == frame_id {
                return Some(i);
            }
            i = i + 1;
        }
        None
    }

    /// The video path and offset a frame plays at: the owning chunk's
    /// file and the frame's offset within it.
    pub fn get_frame(&self, frame_id: i64) -> (r: Option<(String, i64)>)
        requires
            self@.wf(),
        ensures
            r matches Some(p) ==> exists|i: int, j: int|
                0 <= i < self@.frames.len() && 0 <= j < self@.video_chunks.len() && (
                #[trigger] self@.frames[i]).id == frame_id && (
                #[trigger] self@.video_chunks[j]).id == self@.frames[i].video_chunk_id && p.0@
                    == self@.video_chunks[j].file_path && p.1 == self@.frames[i].offset_index,
            r is None ==> !has_key(self@.frames, frame_id),
    {
        let fp = self.frame_pos(frame_id);
        match fp {
            Some(i) => {
                let cp = self.video_chunk_pos(self.frames[i].video_chunk_id);
                match cp {
                    Some(j) => {
                        let out = (self.video_chunks[j].file_path.clone(), self.frames[
                            i].offset_index);
                        proof {
                            assert(self@.frames[i as int].id == frame_id);
                            assert(self@.video_chunks[j as int].id == self@.frames[
                                i as int].video_chunk_id);
                        }
                        Some(out)
                    },
                    None => {
                        proof {
                            assert(has_key(
                                self@.video_chunks,
                                self@.frames[fp->Some_0 as int].video_chunk_id,
                            ));
                            assert(false);
                        }
                        None
                    },
                }
            },
            None => None,
        }
    }


    /// The position of the frame `find_by_key` names, under the
    /// invariant's uniqueness.
    pub fn frame_find(&self, id: i64) -> (r: Option<usize>)
        requires
            self@.wf(),
        ensures
            r matches Some(i) ==> i < self@.frames.len() && find_by_key(self@.frames, id) == Some(
                self@.frames[i as int],
            ) && self@.frames[i as int].id == id,
            r is None ==> find_by_key(self@.frames, id) is None,
    {
        let p = self.frame_pos(id);
        proof {
            lemma_find_by_key_some(self@.frames, id);
            if p is Some {
                let i = p->Some_0 as int;
                assert(self@.frames[i].key() == id);
                assert(has_key(self@.frames, id));
                let fr = find_by_key(self@.frames, id)->Some_0;
                let w = choose|w: int| 0 <= w < self@.frames.len() && self@.frames[w] == fr;
                if self@.frames[i] != fr {
                    if w < i {
                        assert(self@.frames[w].id != self@.frames[i].id);
                    } else {
                        assert(self@.frames[i].id != self@.frames[w].id);
                    }
                }
            }
        }
        p
    }

    /// The position of the video chunk `find_by_key` names.
    pub fn chunk_find(&self, id: i64) -> (r: Option<usize>)
        requires
            self@.wf(),
        ensures
            r matches Some(i) ==> i < self@.video_chunks.len() && find_by_key(
                self@.video_chunks,
                id,
            ) == Some(self@.video_chunks[i as int]) && self@.video_chunks[i as int].id == id,
            r is None ==> find_by_key(self@.video_chunks, id) is None,
    {
        let p = self.video_chunk_pos(id);
        proof {
            lemma_find_by_key_some(self@.video_chunks, id);
            if p is Some {
                let i = p->Some_0 as int;
                assert(self@.video_chunks[i].key() == id);
                assert(has_key(self@.video_chunks, id));
                let fr = find_by_key(self@.video_chunks, id)->Some_0;
                let w = choose|w: int|
                    0 <= w < self@.video_chunks.len() && self@.video_chunks[w] == fr;
                if self@.video_chunks[i] != fr {
                    if w < i {
                        assert(self@.video_chunks[w].id != self@.video_chunks[i].id);
                    } else {
                        assert(self@.video_chunks[i].id != self@.video_chunks[w].id);
                    }
                }
            }
        }
        p
    }

    /// The position of the audio chunk `find_by_key` names.
    pub fn audio_chunk_find(&self, id: i64) -> (r: Option<usize>)
        requires
            self@.wf(),
        ensures
            r matches Some(i) ==> i < self@.audio_chunks.len() && find_by_key(
                self@.audio_chunks,
                id,
            ) == Some(self@.audio_chunks[i as int]) && self@.audio_chunks[i as int].id == id,
            r is None ==> find_by_key(self@.audio_chunks, id) is None,
    {
        let p = self.audio_chunk_pos(id);
        proof {
            lemma_find_by_key_some(self@.audio_chunks, id);
            if p is Some {
                let i = p->Some_0 as int;
                assert(self@.audio_chunks[i].key() == id);
                assert(has_key(self@.audio_chunks, id));
                let fr = find_by_key(self@.audio_chunks, id)->Some_0;
                let w = choose|w: int|
                    0 <= w < self@.audio_chunks.len() && self@.audio_chunks[w] == fr;
                if self@.audio_chunks[i] != fr {
                    if w < i {
                        assert(self@.audio_chunks[w].id != self@.audio_chunks[i].id);
                    } else if w > i {
                        assert(self@.audio_chunks[i].id != self@.audio_chunks[w].id);
                    }
                }
            }
        }
        p
    }

    /// The position of the speaker `find_by_key` names.
    pub fn speaker_find(&self, id: i64) -> (r: Option<usize>)
        requires
            self@.wf(),
        ensures
            r matches Some(i) ==> i < self@.speakers.len() && find_by_key(self@.speakers, id)
                == Some(self@.speakers[i as int]) && self@.speakers[i as int].id == id,
            r is None ==> find_by_key(self@.speakers, id) is None,
    {
        let p = self.speaker_pos(id);
        proof {
            lemma_find_by_key_some(self@.speakers, id);
            if p is Some {
                let i = p->Some_0 as int;
                assert(self@.speakers[i].key() == id);
                assert(has_key(self@.speakers, id));
                let fr = find_by_key(self@.speakers, id)->Some_0;
                let w = choose|w: int| 0 <= w < self@.speakers.len() && self@.speakers[w] == fr;
                if self@.speakers[i] != fr {
                    if w < i {
                        assert(self@.speakers[w].id != self@.speakers[i].id);
                    } else {
                        assert(self@.speakers[i].id != self@.speakers[w].id);
                    }
                }
            }
        }
        p
    }

    /// The position of the OCR row `find_by_key` names.
    pub fn ocr_find(&self, frame_id: i64) -> (r: Option<usize>)
        requires
            self@.wf(),
        ensures
            r matches Some(i) ==> i < self@.ocr.len() && find_by_key(self@.ocr, frame_id) == Some(
                self@.ocr[i as int],
            ) && self@.ocr[i as int].frame_id == frame_id,
            r is None ==> find_by_key(self@.ocr, frame_id) is None,
    {
        let p = self.ocr_pos(frame_id);
        proof {
            lemma_find_by_key_some(self@.ocr, frame_id);
            if p is Some {
                let i = p->Some_0 as int;
                assert(self@.ocr[i].key() == frame_id);
                assert(has_key(self@.ocr, frame_id));
                let fr = find_by_key(self@.ocr, frame_id)->Some_0;
                assert(fr.key() == frame_id && self@.ocr.contains(fr));
                let w = choose|w: int| 0 <= w < self@.ocr.len() && self@.ocr[w] == fr;
                assert(self@.ocr[w].frame_id == frame_id);
                if self@.ocr[i] != fr {
                    if w < i {
                        assert(self@.ocr[w].frame_id != self@.ocr[i].frame_id);
                    } else if w > i {
                        assert(self@.ocr[i].frame_id != self@.ocr[w].frame_id);
                    }
                    assert(false);
                }
            }
        }
        p
    }

    /// The position of the tag `find_by_key` names.
    pub fn tag_find(&self, id: i64) -> (r: Option<usize>)
        requires
            self@.wf(),
        ensures
            r matches Some(i) ==> i < self@.tags.len() && find_by_key(self@.tags, id) == Some(
                self@.tags[i as int],
            ) && self@.tags[i as int].id == id,
            r is None ==> find_by_key(self@.tags, id) is None,
    {
        let n = self.tags.len();
        let mut i: usize = 0;
        while i < n
            invariant
                self@.wf(),
                i <= n,
                n == self@.tags.len(),
                forall|j: int| 0 <= j < i ==> (#[trigger] self@.tags[j]).id != id,
            decreases n - i,
        {
            if self.tags[i].id == id {
                proof {
                    lemma_find_by_key_some(self@.tags, id);
                    assert(self@.tags[i as int].key() == id);
                    assert(has_key(self@.tags, id));
                    let fr = find_by_key(self@.tags, id)->Some_0;
                    assert(fr.key() == id && self@.tags.contains(fr));
                    let w = choose|w: int| 0 <= w < self@.tags.len() && self@.tags[w] == fr;
                    assert(self@.tags[w].id == id);
                    if self@.tags[i as int] != fr {
                        if w < i as int {
                            assert(self@.tags[w].id != self@.tags[i as int].id);
                        } else if w > i as int {
                            assert(self@.tags[i as int].id != self@.tags[w].id);
                        }
                        assert(false);
                    }
                }
                return Some(i);
            }
            i = i + 1;
        }
        proof {
            lemma_find_by_key_some(self@.tags, id);
            if has_key(self@.tags, id) {
                let w = choose|w: int|
                    0 <= w < self@.tags.len() && (#[trigger] self@.tags[w]).key() == id;
                assert(self@.tags[w].id != id);
            }
        }
        None
    }


    /// The most recent frame, audio chunk and snapshot timestamps.
    pub fn get_latest_timestamps(&self) -> (r: (Option<i64>, Option<i64>, Option<i64>))
        ensures
            r.0 == latest_frame_ts(self@.frames),
            r.1 == latest_audio_ts(self@.audio_chunks),
            r.2 == latest_ui_ts(self@.ui_rows),
    {
        let mut a: Option<i64> = None;
        let mut i: usize = 0;
        while i < self.frames.len()
            invariant
                i <= self@.frames.len(),
                a == latest_frame_ts(self@.frames.subrange(0, i as int)),
            decreases self@.frames.len() - i,
        {
            proof {
                assert(self@.frames.subrange(0, i + 1).drop_last() =~= self@.frames.subrange(
                    0,
                    i as int,
                ));
                assert(self@.frames.subrange(0, i + 1).last() == self@.frames[i as int]);
            }
            a = match a {
                None => Some(self.frames[i].timestamp),
                Some(m) => if self.frames[i].timestamp > m {
                    Some(self.frames[i].timestamp)
                } else {
                    Some(m)
                },
            };
            i = i + 1;
        }
        proof {
            assert(self@.frames.subrange(0, self@.frames.len() as int) =~= self@.frames);
        }
        let mut b: Option<i64> = None;
        let mut j: usize = 0;
        while j < self.audio_chunks.len()
            invariant
                j <= self@.audio_chunks.len(),
                b == latest_audio_ts(self@.audio_chunks.subrange(0, j as int)),
            decreases self@.audio_chunks.len() - j,
        {
            proof {
                assert(self@.audio_chunks.subrange(0, j + 1).drop_last() =~= self@
                    .audio_chunks.subrange(0, j as int));
                assert(self@.audio_chunks.subrange(0, j + 1).last() == self@.audio_chunks[
                    j as int]);
            }
            b = match b {
                None => Some(self.audio_chunks[j].timestamp),
                Some(m) => if self.audio_chunks[j].timestamp > m {
                    Some(self.audio_chunks[j].timestamp)
                } else {
                    Some(m)
                },
            };
            j = j + 1;
        }
        proof {
            assert(self@.audio_chunks.subrange(0, self@.audio_chunks.len() as int) =~= self@
                .audio_chunks);
        }
        let mut c: Option<i64> = None;
        let mut k: usize = 0;
        while k < self.ui_rows.len()
            invariant
                k <= self@.ui_rows.len(),
                c == latest_ui_ts(self@.ui_rows.subrange(0, k as int)),
            decreases self@.ui_rows.len() - k,
        {
            proof {
                assert(self@.ui_rows.subrange(0, k + 1).drop_last() =~= self@.ui_rows.subrange(
                    0,
                    k as int,
                ));
                assert(self@.ui_rows.subrange(0, k + 1).last() == self@.ui_rows[k as int]);
            }
            c = match c {
                None => Some(self.ui_rows[k].timestamp),
                Some(m) => if self.ui_rows[k].timestamp > m {
                    Some(self.ui_rows[k].timestamp)
                } else {
                    Some(m)
                },
            };
            k = k + 1;
        }
        proof {
            assert(self@.ui_rows.subrange(0, self@.ui_rows.len() as int) =~= self@.ui_rows);
        }
        (a, b, c)
    }

    /// Open a fresh store: every table empty.
    pub fn new() -> (r: DatabaseManager)
        ensures
            r@ == empty_db(),
            r@.wf(),
    {
        let r = DatabaseManager {
            video_chunks: Vec::new(),
            frames: Vec::new(),
            ocr: Vec::new(),
            audio_chunks: Vec::new(),
            transcriptions: Vec::new(),
            speakers: Vec::new(),
            speaker_embeddings: Vec::new(),
            ocr_embeddings: Vec::new(),
            ui_rows: Vec::new(),
            tags: Vec::new(),
            vision_tags: Vec::new(),
            audio_tags: Vec::new(),
            ui_tags: Vec::new(),
            next_video_chunk_id: 1,
            next_frame_id: 1,
            next_audio_chunk_id: 1,
            next_transcription_id: 1,
            next_speaker_id: 1,
            next_ui_id: 1,
            next_tag_id: 1,
        };
        proof {
            assert(r@.video_chunks =~= empty_db().video_chunks);
            assert(r@.frames =~= empty_db().frames);
            assert(r@.ocr =~= empty_db().ocr);
            assert(r@.audio_chunks =~= empty_db().audio_chunks);
            assert(r@.transcriptions =~= empty_db().transcriptions);
            assert(r@.speakers =~= empty_db().speakers);
            assert(r@.speaker_embeddings =~= empty_db().speaker_embeddings);
            assert(r@.ocr_embeddings =~= empty_db().ocr_embeddings);
            assert(r@.ui_rows =~= empty_db().ui_rows);
            assert(r@.tags =~= empty_db().tags);
            assert(r@.vision_tags =~= empty_db().vision_tags);
            assert(r@.audio_tags =~= empty_db().audio_tags);
            assert(r@.ui_tags =~= empty_db().ui_tags);
        }
        r
    }
}

} // verus!
