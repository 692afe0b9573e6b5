//! Data model of the store: table rows, public result records, and the
//! spec-level views the contracts are stated over.
//!
//! Timestamps are milliseconds; transcription bounds are second
//! offsets; fixed-point quantities (confidences, distances, bounding
//! boxes) are millionths of a unit. Text lengths count bytes, as the
//! store's `LENGTH` of a stored text does.

use vstd::prelude::*;

verus! {

// ---------------------------------------------------------------------------
// Errors
// ---------------------------------------------------------------------------

/// Error kinds surfaced by the core.
#[derive(Debug, Clone)]
pub enum DbError {
    /// Pool acquisition or low-level I/O failure (also: identifier space
    /// exhausted, mirroring the store's full-database error).
    StoreUnavailable,
    /// A bounded operation exceeded its budget.
    Timeout,
    /// A required row is absent.
    NotFound,
    /// A uniqueness or foreign-key constraint rejected a write.
    IntegrityViolation,
    /// The integrity verification after repair reported non-ok.
    Corruption { message: String },
    /// An input could not be parsed.
    MalformedInput,
}

// ---------------------------------------------------------------------------
// Enumerations of the search surface
// ---------------------------------------------------------------------------

/// The closed set of content types the search engine dispatches over.
#[derive(Clone, Copy, Debug, PartialEq, Eq, Structural)]
pub enum ContentType {
    All,
    OCR,
    Audio,
    UI,
    AudioAndUi,
    OcrAndUi,
    AudioAndOcr,
}

/// Result ordering for the position-level search.
#[derive(Clone, Copy, Debug, PartialEq, Eq, Structural)]
pub enum Order {
    Ascending,
    Descending,
}

/// Which link table a tag operation addresses.
#[derive(Clone, Copy, Debug, PartialEq, Eq, Structural)]
pub enum TagContentType {
    Vision,
    Audio,
}

// ---------------------------------------------------------------------------
// Helper view functions
// ---------------------------------------------------------------------------

pub open spec fn opt_str_view(o: Option<String>) -> Option<Seq<char>> {
    match o {
        Some(s) => Some(s@),
        None => None,
    }
}

pub open spec fn opt_ref_view(o: Option<&str>) -> Option<Seq<char>> {
    match o {
        Some(s) => Some(s@),
        None => None,
    }
}

pub open spec fn opt_string_or(o: Option<String>, dflt: Seq<char>) -> Seq<char> {
    match o {
        Some(s) => s@,
        None => dflt,
    }
}

pub open spec fn strs_view(v: Seq<String>) -> Seq<Seq<char>> {
    v.map_values(|s: String| s@)
}

// ---------------------------------------------------------------------------
// Table rows
// ---------------------------------------------------------------------------

/// One on-disk video file produced by one capture device.
#[derive(Debug)]
pub struct VideoChunkRow {
    pub id: i64,
    pub file_path: String,
    pub device_name: String,
    pub timestamp: i64,
}

pub struct VideoChunkRowV {
    pub id: i64,
    pub file_path: Seq<char>,
    pub device_name: Seq<char>,
    pub timestamp: i64,
}

impl View for VideoChunkRow {
    type V = VideoChunkRowV;

    open spec fn view(&self) -> VideoChunkRowV {
        VideoChunkRowV {
            id: self.id,
            file_path: self.file_path@,
            device_name: self.device_name@,
            timestamp: self.timestamp,
        }
    }
}

/// One sampled image within a video chunk.
#[derive(Debug)]
pub struct FrameRow {
    pub id: i64,
    pub video_chunk_id: i64,
    pub offset_index: i64,
    pub timestamp: i64,
    pub name: String,
    pub browser_url: Option<String>,
}

pub struct FrameRowV {
    pub id: i64,
    pub video_chunk_id: i64,
    pub offset_index: i64,
    pub timestamp: i64,
    pub name: Seq<char>,
    pub browser_url: Option<Seq<char>>,
}

impl View for FrameRow {
    type V = FrameRowV;

    open spec fn view(&self) -> FrameRowV {
        FrameRowV {
            id: self.id,
            video_chunk_id: self.video_chunk_id,
            offset_index: self.offset_index,
            timestamp: self.timestamp,
            name: self.name@,
            browser_url: opt_str_view(self.browser_url),
        }
    }
}

/// The OCR text attached to a frame (one row per frame).
#[derive(Debug)]
pub struct OcrRow {
    pub frame_id: i64,
    pub text: String,
    pub text_json: String,
    pub app_name: String,
    pub window_name: String,
    pub ocr_engine: String,
    pub focused: bool,
    pub text_length: usize,
}

pub struct OcrRowV {
    pub frame_id: i64,
    pub text: Seq<char>,
    pub text_json: Seq<char>,
    pub app_name: Seq<char>,
    pub window_name: Seq<char>,
    pub ocr_engine: Seq<char>,
    pub focused: bool,
    pub text_length: usize,
}

impl View for OcrRow {
    type V = OcrRowV;

    open spec fn view(&self) -> OcrRowV {
        OcrRowV {
            frame_id: self.frame_id,
            text: self.text@,
            text_json: self.text_json@,
            app_name: self.app_name@,
            window_name: self.window_name@,
            ocr_engine: self.ocr_engine@,
            focused: self.focused,
            text_length: self.text_length,
        }
    }
}

/// A captured audio file, de-duplicated by path.
#[derive(Debug)]
pub struct AudioChunkRow {
    pub id: i64,
    pub file_path: String,
    pub timestamp: i64,
}

pub struct AudioChunkRowV {
    pub id: i64,
    pub file_path: Seq<char>,
    pub timestamp: i64,
}

impl View for AudioChunkRow {
    type V = AudioChunkRowV;

    open spec fn view(&self) -> AudioChunkRowV {
        AudioChunkRowV { id: self.id, file_path: self.file_path@, timestamp: self.timestamp }
    }
}

/// One speaker-attributed transcription within an audio chunk.
/// `start_time` and `end_time` are second offsets within the chunk.
#[derive(Debug)]
pub struct TranscriptionRow {
    pub id: i64,
    pub audio_chunk_id: i64,
    pub transcription: String,
    pub offset_index: i64,
    pub timestamp: i64,
    pub transcription_engine: String,
    pub device: String,
    pub is_input_device: bool,
    pub speaker_id: Option<i64>,
    pub start_time: Option<i64>,
    pub end_time: Option<i64>,
    pub text_length: usize,
}

pub struct TranscriptionRowV {
    pub id: i64,
    pub audio_chunk_id: i64,
    pub transcription: Seq<char>,
    pub offset_index: i64,
    pub timestamp: i64,
    pub transcription_engine: Seq<char>,
    pub device: Seq<char>,
    pub is_input_device: bool,
    pub speaker_id: Option<i64>,
    pub start_time: Option<i64>,
    pub end_time: Option<i64>,
    pub text_length: usize,
}

impl View for TranscriptionRow {
    type V = TranscriptionRowV;

    open spec fn view(&self) -> TranscriptionRowV {
        TranscriptionRowV {
            id: self.id,
            audio_chunk_id: self.audio_chunk_id,
            transcription: self.transcription@,
            offset_index: self.offset_index,
            timestamp: self.timestamp,
            transcription_engine: self.transcription_engine@,
            device: self.device@,
            is_input_device: self.is_input_device,
            speaker_id: self.speaker_id,
            start_time: self.start_time,
            end_time: self.end_time,
            text_length: self.text_length,
        }
    }
}

/// A speaker identity.
#[derive(Debug)]
pub struct SpeakerRow {
    pub id: i64,
    pub name: String,
    pub metadata: String,
    pub hallucination: bool,
}

pub struct SpeakerRowV {
    pub id: i64,
    pub name: Seq<char>,
    pub metadata: Seq<char>,
    pub hallucination: bool,
}

impl View for SpeakerRow {
    type V = SpeakerRowV;

    open spec fn view(&self) -> SpeakerRowV {
        SpeakerRowV {
            id: self.id,
            name: self.name@,
            metadata: self.metadata@,
            hallucination: self.hallucination,
        }
    }
}

/// A speaker's embedding, stored as the raw little-endian byte blob the
/// vector extension consumes (4 bytes per component).
#[derive(Debug)]
pub struct SpeakerEmbeddingRow {
    pub speaker_id: i64,
    pub embedding: Vec<u8>,
}

pub struct SpeakerEmbeddingRowV {
    pub speaker_id: i64,
    pub embedding: Seq<u8>,
}

impl View for SpeakerEmbeddingRow {
    type V = SpeakerEmbeddingRowV;

    open spec fn view(&self) -> SpeakerEmbeddingRowV {
        SpeakerEmbeddingRowV { speaker_id: self.speaker_id, embedding: self.embedding@ }
    }
}

/// A text embedding attached to a frame's OCR text.
#[derive(Debug)]
pub struct OcrEmbeddingRow {
    pub frame_id: i64,
    pub embedding: String,
}

pub struct OcrEmbeddingRowV {
    pub frame_id: i64,
    pub embedding: Seq<char>,
}

impl View for OcrEmbeddingRow {
    type V = OcrEmbeddingRowV;

    open spec fn view(&self) -> OcrEmbeddingRowV {
        OcrEmbeddingRowV { frame_id: self.frame_id, embedding: self.embedding@ }
    }
}

/// An accessibility-tree snapshot.
#[derive(Debug)]
pub struct UiRow {
    pub id: i64,
    pub text_output: String,
    pub timestamp: i64,
    pub app: String,
    pub window: String,
    pub initial_traversal_at: Option<i64>,
    pub text_length: usize,
}

pub struct UiRowV {
    pub id: i64,
    pub text_output: Seq<char>,
    pub timestamp: i64,
    pub app: Seq<char>,
    pub window: Seq<char>,
    pub initial_traversal_at: Option<i64>,
    pub text_length: usize,
}

impl View for UiRow {
    type V = UiRowV;

    open spec fn view(&self) -> UiRowV {
        UiRowV {
            id: self.id,
            text_output: self.text_output@,
            timestamp: self.timestamp,
            app: self.app@,
            window: self.window@,
            initial_traversal_at: self.initial_traversal_at,
            text_length: self.text_length,
        }
    }
}

/// A tag (unique by name).
#[derive(Debug)]
pub struct TagRow {
    pub id: i64,
    pub name: String,
}

pub struct TagRowV {
    pub id: i64,
    pub name: Seq<char>,
}

impl View for TagRow {
    type V = TagRowV;

    open spec fn view(&self) -> TagRowV {
        TagRowV { id: self.id, name: self.name@ }
    }
}

/// A link between a tagged item (frame, audio chunk, or UI row) and a tag.
#[derive(Debug, Clone, Copy, PartialEq, Eq, Structural)]
pub struct TagLink {
    pub item_id: i64,
    pub tag_id: i64,
}

// ---------------------------------------------------------------------------
// Public records
// ---------------------------------------------------------------------------

/// A speaker as handed to callers (the hallucination flag stays internal).
#[derive(Debug)]
pub struct Speaker {
    pub id: i64,
    pub name: String,
    pub metadata: String,
}

pub struct SpeakerV {
    pub id: i64,
    pub name: Seq<char>,
    pub metadata: Seq<char>,
}

impl View for Speaker {
    type V = SpeakerV;

    open spec fn view(&self) -> SpeakerV {
        SpeakerV { id: self.id, name: self.name@, metadata: self.metadata@ }
    }
}

/// The capture device a transcription came from.
#[derive(Debug)]
pub struct AudioDevice {
    pub name: String,
    pub is_input: bool,
}

/// Metadata accompanying an imported video.
#[derive(Debug)]
pub struct VideoMetadata {
    pub creation_time: i64,
    pub name: Option<String>,
    pub device_name: Option<String>,
}

/// One OCR search hit.
#[derive(Debug)]
pub struct OCRResult {
    pub frame_id: i64,
    pub ocr_text: String,
    pub text_json: String,
    pub timestamp: i64,
    pub frame_name: String,
    pub file_path: String,
    pub offset_index: i64,
    pub app_name: String,
    pub ocr_engine: String,
    pub window_name: String,
    pub tags: Vec<String>,
    pub browser_url: Option<String>,
}

pub struct OCRResultV {
    pub frame_id: i64,
    pub ocr_text: Seq<char>,
    pub text_json: Seq<char>,
    pub timestamp: i64,
    pub frame_name: Seq<char>,
    pub file_path: Seq<char>,
    pub offset_index: i64,
    pub app_name: Seq<char>,
    pub ocr_engine: Seq<char>,
    pub window_name: Seq<char>,
    pub tags: Seq<Seq<char>>,
    pub browser_url: Option<Seq<char>>,
}

impl View for OCRResult {
    type V = OCRResultV;

    open spec fn view(&self) -> OCRResultV {
        OCRResultV {
            frame_id: self.frame_id,
            ocr_text: self.ocr_text@,
            text_json: self.text_json@,
            timestamp: self.timestamp,
            frame_name: self.frame_name@,
            file_path: self.file_path@,
            offset_index: self.offset_index,
            app_name: self.app_name@,
            ocr_engine: self.ocr_engine@,
            window_name: self.window_name@,
            tags: strs_view(self.tags@),
            browser_url: opt_str_view(self.browser_url),
        }
    }
}

/// One audio search hit, enriched with its speaker when one resolves.
#[derive(Debug)]
pub struct AudioResult {
    pub audio_chunk_id: i64,
    pub transcription: String,
    pub timestamp: i64,
    pub file_path: String,
    pub offset_index: i64,
    pub transcription_engine: String,
    pub tags: Vec<String>,
    pub device_name: String,
    pub is_input_device: bool,
    pub speaker: Option<Speaker>,
    pub start_time: Option<i64>,
    pub end_time: Option<i64>,
}

pub struct AudioResultV {
    pub audio_chunk_id: i64,
    pub transcription: Seq<char>,
    pub timestamp: i64,
    pub file_path: Seq<char>,
    pub offset_index: i64,
    pub transcription_engine: Seq<char>,
    pub tags: Seq<Seq<char>>,
    pub device_name: Seq<char>,
    pub is_input_device: bool,
    pub speaker: Option<SpeakerV>,
    pub start_time: Option<i64>,
    pub end_time: Option<i64>,
}

impl View for AudioResult {
    type V = AudioResultV;

    open spec fn view(&self) -> AudioResultV {
        AudioResultV {
            audio_chunk_id: self.audio_chunk_id,
            transcription: self.transcription@,
            timestamp: self.timestamp,
            file_path: self.file_path@,
            offset_index: self.offset_index,
            transcription_engine: self.transcription_engine@,
            tags: strs_view(self.tags@),
            device_name: self.device_name@,
            is_input_device: self.is_input_device,
            speaker: match self.speaker {
                Some(ref s) => Some(s@),
                None => None,
            },
            start_time: self.start_time,
            end_time: self.end_time,
        }
    }
}

/// One UI search hit, with the nearest frame's video context when a frame
/// lies within one second of the snapshot.
#[derive(Debug)]
pub struct UiContent {
    pub id: i64,
    pub text_output: String,
    pub timestamp: i64,
    pub app: String,
    pub window: String,
    pub initial_traversal_at: Option<i64>,
    pub file_path: Option<String>,
    pub offset_index: Option<i64>,
    pub browser_url: Option<String>,
    pub frame_name: Option<String>,
}

pub struct UiContentV {
    pub id: i64,
    pub text_output: Seq<char>,
    pub timestamp: i64,
    pub app: Seq<char>,
    pub window: Seq<char>,
    pub initial_traversal_at: Option<i64>,
    pub file_path: Option<Seq<char>>,
    pub offset_index: Option<i64>,
    pub browser_url: Option<Seq<char>>,
    pub frame_name: Option<Seq<char>>,
}

impl View for UiContent {
    type V = UiContentV;

    open spec fn view(&self) -> UiContentV {
        UiContentV {
            id: self.id,
            text_output: self.text_output@,
            timestamp: self.timestamp,
            app: self.app@,
            window: self.window@,
            initial_traversal_at: self.initial_traversal_at,
            file_path: opt_str_view(self.file_path),
            offset_index: self.offset_index,
            browser_url: opt_str_view(self.browser_url),
            frame_name: opt_str_view(self.frame_name),
        }
    }
}

/// The tagged union the unified search returns.
#[derive(Debug)]
pub enum SearchResult {
    OCR(OCRResult),
    Audio(AudioResult),
    UI(UiContent),
}

pub enum SearchResultV {
    OCR(OCRResultV),
    Audio(AudioResultV),
    UI(UiContentV),
}

impl View for SearchResult {
    type V = SearchResultV;

    open spec fn view(&self) -> SearchResultV {
        match self {
            SearchResult::OCR(r) => SearchResultV::OCR(r@),
            SearchResult::Audio(r) => SearchResultV::Audio(r@),
            SearchResult::UI(r) => SearchResultV::UI(r@),
        }
    }
}

impl SearchResultV {
    /// The timestamp the unified search sorts on.
    pub open spec fn timestamp(self) -> i64 {
        match self {
            SearchResultV::OCR(r) => r.timestamp,
            SearchResultV::Audio(r) => r.timestamp,
            SearchResultV::UI(r) => r.timestamp,
        }
    }
}

/// One OCR block as serialized by the OCR engine: every numeric field is
/// kept as the engine's original decimal string.
#[derive(Debug)]
pub struct OcrBlock {
    pub text: String,
    pub conf: String,
    pub left: String,
    pub top: String,
    pub width: String,
    pub height: String,
}

pub struct OcrBlockV {
    pub text: Seq<char>,
    pub conf: Seq<char>,
    pub left: Seq<char>,
    pub top: Seq<char>,
    pub width: Seq<char>,
    pub height: Seq<char>,
}

impl View for OcrBlock {
    type V = OcrBlockV;

    open spec fn view(&self) -> OcrBlockV {
        OcrBlockV {
            text: self.text@,
            conf: self.conf@,
            left: self.left@,
            top: self.top@,
            width: self.width@,
            height: self.height@,
        }
    }
}

/// A bounding box in millionths of the engine's coordinate unit.
#[derive(Debug, Clone, Copy, PartialEq, Eq, Structural)]
pub struct TextBounds {
    pub left: i64,
    pub top: i64,
    pub width: i64,
    pub height: i64,
}

/// One matched OCR block with its parsed confidence and bounds
/// (fixed-point millionths).
#[derive(Debug)]
pub struct TextPosition {
    pub text: String,
    pub confidence: i64,
    pub bounds: TextBounds,
}

pub struct TextPositionV {
    pub text: Seq<char>,
    pub confidence: i64,
    pub bounds: TextBounds,
}

impl View for TextPosition {
    type V = TextPositionV;

    open spec fn view(&self) -> TextPositionV {
        TextPositionV { text: self.text@, confidence: self.confidence, bounds: self.bounds }
    }
}

/// One hit of the position-level OCR search.
#[derive(Debug)]
pub struct SearchMatch {
    pub frame_id: i64,
    pub timestamp: i64,
    pub text_positions: Vec<TextPosition>,
    pub app_name: String,
    pub window_name: String,
    pub confidence: i64,
    pub text: String,
    pub url: Option<String>,
}

pub struct SearchMatchV {
    pub frame_id: i64,
    pub timestamp: i64,
    pub text_positions: Seq<TextPositionV>,
    pub app_name: Seq<char>,
    pub window_name: Seq<char>,
    pub confidence: i64,
    pub text: Seq<char>,
    pub url: Option<Seq<char>>,
}

impl View for SearchMatch {
    type V = SearchMatchV;

    open spec fn view(&self) -> SearchMatchV {
        SearchMatchV {
            frame_id: self.frame_id,
            timestamp: self.timestamp,
            text_positions: self.text_positions@.map_values(|p: TextPosition| p@),
            app_name: self.app_name@,
            window_name: self.window_name@,
            confidence: self.confidence,
            text: self.text@,
            url: opt_str_view(self.url),
        }
    }
}

/// One recent transcription attached to a speaker listing.
#[derive(Debug)]
pub struct AudioSample {
    pub path: String,
    pub transcript: String,
    pub start_time: Option<i64>,
    pub end_time: Option<i64>,
}

pub struct AudioSampleV {
    pub path: Seq<char>,
    pub transcript: Seq<char>,
    pub start_time: Option<i64>,
    pub end_time: Option<i64>,
}

impl View for AudioSample {
    type V = AudioSampleV;

    open spec fn view(&self) -> AudioSampleV {
        AudioSampleV {
            path: self.path@,
            transcript: self.transcript@,
            start_time: self.start_time,
            end_time: self.end_time,
        }
    }
}

/// A speaker listing together with its most recent audio samples; the
/// collaborator layer folds the samples into the speaker's JSON metadata.
#[derive(Debug)]
pub struct SpeakerWithSamples {
    pub speaker: Speaker,
    pub audio_samples: Vec<AudioSample>,
    pub transcription_count: usize,
}

pub struct SpeakerWithSamplesV {
    pub speaker: SpeakerV,
    pub audio_samples: Seq<AudioSampleV>,
    pub transcription_count: usize,
}

impl View for SpeakerWithSamples {
    type V = SpeakerWithSamplesV;

    open spec fn view(&self) -> SpeakerWithSamplesV {
        SpeakerWithSamplesV {
            speaker: self.speaker@,
            audio_samples: self.audio_samples@.map_values(|s: AudioSample| s@),
            transcription_count: self.transcription_count,
        }
    }
}

/// One audio chunk a speaker occurs in, with the transcription's bounds.
#[derive(Debug)]
pub struct AudioChunksResponse {
    pub audio_chunk_id: i64,
    pub file_path: String,
    pub timestamp: i64,
    pub start_time: Option<i64>,
    pub end_time: Option<i64>,
}

pub struct AudioChunksResponseV {
    pub audio_chunk_id: i64,
    pub file_path: Seq<char>,
    pub timestamp: i64,
    pub start_time: Option<i64>,
    pub end_time: Option<i64>,
}

impl View for AudioChunksResponse {
    type V = AudioChunksResponseV;

    open spec fn view(&self) -> AudioChunksResponseV {
        AudioChunksResponseV {
            audio_chunk_id: self.audio_chunk_id,
            file_path: self.file_path@,
            timestamp: self.timestamp,
            start_time: self.start_time,
            end_time: self.end_time,
        }
    }
}

/// The OCR context of a frame inside a time-series answer.
#[derive(Debug)]
pub struct OCREntry {
    pub text: String,
    pub app_name: String,
    pub window_name: String,
    pub device_name: String,
    pub video_file_path: String,
}

pub struct OCREntryV {
    pub text: Seq<char>,
    pub app_name: Seq<char>,
    pub window_name: Seq<char>,
    pub device_name: Seq<char>,
    pub video_file_path: Seq<char>,
}

impl View for OCREntry {
    type V = OCREntryV;

    open spec fn view(&self) -> OCREntryV {
        OCREntryV {
            text: self.text@,
            app_name: self.app_name@,
            window_name: self.window_name@,
            device_name: self.device_name@,
            video_file_path: self.video_file_path@,
        }
    }
}

/// One transcription aligned to a frame inside a time-series answer.
/// `duration_secs` is `end_time - start_time` when both bounds exist.
#[derive(Debug)]
pub struct AudioEntry {
    pub transcription: String,
    pub device_name: String,
    pub is_input: bool,
    pub audio_file_path: String,
    pub duration_secs: Option<i64>,
}

pub struct AudioEntryV {
    pub transcription: Seq<char>,
    pub device_name: Seq<char>,
    pub is_input: bool,
    pub audio_file_path: Seq<char>,
    pub duration_secs: Option<i64>,
}

impl View for AudioEntry {
    type V = AudioEntryV;

    open spec fn view(&self) -> AudioEntryV {
        AudioEntryV {
            transcription: self.transcription@,
            device_name: self.device_name@,
            is_input: self.is_input,
            audio_file_path: self.audio_file_path@,
            duration_secs: self.duration_secs,
        }
    }
}

/// One frame of a time-series answer with its OCR context and the audio
/// aligned to it.
#[derive(Debug)]
pub struct FrameData {
    pub frame_id: i64,
    pub timestamp: i64,
    pub offset_index: i64,
    pub ocr_entries: Vec<OCREntry>,
    pub audio_entries: Vec<AudioEntry>,
}

pub struct FrameDataV {
    pub frame_id: i64,
    pub timestamp: i64,
    pub offset_index: i64,
    pub ocr_entries: Seq<OCREntryV>,
    pub audio_entries: Seq<AudioEntryV>,
}

impl View for FrameData {
    type V = FrameDataV;

    open spec fn view(&self) -> FrameDataV {
        FrameDataV {
            frame_id: self.frame_id,
            timestamp: self.timestamp,
            offset_index: self.offset_index,
            ocr_entries: self.ocr_entries@.map_values(|e: OCREntry| e@),
            audio_entries: self.audio_entries@.map_values(|e: AudioEntry| e@),
        }
    }
}

/// The temporal aligner's answer for a window.
#[derive(Debug)]
pub struct TimeSeriesChunk {
    pub frames: Vec<FrameData>,
    pub start_time: i64,
    pub end_time: i64,
}

pub struct TimeSeriesChunkV {
    pub frames: Seq<FrameDataV>,
    pub start_time: i64,
    pub end_time: i64,
}

impl View for TimeSeriesChunk {
    type V = TimeSeriesChunkV;

    open spec fn view(&self) -> TimeSeriesChunkV {
        TimeSeriesChunkV {
            frames: self.frames@.map_values(|f: FrameData| f@),
            start_time: self.start_time,
            end_time: self.end_time,
        }
    }
}

} // verus!
