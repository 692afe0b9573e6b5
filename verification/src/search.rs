//! The federated search engine: per-modality filtered queries over the
//! store model, merged, sorted by timestamp descending and paginated,
//! with the matching count alongside.

use vstd::prelude::*;

use crate::order::{
    insert_ordered, lemma_insert_ordered_at, lemma_sort_ordered_ensures, page, paginate,
    sort_ordered,
};
use crate::speakers::public_speaker;
use crate::store::{find_by_key, has_key, lemma_find_by_key_some, DatabaseManager, DbView, Keyed};
use crate::text::{like_contains, like_contains_exec, text_matches, text_matches_exec};
use crate::types::{
    opt_ref_view, strs_view, AudioResult, AudioResultV, ContentType, OCRResult, OCRResultV,
    OcrEmbeddingRowV, OcrRowV, SearchResult, SearchResultV, Speaker, TagLink, TagRowV,
    TranscriptionRowV, UiContent, UiContentV, UiRowV, FrameRowV,
};

verus! {


/// View maps of exec result vectors, named once so every contract and
/// proof speaks of the same function.
pub open spec fn ocrs_view(s: Seq<OCRResult>) -> Seq<OCRResultV> {
    s.map_values(|x: OCRResult| x@)
}

pub open spec fn audios_view(s: Seq<AudioResult>) -> Seq<AudioResultV> {
    s.map_values(|x: AudioResult| x@)
}

pub open spec fn uis_view(s: Seq<UiContent>) -> Seq<UiContentV> {
    s.map_values(|x: UiContent| x@)
}

pub open spec fn srs_view(s: Seq<SearchResult>) -> Seq<SearchResultV> {
    s.map_values(|x: SearchResult| x@)
}

// ---------------------------------------------------------------------------
// Filter predicates
// ---------------------------------------------------------------------------

/// A timestamp inside an optional window.
pub open spec fn time_in(ts: i64, start: Option<i64>, end: Option<i64>) -> bool {
    &&& (start matches Some(s) ==> ts >= s)
    &&& (end matches Some(e) ==> ts <= e)
}

/// An optional case-insensitive containment filter.
pub open spec fn opt_like(pat: Option<Seq<char>>, txt: Seq<char>) -> bool {
    pat matches Some(p) ==> like_contains(txt, p)
}

/// A stored text length inside optional bounds.
pub open spec fn len_in(l: usize, minl: Option<usize>, maxl: Option<usize>) -> bool {
    &&& (minl matches Some(m) ==> l >= m)
    &&& (maxl matches Some(m) ==> l <= m)
}

pub fn time_in_exec(ts: i64, start: Option<i64>, end: Option<i64>) -> (r: bool)
    ensures
        r == time_in(ts, start, end),
{
    (match start {
        Some(s) => ts >= s,
        None => true,
    }) && (match end {
        Some(e) => ts <= e,
        None => true,
    })
}

fn opt_like_exec(pat: Option<&str>, txt: &str) -> (r: bool)
    ensures
        r == opt_like(opt_ref_view(pat), txt@),
{
    match pat {
        Some(p) => like_contains_exec(txt, p),
        None => true,
    }
}

fn len_in_exec(l: usize, minl: Option<usize>, maxl: Option<usize>) -> (r: bool)
    ensures
        r == len_in(l, minl, maxl),
{
    (match minl {
        Some(m) => l >= m,
        None => true,
    }) && (match maxl {
        Some(m) => l <= m,
        None => true,
    })
}

// ---------------------------------------------------------------------------
// Tag joins
// ---------------------------------------------------------------------------

/// The tag names linked to an item, in link-table order; a link whose
/// tag row is gone contributes nothing.
pub open spec fn tags_from_links(links: Seq<TagLink>, tags: Seq<TagRowV>, item: i64) -> Seq<
    Seq<char>,
>
    decreases links.len(),
{
    if links.len() == 0 {
        Seq::empty()
    } else {
        let rest = tags_from_links(links.drop_last(), tags, item);
        if links.last().item_id == item {
            match find_by_key(tags, links.last().tag_id) {
                Some(t) => rest.push(t.name),
                None => rest,
            }
        } else {
            rest
        }
    }
}

impl DatabaseManager {
    /// The tag names on a frame, through the vision link table.
    fn vision_tags_of(&self, item: i64) -> (r: Vec<String>)
        requires
            self@.wf(),
        ensures
            strs_view(r@) == tags_from_links(self@.vision_tags, self@.tags, item),
    {
        broadcast use Seq::lemma_push_map_commute;

        let n = self.vision_tags.len();
        let mut r: Vec<String> = Vec::new();
        let mut i: usize = 0;
        while i < n
            invariant
                self@.wf(),
                i <= n,
                n == self@.vision_tags.len(),
                strs_view(r@) == tags_from_links(
                    self@.vision_tags.subrange(0, i as int),
                    self@.tags,
                    item,
                ),
            decreases n - i,
        {
            let ghost links = self@.vision_tags;
            let ghost prev_r = r@;
            proof {
                assert(links.subrange(0, i + 1).drop_last() =~= links.subrange(0, i as int));
                assert(links.subrange(0, i + 1).last() == links[i as int]);
            }
            if self.vision_tags[i].item_id == item {
                let tp = self.tag_find(self.vision_tags[i].tag_id);
                if let Some(w) = tp {
                    r.push(self.tags[w].name.clone());
                    proof {
                        assert(r@ == prev_r.push(r@.last()));
                        assert(r@.last()@ == self@.tags[w as int].name);
                    }
                }
            }
            i = i + 1;
            proof {
                assert(strs_view(r@) =~= tags_from_links(
                    links.subrange(0, i as int),
                    self@.tags,
                    item,
                ));
            }
        }
        proof {
            assert(self@.vision_tags.subrange(0, n as int) =~= self@.vision_tags);
        }
        r
    }

    /// The tag names on an audio chunk, through the audio link table.
    fn audio_tags_of(&self, item: i64) -> (r: Vec<String>)
        requires
            self@.wf(),
        ensures
            strs_view(r@) == tags_from_links(self@.audio_tags, self@.tags, item),
    {
        broadcast use Seq::lemma_push_map_commute;

        let n = self.audio_tags.len();
        let mut r: Vec<String> = Vec::new();
        let mut i: usize = 0;
        while i < n
            invariant
                self@.wf(),
                i <= n,
                n == self@.audio_tags.len(),
                strs_view(r@) == tags_from_links(
                    self@.audio_tags.subrange(0, i as int),
                    self@.tags,
                    item,
                ),
            decreases n - i,
        {
            let ghost links = self@.audio_tags;
            let ghost prev_r = r@;
            proof {
                assert(links.subrange(0, i + 1).drop_last() =~= links.subrange(0, i as int));
                assert(links.subrange(0, i + 1).last() == links[i as int]);
            }
            if self.audio_tags[i].item_id == item {
                let tp = self.tag_find(self.audio_tags[i].tag_id);
                if let Some(w) = tp {
                    r.push(self.tags[w].name.clone());
                    proof {
                        assert(r@ == prev_r.push(r@.last()));
                        assert(r@.last()@ == self@.tags[w as int].name);
                    }
                }
            }
            i = i + 1;
            proof {
                assert(strs_view(r@) =~= tags_from_links(
                    links.subrange(0, i as int),
                    self@.tags,
                    item,
                ));
            }
        }
        proof {
            assert(self@.audio_tags.subrange(0, n as int) =~= self@.audio_tags);
        }
        r
    }
}

// ---------------------------------------------------------------------------
// OCR search
// ---------------------------------------------------------------------------

/// Whether an OCR row passes the filters; rows whose frame is gone never
/// do, as the inner join drops them.
pub open spec fn ocr_hit(
    db: DbView,
    o: OcrRowV,
    q: Seq<char>,
    start: Option<i64>,
    end: Option<i64>,
    app: Option<Seq<char>>,
    win: Option<Seq<char>>,
    minl: Option<usize>,
    maxl: Option<usize>,
    fname: Option<Seq<char>>,
) -> bool {
    match find_by_key(db.frames, o.frame_id) {
        None => false,
        Some(f) => {
            &&& text_matches(q, o.text)
            &&& time_in(f.timestamp, start, end)
            &&& opt_like(app, o.app_name)
            &&& opt_like(win, o.window_name)
            &&& len_in(o.text_length, minl, maxl)
            &&& opt_like(fname, f.name)
        },
    }
}

pub open spec fn empty_ocr_result() -> OCRResultV {
    OCRResultV {
        frame_id: 0,
        ocr_text: Seq::empty(),
        text_json: Seq::empty(),
        timestamp: 0,
        frame_name: Seq::empty(),
        file_path: Seq::empty(),
        offset_index: 0,
        app_name: Seq::empty(),
        ocr_engine: Seq::empty(),
        window_name: Seq::empty(),
        tags: Seq::empty(),
        browser_url: None,
    }
}

/// The result record an OCR row produces, joined through its frame and
/// chunk.
pub open spec fn ocr_result_of(db: DbView, o: OcrRowV) -> OCRResultV {
    match find_by_key(db.frames, o.frame_id) {
        None => empty_ocr_result(),
        Some(f) => match find_by_key(db.video_chunks, f.video_chunk_id) {
            None => empty_ocr_result(),
            Some(c) => OCRResultV {
                frame_id: o.frame_id,
                ocr_text: o.text,
                text_json: o.text_json,
                timestamp: f.timestamp,
                frame_name: f.name,
                file_path: c.file_path,
                offset_index: f.offset_index,
                app_name: o.app_name,
                ocr_engine: o.ocr_engine,
                window_name: o.window_name,
                tags: tags_from_links(db.vision_tags, db.tags, o.frame_id),
                browser_url: f.browser_url,
            },
        },
    }
}

/// The OCR rows that pass the filters, as result records in table order.
pub open spec fn spec_ocr_hits(
    db: DbView,
    rows: Seq<OcrRowV>,
    q: Seq<char>,
    start: Option<i64>,
    end: Option<i64>,
    app: Option<Seq<char>>,
    win: Option<Seq<char>>,
    minl: Option<usize>,
    maxl: Option<usize>,
    fname: Option<Seq<char>>,
) -> Seq<OCRResultV>
    decreases rows.len(),
{
    if rows.len() == 0 {
        Seq::empty()
    } else {
        let rest = spec_ocr_hits(db, rows.drop_last(), q, start, end, app, win, minl, maxl, fname);
        if ocr_hit(db, rows.last(), q, start, end, app, win, minl, maxl, fname) {
            rest.push(ocr_result_of(db, rows.last()))
        } else {
            rest
        }
    }
}

/// Timestamp-descending order on OCR results; ties keep arrival order.
pub open spec fn by_ts_desc_ocr() -> spec_fn(OCRResultV, OCRResultV) -> bool {
    |a: OCRResultV, b: OCRResultV| a.timestamp >= b.timestamp
}

/// The OCR search: filtered rows, sorted by timestamp descending, then
/// the requested page.
pub open spec fn spec_search_ocr(
    db: DbView,
    q: Seq<char>,
    limit: u32,
    offset: u32,
    start: Option<i64>,
    end: Option<i64>,
    app: Option<Seq<char>>,
    win: Option<Seq<char>>,
    minl: Option<usize>,
    maxl: Option<usize>,
    fname: Option<Seq<char>>,
) -> Seq<OCRResultV> {
    page(
        sort_ordered(
            spec_ocr_hits(db, db.ocr, q, start, end, app, win, minl, maxl, fname),
            by_ts_desc_ocr(),
        ),
        limit,
        offset,
    )
}

impl DatabaseManager {
    /// Search the OCR modality.
    #[verifier::rlimit(100)]
    pub fn search_ocr(
        &self,
        query: &str,
        limit: u32,
        offset: u32,
        start_time: Option<i64>,
        end_time: Option<i64>,
        app_name: Option<&str>,
        window_name: Option<&str>,
        min_length: Option<usize>,
        max_length: Option<usize>,
        frame_name: Option<&str>,
    ) -> (r: Vec<OCRResult>)
        requires
            self@.wf(),
        ensures
            ocrs_view(r@) == spec_search_ocr(
                self@,
                query@,
                limit,
                offset,
                start_time,
                end_time,
                opt_ref_view(app_name),
                opt_ref_view(window_name),
                min_length,
                max_length,
                opt_ref_view(frame_name),
            ),
    {
        broadcast use Seq::lemma_push_map_commute;

        let ghost db = self@;
        let ghost qv = query@;
        let ghost appv = opt_ref_view(app_name);
        let ghost winv = opt_ref_view(window_name);
        let ghost fnv = opt_ref_view(frame_name);
        let n = self.ocr.len();
        let mut hits: Vec<OCRResult> = Vec::new();
        let mut i: usize = 0;
        while i < n
            invariant
                self@.wf(),
                db == self@,
                qv == query@,
                appv == opt_ref_view(app_name),
                winv == opt_ref_view(window_name),
                fnv == opt_ref_view(frame_name),
                i <= n,
                n == db.ocr.len(),
                ocrs_view(hits@) == sort_ordered(
                    spec_ocr_hits(
                        db,
                        db.ocr.subrange(0, i as int),
                        qv,
                        start_time,
                        end_time,
                        appv,
                        winv,
                        min_length,
                        max_length,
                        fnv,
                    ),
                    by_ts_desc_ocr(),
                ),
            decreases n - i,
        {
            let ghost pref_hits = spec_ocr_hits(
                db,
                db.ocr.subrange(0, i as int),
                qv,
                start_time,
                end_time,
                appv,
                winv,
                min_length,
                max_length,
                fnv,
            );
            proof {
                assert(db.ocr.subrange(0, i + 1).drop_last() =~= db.ocr.subrange(0, i as int));
                assert(db.ocr.subrange(0, i + 1).last() == db.ocr[i as int]);
            }
            let fp = self.frame_find(self.ocr[i].frame_id);
            match fp {
                None => {
                    proof {
                        assert(!ocr_hit(
                            db,
                            db.ocr[i as int],
                            qv,
                            start_time,
                            end_time,
                            appv,
                            winv,
                            min_length,
                            max_length,
                            fnv,
                        ));
                    }
                },
                Some(fw) => {
                    let hit = text_matches_exec(query, self.ocr[i].text.as_str()) && time_in_exec(
                        self.frames[fw].timestamp,
                        start_time,
                        end_time,
                    ) && opt_like_exec(app_name, self.ocr[i].app_name.as_str()) && opt_like_exec(
                        window_name,
                        self.ocr[i].window_name.as_str(),
                    ) && len_in_exec(self.ocr[i].text_length, min_length, max_length)
                        && opt_like_exec(frame_name, self.frames[fw].name.as_str());
                    proof {
                        assert(hit == ocr_hit(
                            db,
                            db.ocr[i as int],
                            qv,
                            start_time,
                            end_time,
                            appv,
                            winv,
                            min_length,
                            max_length,
                            fnv,
                        ));
                    }
                    if hit {
                        let cp = self.chunk_find(self.frames[fw].video_chunk_id);
                        let res: OCRResult = match cp {
                            Some(cw) => OCRResult {
                                frame_id: self.ocr[i].frame_id,
                                ocr_text: self.ocr[i].text.clone(),
                                text_json: self.ocr[i].text_json.clone(),
                                timestamp: self.frames[fw].timestamp,
                                frame_name: self.frames[fw].name.clone(),
                                file_path: self.video_chunks[cw].file_path.clone(),
                                offset_index: self.frames[fw].offset_index,
                                app_name: self.ocr[i].app_name.clone(),
                                ocr_engine: self.ocr[i].ocr_engine.clone(),
                                window_name: self.ocr[i].window_name.clone(),
                                tags: self.vision_tags_of(self.ocr[i].frame_id),
                                browser_url: match &self.frames[fw].browser_url {
                                    Some(u) => Some(u.clone()),
                                    None => None,
                                },
                            },
                            None => {
                                proof {
                                    assert(has_key(
                                        db.video_chunks,
                                        db.frames[fw as int].video_chunk_id,
                                    ));
                                    lemma_find_by_key_some(
                                        db.video_chunks,
                                        db.frames[fw as int].video_chunk_id,
                                    );
                                    assert(false);
                                }
                                OCRResult {
                                    frame_id: 0,
                                    ocr_text: String::new(),
                                    text_json: String::new(),
                                    timestamp: 0,
                                    frame_name: String::new(),
                                    file_path: String::new(),
                                    offset_index: 0,
                                    app_name: String::new(),
                                    ocr_engine: String::new(),
                                    window_name: String::new(),
                                    tags: Vec::new(),
                                    browser_url: None,
                                }
                            },
                        };
                        proof {
                            assert(res@ == ocr_result_of(db, db.ocr[i as int]));
                        }
                        // Insert at the first position whose timestamp is
                        // smaller, keeping the vector sorted descending.
                        let mut j: usize = 0;
                        while j < hits.len() && hits[j].timestamp >= res.timestamp
                            invariant
                                j <= hits@.len(),
                                forall|k: int|
                                    0 <= k < j ==> (#[trigger] hits@[k]).timestamp
                                        >= res.timestamp,
                            decreases hits@.len() - j,
                        {
                            j = j + 1;
                        }
                        let ghost sorted_pref = ocrs_view(hits@);
                        hits.insert(j, res);
                        proof {
                            lemma_insert_ordered_at(
                                sorted_pref,
                                res@,
                                j as int,
                                by_ts_desc_ocr(),
                            );
                            assert(ocrs_view(hits@) =~= sorted_pref.insert(
                                j as int,
                                res@,
                            ));
                            assert(ocrs_view(hits@) == insert_ordered(
                                sorted_pref,
                                res@,
                                by_ts_desc_ocr(),
                            ));
                            let newpref = spec_ocr_hits(
                                db,
                                db.ocr.subrange(0, i + 1),
                                qv,
                                start_time,
                                end_time,
                                appv,
                                winv,
                                min_length,
                                max_length,
                                fnv,
                            );
                            assert(newpref == pref_hits.push(res@));
                            assert(newpref.drop_last() =~= pref_hits);
                            assert(newpref.last() == res@);
                            assert(sort_ordered(newpref, by_ts_desc_ocr()) == insert_ordered(
                                sort_ordered(pref_hits, by_ts_desc_ocr()),
                                res@,
                                by_ts_desc_ocr(),
                            ));
                        }
                    }
                },
            }
            i = i + 1;
        }
        proof {
            assert(db.ocr.subrange(0, n as int) =~= db.ocr);
        }
        let mut out = hits;
        paginate(&mut out, limit, offset);
        out
    }
}


// ---------------------------------------------------------------------------
// Audio search
// ---------------------------------------------------------------------------

/// Whether a transcription passes the filters: full-text match, time
/// window, length bounds, no hallucinated speaker, the optional speaker
/// whitelist, and an existing audio chunk.
pub open spec fn audio_hit(
    db: DbView,
    a: TranscriptionRowV,
    q: Seq<char>,
    start: Option<i64>,
    end: Option<i64>,
    minl: Option<usize>,
    maxl: Option<usize>,
    sids: Seq<i64>,
) -> bool {
    &&& text_matches(q, a.transcription)
    &&& time_in(a.timestamp, start, end)
    &&& len_in(a.text_length, minl, maxl)
    &&& (match a.speaker_id {
        None => true,
        Some(sid) => match find_by_key(db.speakers, sid) {
            None => true,
            Some(sp) => !sp.hallucination,
        },
    })
    &&& (sids.len() == 0 || (a.speaker_id matches Some(sid) && sids.contains(sid)))
    &&& find_by_key(db.audio_chunks, a.audio_chunk_id) is Some
}

pub open spec fn empty_audio_result() -> AudioResultV {
    AudioResultV {
        audio_chunk_id: 0,
        transcription: Seq::empty(),
        timestamp: 0,
        file_path: Seq::empty(),
        offset_index: 0,
        transcription_engine: Seq::empty(),
        tags: Seq::empty(),
        device_name: Seq::empty(),
        is_input_device: false,
        speaker: None,
        start_time: None,
        end_time: None,
    }
}

/// The result record a transcription produces, enriched with its chunk,
/// tags and speaker; an unresolvable speaker becomes no speaker.
pub open spec fn audio_result_of(db: DbView, a: TranscriptionRowV) -> AudioResultV {
    match find_by_key(db.audio_chunks, a.audio_chunk_id) {
        None => empty_audio_result(),
        Some(c) => AudioResultV {
            audio_chunk_id: a.audio_chunk_id,
            transcription: a.transcription,
            timestamp: a.timestamp,
            file_path: c.file_path,
            offset_index: a.offset_index,
            transcription_engine: a.transcription_engine,
            tags: tags_from_links(db.audio_tags, db.tags, a.audio_chunk_id),
            device_name: a.device,
            is_input_device: a.is_input_device,
            speaker: match a.speaker_id {
                None => None,
                Some(sid) => match find_by_key(db.speakers, sid) {
                    None => None,
                    Some(sp) => Some(public_speaker(sp)),
                },
            },
            start_time: a.start_time,
            end_time: a.end_time,
        },
    }
}

/// The transcriptions that pass the filters, as result records in table
/// order.
pub open spec fn spec_audio_hits(
    db: DbView,
    rows: Seq<TranscriptionRowV>,
    q: Seq<char>,
    start: Option<i64>,
    end: Option<i64>,
    minl: Option<usize>,
    maxl: Option<usize>,
    sids: Seq<i64>,
) -> Seq<AudioResultV>
    decreases rows.len(),
{
    if rows.len() == 0 {
        Seq::empty()
    } else {
        let rest = spec_audio_hits(db, rows.drop_last(), q, start, end, minl, maxl, sids);
        if audio_hit(db, rows.last(), q, start, end, minl, maxl, sids) {
            rest.push(audio_result_of(db, rows.last()))
        } else {
            rest
        }
    }
}

pub open spec fn by_ts_desc_audio() -> spec_fn(AudioResultV, AudioResultV) -> bool {
    |a: AudioResultV, b: AudioResultV| a.timestamp >= b.timestamp
}

/// The audio search: filtered transcriptions, sorted by timestamp
/// descending, then the requested page.
pub open spec fn spec_search_audio(
    db: DbView,
    q: Seq<char>,
    limit: u32,
    offset: u32,
    start: Option<i64>,
    end: Option<i64>,
    minl: Option<usize>,
    maxl: Option<usize>,
    sids: Seq<i64>,
) -> Seq<AudioResultV> {
    page(
        sort_ordered(
            spec_audio_hits(db, db.transcriptions, q, start, end, minl, maxl, sids),
            by_ts_desc_audio(),
        ),
        limit,
        offset,
    )
}

fn contains_i64(v: &Vec<i64>, x: i64) -> (r: bool)
    ensures
        r == v@.contains(x),
{
    let mut i: usize = 0;
    while i < v.len()
        invariant
            i <= v@.len(),
            forall|j: int| 0 <= j < i ==> v@[j] != x,
        decreases v@.len() - i,
    {
        if v[i] == x {
            return true;
        }
        i = i + 1;
    }
    false
}

impl DatabaseManager {
    /// Search the audio modality. An empty `speaker_ids` list disables
    /// the speaker filter.
    #[verifier::rlimit(100)]
    pub fn search_audio(
        &self,
        query: &str,
        limit: u32,
        offset: u32,
        start_time: Option<i64>,
        end_time: Option<i64>,
        min_length: Option<usize>,
        max_length: Option<usize>,
        speaker_ids: &Vec<i64>,
    ) -> (r: Vec<AudioResult>)
        requires
            self@.wf(),
        ensures
            audios_view(r@) == spec_search_audio(
                self@,
                query@,
                limit,
                offset,
                start_time,
                end_time,
                min_length,
                max_length,
                speaker_ids@,
            ),
    {
        broadcast use Seq::lemma_push_map_commute;

        let ghost db = self@;
        let ghost qv = query@;
        let ghost sids = speaker_ids@;
        let n = self.transcriptions.len();
        let mut hits: Vec<AudioResult> = Vec::new();
        let mut i: usize = 0;
        while i < n
            invariant
                self@.wf(),
                db == self@,
                qv == query@,
                sids == speaker_ids@,
                i <= n,
                n == db.transcriptions.len(),
                audios_view(hits@) == sort_ordered(
                    spec_audio_hits(
                        db,
                        db.transcriptions.subrange(0, i as int),
                        qv,
                        start_time,
                        end_time,
                        min_length,
                        max_length,
                        sids,
                    ),
                    by_ts_desc_audio(),
                ),
            decreases n - i,
        {
            let ghost pref_hits = spec_audio_hits(
                db,
                db.transcriptions.subrange(0, i as int),
                qv,
                start_time,
                end_time,
                min_length,
                max_length,
                sids,
            );
            proof {
                assert(db.transcriptions.subrange(0, i + 1).drop_last() =~= db
                    .transcriptions.subrange(0, i as int));
                assert(db.transcriptions.subrange(0, i + 1).last() == db.transcriptions[i as int]);
            }
            let cp = self.audio_chunk_find(self.transcriptions[i].audio_chunk_id);
            let speaker_ok: bool = match self.transcriptions[i].speaker_id {
                None => true,
                Some(sid) => {
                    let sp = self.speaker_find(sid);
                    match sp {
                        None => true,
                        Some(w) => !self.speakers[w].hallucination,
                    }
                },
            };
            let whitelist_ok: bool = if speaker_ids.len() == 0 {
                true
            } else {
                match self.transcriptions[i].speaker_id {
                    Some(sid) => contains_i64(speaker_ids, sid),
                    None => false,
                }
            };
            let hit = cp.is_some() && text_matches_exec(
                query,
                self.transcriptions[i].transcription.as_str(),
            ) && time_in_exec(self.transcriptions[i].timestamp, start_time, end_time)
                && len_in_exec(self.transcriptions[i].text_length, min_length, max_length)
                && speaker_ok && whitelist_ok;
            proof {
                assert(hit == audio_hit(
                    db,
                    db.transcriptions[i as int],
                    qv,
                    start_time,
                    end_time,
                    min_length,
                    max_length,
                    sids,
                ));
            }
            if hit {
                let cw = match cp {
                    Some(cw) => cw,
                    None => {
                        proof {
                            assert(false);
                        }
                        0
                    },
                };
                let speaker: Option<Speaker> = match self.transcriptions[i].speaker_id {
                    None => None,
                    Some(sid) => {
                        let sp = self.speaker_find(sid);
                        match sp {
                            None => None,
                            Some(w) => Some(
                                Speaker {
                                    id: self.speakers[w].id,
                                    name: self.speakers[w].name.clone(),
                                    metadata: self.speakers[w].metadata.clone(),
                                },
                            ),
                        }
                    },
                };
                let res = AudioResult {
                    audio_chunk_id: self.transcriptions[i].audio_chunk_id,
                    transcription: self.transcriptions[i].transcription.clone(),
                    timestamp: self.transcriptions[i].timestamp,
                    file_path: self.audio_chunks[cw].file_path.clone(),
                    offset_index: self.transcriptions[i].offset_index,
                    transcription_engine: self.transcriptions[i].transcription_engine.clone(),
                    tags: self.audio_tags_of(self.transcriptions[i].audio_chunk_id),
                    device_name: self.transcriptions[i].device.clone(),
                    is_input_device: self.transcriptions[i].is_input_device,
                    speaker,
                    start_time: self.transcriptions[i].start_time,
                    end_time: self.transcriptions[i].end_time,
                };
                proof {
                    assert(res@ == audio_result_of(db, db.transcriptions[i as int]));
                }
                let mut j: usize = 0;
                while j < hits.len() && hits[j].timestamp >= res.timestamp
                    invariant
                        j <= hits@.len(),
                        forall|k: int|
                            0 <= k < j ==> (#[trigger] hits@[k]).timestamp >= res.timestamp,
                    decreases hits@.len() - j,
                {
                    j = j + 1;
                }
                let ghost sorted_pref = audios_view(hits@);
                hits.insert(j, res);
                proof {
                    lemma_insert_ordered_at(sorted_pref, res@, j as int, by_ts_desc_audio());
                    assert(audios_view(hits@) =~= sorted_pref.insert(
                        j as int,
                        res@,
                    ));
                    assert(audios_view(hits@) == insert_ordered(
                        sorted_pref,
                        res@,
                        by_ts_desc_audio(),
                    ));
                    let newpref = spec_audio_hits(
                        db,
                        db.transcriptions.subrange(0, i + 1),
                        qv,
                        start_time,
                        end_time,
                        min_length,
                        max_length,
                        sids,
                    );
                    assert(newpref == pref_hits.push(res@));
                    assert(newpref.drop_last() =~= pref_hits);
                    assert(newpref.last() == res@);
                    assert(sort_ordered(newpref, by_ts_desc_audio()) == insert_ordered(
                        sort_ordered(pref_hits, by_ts_desc_audio()),
                        res@,
                        by_ts_desc_audio(),
                    ));
                }
            }
            i = i + 1;
        }
        proof {
            assert(db.transcriptions.subrange(0, n as int) =~= db.transcriptions);
        }
        let mut out = hits;
        paginate(&mut out, limit, offset);
        out
    }
}

// ---------------------------------------------------------------------------
// UI search
// ---------------------------------------------------------------------------

/// The first frame within a second of the snapshot's timestamp, in
/// table order.
pub open spec fn first_near_frame(frames: Seq<FrameRowV>, ts: i64) -> Option<FrameRowV>
    decreases frames.len(),
{
    if frames.len() == 0 {
        None
    } else if -1000 <= frames[0].timestamp - ts <= 1000 {
        Some(frames[0])
    } else {
        first_near_frame(frames.drop_first(), ts)
    }
}

pub proof fn lemma_first_near_frame_at(frames: Seq<FrameRowV>, ts: i64, i: int)
    requires
        0 <= i < frames.len(),
        -1000 <= frames[i].timestamp - ts <= 1000,
        forall|j: int|
            0 <= j < i ==> !(-1000 <= (#[trigger] frames[j]).timestamp - ts <= 1000),
    ensures
        first_near_frame(frames, ts) == Some(frames[i]),
    decreases frames.len(),
{
    if i > 0 {
        lemma_first_near_frame_at(frames.drop_first(), ts, i - 1);
    }
}

pub proof fn lemma_first_near_frame_none(frames: Seq<FrameRowV>, ts: i64)
    requires
        forall|j: int|
            0 <= j < frames.len() ==> !(-1000 <= (#[trigger] frames[j]).timestamp - ts <= 1000),
    ensures
        first_near_frame(frames, ts) is None,
    decreases frames.len(),
{
    if frames.len() > 0 {
        lemma_first_near_frame_none(frames.drop_first(), ts);
    }
}

/// Whether a snapshot passes the filters.
pub open spec fn ui_hit(
    u: UiRowV,
    q: Seq<char>,
    start: Option<i64>,
    end: Option<i64>,
    app: Option<Seq<char>>,
    win: Option<Seq<char>>,
) -> bool {
    &&& text_matches(q, u.text_output)
    &&& time_in(u.timestamp, start, end)
    &&& opt_like(app, u.app)
    &&& opt_like(win, u.window)
}

/// The result record a snapshot produces, with the nearest frame's video
/// context attached when one lies within a second.
pub open spec fn ui_result_of(db: DbView, u: UiRowV) -> UiContentV {
    let base = UiContentV {
        id: u.id,
        text_output: u.text_output,
        timestamp: u.timestamp,
        app: u.app,
        window: u.window,
        initial_traversal_at: u.initial_traversal_at,
        file_path: None,
        offset_index: None,
        browser_url: None,
        frame_name: None,
    };
    match first_near_frame(db.frames, u.timestamp) {
        None => base,
        Some(f) => UiContentV {
            file_path: match find_by_key(db.video_chunks, f.video_chunk_id) {
                Some(c) => Some(c.file_path),
                None => None,
            },
            offset_index: Some(f.offset_index),
            browser_url: f.browser_url,
            frame_name: Some(f.name),
            ..base
        },
    }
}

/// The snapshots that pass the filters, as result records in table
/// order.
pub open spec fn spec_ui_hits(
    db: DbView,
    rows: Seq<UiRowV>,
    q: Seq<char>,
    start: Option<i64>,
    end: Option<i64>,
    app: Option<Seq<char>>,
    win: Option<Seq<char>>,
) -> Seq<UiContentV>
    decreases rows.len(),
{
    if rows.len() == 0 {
        Seq::empty()
    } else {
        let rest = spec_ui_hits(db, rows.drop_last(), q, start, end, app, win);
        if ui_hit(rows.last(), q, start, end, app, win) {
            rest.push(ui_result_of(db, rows.last()))
        } else {
            rest
        }
    }
}

pub open spec fn by_ts_desc_ui() -> spec_fn(UiContentV, UiContentV) -> bool {
    |a: UiContentV, b: UiContentV| a.timestamp >= b.timestamp
}

/// The UI search: filtered snapshots, sorted by timestamp descending,
/// then the requested page.
pub open spec fn spec_search_ui(
    db: DbView,
    q: Seq<char>,
    limit: u32,
    offset: u32,
    start: Option<i64>,
    end: Option<i64>,
    app: Option<Seq<char>>,
    win: Option<Seq<char>>,
) -> Seq<UiContentV> {
    page(
        sort_ordered(spec_ui_hits(db, db.ui_rows, q, start, end, app, win), by_ts_desc_ui()),
        limit,
        offset,
    )
}

impl DatabaseManager {
    /// The first frame within a second of `ts`, by position.
    fn near_frame(&self, ts: i64) -> (r: Option<usize>)
        ensures
            r matches Some(i) ==> i < self@.frames.len() && first_near_frame(self@.frames, ts)
                == Some(self@.frames[i as int]),
            r is None ==> first_near_frame(self@.frames, ts) is None,
    {
        let n = self.frames.len();
        let mut i: usize = 0;
        while i < n
            invariant
                i <= n,
                n == self@.frames.len(),
                forall|j: int|
                    0 <= j < i ==> !(-1000 <= (#[trigger] self@.frames[j]).timestamp - ts
                        <= 1000),
            decreases n - i,
        {
            let d: i128 = (self.frames[i].timestamp as i128) - (ts as i128);
            if -1000 <= d && d <= 1000 {
                proof {
                    lemma_first_near_frame_at(self@.frames, ts, i as int);
                }
                return Some(i);
            }
            i = i + 1;
        }
        proof {
            lemma_first_near_frame_none(self@.frames, ts);
        }
        None
    }

    /// Search the accessibility snapshots.
    #[verifier::rlimit(100)]
    pub fn search_ui_monitoring(
        &self,
        query: &str,
        app_name: Option<&str>,
        window_name: Option<&str>,
        start_time: Option<i64>,
        end_time: Option<i64>,
        limit: u32,
        offset: u32,
    ) -> (r: Vec<UiContent>)
        requires
            self@.wf(),
        ensures
            uis_view(r@) == spec_search_ui(
                self@,
                query@,
                limit,
                offset,
                start_time,
                end_time,
                opt_ref_view(app_name),
                opt_ref_view(window_name),
            ),
    {
        broadcast use Seq::lemma_push_map_commute;

        let ghost db = self@;
        let ghost qv = query@;
        let ghost appv = opt_ref_view(app_name);
        let ghost winv = opt_ref_view(window_name);
        let n = self.ui_rows.len();
        let mut hits: Vec<UiContent> = Vec::new();
        let mut i: usize = 0;
        while i < n
            invariant
                self@.wf(),
                db == self@,
                qv == query@,
                appv == opt_ref_view(app_name),
                winv == opt_ref_view(window_name),
                i <= n,
                n == db.ui_rows.len(),
                uis_view(hits@) == sort_ordered(
                    spec_ui_hits(
                        db,
                        db.ui_rows.subrange(0, i as int),
                        qv,
                        start_time,
                        end_time,
                        appv,
                        winv,
                    ),
                    by_ts_desc_ui(),
                ),
            decreases n - i,
        {
            let ghost pref_hits = spec_ui_hits(
                db,
                db.ui_rows.subrange(0, i as int),
                qv,
                start_time,
                end_time,
                appv,
                winv,
            );
            proof {
                assert(db.ui_rows.subrange(0, i + 1).drop_last() =~= db.ui_rows.subrange(
                    0,
                    i as int,
                ));
                assert(db.ui_rows.subrange(0, i + 1).last() == db.ui_rows[i as int]);
            }
            let hit = text_matches_exec(query, self.ui_rows[i].text_output.as_str())
                && time_in_exec(self.ui_rows[i].timestamp, start_time, end_time) && opt_like_exec(
                app_name,
                self.ui_rows[i].app.as_str(),
            ) && opt_like_exec(window_name, self.ui_rows[i].window.as_str());
            proof {
                assert(hit == ui_hit(db.ui_rows[i as int], qv, start_time, end_time, appv, winv));
            }
            if hit {
                let nf = self.near_frame(self.ui_rows[i].timestamp);
                let res: UiContent = match nf {
                    None => UiContent {
                        id: self.ui_rows[i].id,
                        text_output: self.ui_rows[i].text_output.clone(),
                        timestamp: self.ui_rows[i].timestamp,
                        app: self.ui_rows[i].app.clone(),
                        window: self.ui_rows[i].window.clone(),
                        initial_traversal_at: self.ui_rows[i].initial_traversal_at,
                        file_path: None,
                        offset_index: None,
                        browser_url: None,
                        frame_name: None,
                    },
                    Some(fw) => {
                        let cp = self.chunk_find(self.frames[fw].video_chunk_id);
                        UiContent {
                            id: self.ui_rows[i].id,
                            text_output: self.ui_rows[i].text_output.clone(),
                            timestamp: self.ui_rows[i].timestamp,
                            app: self.ui_rows[i].app.clone(),
                            window: self.ui_rows[i].window.clone(),
                            initial_traversal_at: self.ui_rows[i].initial_traversal_at,
                            file_path: match cp {
                                Some(cw) => Some(self.video_chunks[cw].file_path.clone()),
                                None => None,
                            },
                            offset_index: Some(self.frames[fw].offset_index),
                            browser_url: match &self.frames[fw].browser_url {
                                Some(u) => Some(u.clone()),
                                None => None,
                            },
                            frame_name: Some(self.frames[fw].name.clone()),
                        }
                    },
                };
                proof {
                    assert(res@ == ui_result_of(db, db.ui_rows[i as int]));
                }
                let mut j: usize = 0;
                while j < hits.len() && hits[j].timestamp >= res.timestamp
                    invariant
                        j <= hits@.len(),
                        forall|k: int|
                            0 <= k < j ==> (#[trigger] hits@[k]).timestamp >= res.timestamp,
                    decreases hits@.len() - j,
                {
                    j = j + 1;
                }
                let ghost sorted_pref = uis_view(hits@);
                hits.insert(j, res);
                proof {
                    lemma_insert_ordered_at(sorted_pref, res@, j as int, by_ts_desc_ui());
                    assert(uis_view(hits@) =~= sorted_pref.insert(
                        j as int,
                        res@,
                    ));
                    assert(uis_view(hits@) == insert_ordered(
                        sorted_pref,
                        res@,
                        by_ts_desc_ui(),
                    ));
                    let newpref = spec_ui_hits(
                        db,
                        db.ui_rows.subrange(0, i + 1),
                        qv,
                        start_time,
                        end_time,
                        appv,
                        winv,
                    );
                    assert(newpref == pref_hits.push(res@));
                    assert(newpref.drop_last() =~= pref_hits);
                    assert(newpref.last() == res@);
                    assert(sort_ordered(newpref, by_ts_desc_ui()) == insert_ordered(
                        sort_ordered(pref_hits, by_ts_desc_ui()),
                        res@,
                        by_ts_desc_ui(),
                    ));
                }
            }
            i = i + 1;
        }
        proof {
            assert(db.ui_rows.subrange(0, n as int) =~= db.ui_rows);
        }
        let mut out = hits;
        paginate(&mut out, limit, offset);
        out
    }
}



// ---------------------------------------------------------------------------
// The unified search
// ---------------------------------------------------------------------------

pub open spec fn wrap_ocr(s: Seq<OCRResultV>) -> Seq<SearchResultV> {
    s.map_values(|r: OCRResultV| SearchResultV::OCR(r))
}

pub open spec fn wrap_audio(s: Seq<AudioResultV>) -> Seq<SearchResultV> {
    s.map_values(|r: AudioResultV| SearchResultV::Audio(r))
}

pub open spec fn wrap_ui(s: Seq<UiContentV>) -> Seq<SearchResultV> {
    s.map_values(|r: UiContentV| SearchResultV::UI(r))
}

pub open spec fn by_ts_desc_sr() -> spec_fn(SearchResultV, SearchResultV) -> bool {
    |a: SearchResultV, b: SearchResultV| a.timestamp() >= b.timestamp()
}

/// The per-modality results the unified search merges, each sub-query
/// already paginated as the dispatch rules say: everything for `All`
/// (audio only without app/window/frame filters), half the limit each
/// for pair queries, audio skipped entirely under app/window filters.
pub open spec fn spec_search_merged(
    db: DbView,
    q: Seq<char>,
    ct: ContentType,
    limit: u32,
    offset: u32,
    start: Option<i64>,
    end: Option<i64>,
    app: Option<Seq<char>>,
    win: Option<Seq<char>>,
    minl: Option<usize>,
    maxl: Option<usize>,
    sids: Seq<i64>,
    fname: Option<Seq<char>>,
) -> Seq<SearchResultV> {
    match ct {
        ContentType::All => if app is None && win is None && fname is None {
            wrap_ocr(spec_search_ocr(db, q, limit, offset, start, end, app, win, minl, maxl, fname))
                + wrap_audio(spec_search_audio(db, q, limit, offset, start, end, minl, maxl, sids))
                + wrap_ui(spec_search_ui(db, q, limit, offset, start, end, app, win))
        } else {
            wrap_ocr(spec_search_ocr(db, q, limit, offset, start, end, app, win, minl, maxl, fname))
                + wrap_ui(spec_search_ui(db, q, limit, offset, start, end, app, win))
        },
        ContentType::OCR => wrap_ocr(
            spec_search_ocr(db, q, limit, offset, start, end, app, win, minl, maxl, fname),
        ),
        ContentType::Audio => if app is None && win is None {
            wrap_audio(spec_search_audio(db, q, limit, offset, start, end, minl, maxl, sids))
        } else {
            Seq::empty()
        },
        ContentType::UI => wrap_ui(spec_search_ui(db, q, limit, offset, start, end, app, win)),
        ContentType::AudioAndUi => wrap_audio(
            spec_search_audio(db, q, (limit / 2) as u32, offset, start, end, minl, maxl, sids),
        ) + wrap_ui(spec_search_ui(db, q, (limit / 2) as u32, offset, start, end, app, win)),
        ContentType::OcrAndUi => wrap_ocr(
            spec_search_ocr(
                db,
                q,
                (limit / 2) as u32,
                offset,
                start,
                end,
                app,
                win,
                minl,
                maxl,
                fname,
            ),
        ) + wrap_ui(spec_search_ui(db, q, (limit / 2) as u32, offset, start, end, app, win)),
        ContentType::AudioAndOcr => wrap_audio(
            spec_search_audio(db, q, (limit / 2) as u32, offset, start, end, minl, maxl, sids),
        ) + wrap_ocr(
            spec_search_ocr(
                db,
                q,
                (limit / 2) as u32,
                offset,
                start,
                end,
                app,
                win,
                minl,
                maxl,
                fname,
            ),
        ),
    }
}

/// The unified search: the merged sub-results, re-sorted by timestamp
/// descending, with offset and limit applied once more after the sort.
pub open spec fn spec_search(
    db: DbView,
    q: Seq<char>,
    ct: ContentType,
    limit: u32,
    offset: u32,
    start: Option<i64>,
    end: Option<i64>,
    app: Option<Seq<char>>,
    win: Option<Seq<char>>,
    minl: Option<usize>,
    maxl: Option<usize>,
    sids: Seq<i64>,
    fname: Option<Seq<char>>,
) -> Seq<SearchResultV> {
    page(
        sort_ordered(
            spec_search_merged(db, q, ct, limit, offset, start, end, app, win, minl, maxl, sids, fname),
            by_ts_desc_sr(),
        ),
        limit,
        offset,
    )
}

/// Timestamp-descending order is total and transitive.
pub proof fn lemma_sr_relation()
    ensures
        vstd::relations::strongly_connected(by_ts_desc_sr()),
        vstd::relations::transitive(by_ts_desc_sr()),
{
    assert forall|a: SearchResultV, b: SearchResultV| #[trigger] by_ts_desc_sr()(a, b)
        || #[trigger] by_ts_desc_sr()(b, a) by {}
    assert forall|a: SearchResultV, b: SearchResultV, c: SearchResultV|
        #[trigger] by_ts_desc_sr()(a, b) && #[trigger] by_ts_desc_sr()(b, c) implies by_ts_desc_sr()(
        a,
        c,
    ) by {}
}

fn result_ts(r: &SearchResult) -> (t: i64)
    ensures
        t == r@.timestamp(),
{
    match r {
        SearchResult::OCR(x) => x.timestamp,
        SearchResult::Audio(x) => x.timestamp,
        SearchResult::UI(x) => x.timestamp,
    }
}

/// Sort a merged result vector by timestamp descending, stably.
#[verifier::rlimit(100)]
fn sort_results_desc(v: &mut Vec<SearchResult>)
    ensures
        srs_view(final(v)@) == sort_ordered(
            srs_view(old(v)@),
            by_ts_desc_sr(),
        ),
{
    let ghost orig = srs_view(old(v)@);
    let n = v.len();
    let mut i: usize = 0;
    while i < n
        invariant
            i <= n,
            n == v@.len(),
            orig.len() == n,
            srs_view(v@) == sort_ordered(
                orig.subrange(0, i as int),
                by_ts_desc_sr(),
            ) + orig.subrange(i as int, n as int),
        decreases n - i,
    {
        proof {
            assert(orig.subrange(0, i + 1).drop_last() =~= orig.subrange(0, i as int));
            assert(orig.subrange(0, i + 1).last() == orig[i as int]);
        }
        let ghost sorted_pref = sort_ordered(orig.subrange(0, i as int), by_ts_desc_sr());
        let ghost pre_vec = v@;
        let ghost pre_map = srs_view(v@);
        let x = v.remove(i);
        proof {
            lemma_sr_relation();
            lemma_sort_ordered_ensures(orig.subrange(0, i as int), by_ts_desc_sr());
            assert(sorted_pref.len() == i);
            assert(x@ == pre_map[i as int]);
            assert(x@ == orig[i as int]);
            assert(v@ =~= pre_vec.subrange(0, i as int) + pre_vec.subrange(i + 1, n as int));
            let vm = srs_view(v@);
            assert forall|k: int| 0 <= k < v@.len() implies #[trigger] vm[k] == (sorted_pref
                + orig.subrange(i + 1, n as int))[k] by {
                if k < i {
                    assert(v@[k] == pre_vec[k]);
                    assert(pre_map[k] == sorted_pref[k]);
                } else {
                    assert(v@[k] == pre_vec[k + 1]);
                    assert(pre_map[k + 1] == orig.subrange(i as int, n as int)[k + 1 - i]);
                }
            }
            assert(srs_view(v@) =~= sorted_pref + orig.subrange(
                i + 1,
                n as int,
            ));
        }
        let xt = result_ts(&x);
        let mut j: usize = 0;
        while j < i && result_ts(&v[j]) >= xt
            invariant
                j <= i,
                i < n,
                n == v@.len() + 1,
                xt == x@.timestamp(),
                srs_view(v@) == sorted_pref + orig.subrange(
                    i + 1,
                    n as int,
                ),
                sorted_pref.len() == i,
                forall|k: int|
                    0 <= k < j ==> (#[trigger] sorted_pref[k]).timestamp() >= x@.timestamp(),
            decreases i - j,
        {
            proof {
                assert(srs_view(v@)[j as int] == sorted_pref[j as int]);
            }
            j = j + 1;
        }
        proof {
            if j < i {
                assert(srs_view(v@)[j as int] == sorted_pref[j as int]);
            }
        }
        let ghost mid_vec = v@;
        let ghost mid_map = srs_view(v@);
        v.insert(j, x);
        i = i + 1;
        proof {
            lemma_insert_ordered_at(sorted_pref, x@, j as int, by_ts_desc_sr());
            assert(v@ =~= mid_vec.subrange(0, j as int).push(x) + mid_vec.subrange(
                j as int,
                mid_vec.len() as int,
            ));
            let vm = srs_view(v@);
            assert forall|k: int| 0 <= k < v@.len() implies #[trigger] vm[k] == (sorted_pref.insert(
                j as int,
                x@,
            ) + orig.subrange(i as int, n as int))[k] by {
                if k < j {
                    assert(v@[k] == mid_vec[k]);
                    assert(mid_map[k] == sorted_pref[k]);
                } else if k == j {
                    assert(v@[k] == x);
                } else {
                    assert(v@[k] == mid_vec[k - 1]);
                    assert(mid_map[k - 1] == (sorted_pref + orig.subrange(i - 1, n as int).drop_first())[k - 1]);
                }
            }
            assert(srs_view(v@) =~= sorted_pref.insert(j as int, x@)
                + orig.subrange(i as int, n as int));
            let newpref = orig.subrange(0, i as int);
            assert(sort_ordered(newpref, by_ts_desc_sr()) == insert_ordered(
                sorted_pref,
                x@,
                by_ts_desc_sr(),
            ));
            assert(srs_view(v@) =~= sort_ordered(
                newpref,
                by_ts_desc_sr(),
            ) + orig.subrange(i as int, n as int));
        }
    }
    proof {
        assert(orig.subrange(0, n as int) =~= orig);
        assert(orig.subrange(n as int, n as int) =~= Seq::<SearchResultV>::empty());
        assert(srs_view(v@) =~= sort_ordered(orig, by_ts_desc_sr()));
    }
}

impl DatabaseManager {
    /// The unified multi-modality search.
    #[verifier::rlimit(100)]
    pub fn search(
        &self,
        query: &str,
        content_type: ContentType,
        limit: u32,
        offset: u32,
        start_time: Option<i64>,
        end_time: Option<i64>,
        app_name: Option<&str>,
        window_name: Option<&str>,
        min_length: Option<usize>,
        max_length: Option<usize>,
        speaker_ids: &Vec<i64>,
        frame_name: Option<&str>,
    ) -> (r: Vec<SearchResult>)
        requires
            self@.wf(),
        ensures
            srs_view(r@) == spec_search(
                self@,
                query@,
                content_type,
                limit,
                offset,
                start_time,
                end_time,
                opt_ref_view(app_name),
                opt_ref_view(window_name),
                min_length,
                max_length,
                speaker_ids@,
                opt_ref_view(frame_name),
            ),
    {
        broadcast use Seq::lemma_push_map_commute;

        let ghost db = self@;
        let mut merged: Vec<SearchResult> = Vec::new();
        match content_type {
            ContentType::All => {
                let ocr = self.search_ocr(
                    query,
                    limit,
                    offset,
                    start_time,
                    end_time,
                    app_name,
                    window_name,
                    min_length,
                    max_length,
                    frame_name,
                );
                self.push_ocr(&mut merged, ocr);
                if app_name.is_none() && window_name.is_none() && frame_name.is_none() {
                    let audio = self.search_audio(
                        query,
                        limit,
                        offset,
                        start_time,
                        end_time,
                        min_length,
                        max_length,
                        speaker_ids,
                    );
                    self.push_audio(&mut merged, audio);
                }
                let ui = self.search_ui_monitoring(
                    query,
                    app_name,
                    window_name,
                    start_time,
                    end_time,
                    limit,
                    offset,
                );
                self.push_ui(&mut merged, ui);
            },
            ContentType::OCR => {
                let ocr = self.search_ocr(
                    query,
                    limit,
                    offset,
                    start_time,
                    end_time,
                    app_name,
                    window_name,
                    min_length,
                    max_length,
                    frame_name,
                );
                self.push_ocr(&mut merged, ocr);
            },
            ContentType::Audio => {
                if app_name.is_none() && window_name.is_none() {
                    let audio = self.search_audio(
                        query,
                        limit,
                        offset,
                        start_time,
                        end_time,
                        min_length,
                        max_length,
                        speaker_ids,
                    );
                    self.push_audio(&mut merged, audio);
                }
            },
            ContentType::UI => {
                let ui = self.search_ui_monitoring(
                    query,
                    app_name,
                    window_name,
                    start_time,
                    end_time,
                    limit,
                    offset,
                );
                self.push_ui(&mut merged, ui);
            },
            ContentType::AudioAndUi => {
                let audio = self.search_audio(
                    query,
                    limit / 2,
                    offset,
                    start_time,
                    end_time,
                    min_length,
                    max_length,
                    speaker_ids,
                );
                self.push_audio(&mut merged, audio);
                let ui = self.search_ui_monitoring(
                    query,
                    app_name,
                    window_name,
                    start_time,
                    end_time,
                    limit / 2,
                    offset,
                );
                self.push_ui(&mut merged, ui);
            },
            ContentType::OcrAndUi => {
                let ocr = self.search_ocr(
                    query,
                    limit / 2,
                    offset,
                    start_time,
                    end_time,
                    app_name,
                    window_name,
                    min_length,
                    max_length,
                    frame_name,
                );
                self.push_ocr(&mut merged, ocr);
                let ui = self.search_ui_monitoring(
                    query,
                    app_name,
                    window_name,
                    start_time,
                    end_time,
                    limit / 2,
                    offset,
                );
                self.push_ui(&mut merged, ui);
            },
            ContentType::AudioAndOcr => {
                let audio = self.search_audio(
                    query,
                    limit / 2,
                    offset,
                    start_time,
                    end_time,
                    min_length,
                    max_length,
                    speaker_ids,
                );
                self.push_audio(&mut merged, audio);
                let ocr = self.search_ocr(
                    query,
                    limit / 2,
                    offset,
                    start_time,
                    end_time,
                    app_name,
                    window_name,
                    min_length,
                    max_length,
                    frame_name,
                );
                self.push_ocr(&mut merged, ocr);
            },
        }
        proof {
            assert(srs_view(merged@) =~= spec_search_merged(
                db,
                query@,
                content_type,
                limit,
                offset,
                start_time,
                end_time,
                opt_ref_view(app_name),
                opt_ref_view(window_name),
                min_length,
                max_length,
                speaker_ids@,
                opt_ref_view(frame_name),
            ));
        }
        sort_results_desc(&mut merged);
        paginate(&mut merged, limit, offset);
        merged
    }

    /// Append OCR results, wrapped.
    fn push_ocr(&self, out: &mut Vec<SearchResult>, items: Vec<OCRResult>)
        ensures
            srs_view(final(out)@) == srs_view(old(out)@) + wrap_ocr(ocrs_view(items@)),
    {
        broadcast use Seq::lemma_push_map_commute;

        let ghost base = srs_view(old(out)@);
        let ghost itemsv = ocrs_view(items@);
        let mut src = items;
        let n = src.len();
        let mut i: usize = 0;
        while i < n
            invariant
                i <= n,
                n == src@.len() + i,
                itemsv.len() == n,
                forall|j: int| 0 <= j < src@.len() ==> (#[trigger] src@[j])@ == itemsv[i + j],
                srs_view(out@) == base + wrap_ocr(
                    itemsv.subrange(0, i as int),
                ),
            decreases n - i,
        {
            let ghost prev = src@;
            let ghost prev_out = out@;
            let ghost prev_out_map = srs_view(out@);
            let x = src.remove(0);
            let ghost xv = x@;
            out.push(SearchResult::OCR(x));
            i = i + 1;
            proof {
                assert(forall|j: int| 0 <= j < src@.len() ==> #[trigger] src@[j] == prev[j + 1]);
                assert(xv == itemsv[i - 1]);
                assert(out@ == prev_out.push(out@.last()));
                assert(out@.last()@ == SearchResultV::OCR(xv));
                assert(prev_out_map == base + wrap_ocr(itemsv.subrange(0, i - 1)));
                assert(prev_out_map.len() == prev_out.len());
                assert(wrap_ocr(itemsv.subrange(0, i - 1)).len() == i - 1);
                assert(prev_out.len() == base.len() + (i - 1));
                assert(out@.len() == base.len() + i);
                let om = srs_view(out@);
                assert forall|k: int| 0 <= k < out@.len() implies #[trigger] om[k] == (base
                    + wrap_ocr(itemsv.subrange(0, i as int)))[k] by {
                    if k < out@.len() - 1 {
                        assert(out@[k] == prev_out[k]);
                        assert(prev_out_map[k] == (base + wrap_ocr(
                            itemsv.subrange(0, i - 1),
                        ))[k]);
                        if k >= base.len() {
                            assert(wrap_ocr(itemsv.subrange(0, i - 1))[k - base.len()]
                                == SearchResultV::OCR(itemsv.subrange(0, i - 1)[k - base.len()]));
                            assert(wrap_ocr(itemsv.subrange(0, i as int))[k - base.len()]
                                == SearchResultV::OCR(itemsv.subrange(0, i as int)[k - base.len()]));
                        }
                    } else {
                        assert(om[k] == SearchResultV::OCR(xv));
                        assert(wrap_ocr(itemsv.subrange(0, i as int))[i - 1]
                            == SearchResultV::OCR(itemsv.subrange(0, i as int)[i - 1]));
                        assert(itemsv.subrange(0, i as int)[i - 1] == itemsv[i - 1]);
                    }
                }
                assert(srs_view(out@) =~= base + wrap_ocr(
                    itemsv.subrange(0, i as int),
                ));
            }
        }
        proof {
            assert(itemsv.subrange(0, n as int) =~= itemsv);
        }
    }

    /// Append audio results, wrapped.
    fn push_audio(&self, out: &mut Vec<SearchResult>, items: Vec<AudioResult>)
        ensures
            srs_view(final(out)@) == srs_view(old(out)@) + wrap_audio(audios_view(items@)),
    {
        broadcast use Seq::lemma_push_map_commute;

        let ghost base = srs_view(old(out)@);
        let ghost itemsv = audios_view(items@);
        let mut src = items;
        let n = src.len();
        let mut i: usize = 0;
        while i < n
            invariant
                i <= n,
                n == src@.len() + i,
                itemsv.len() == n,
                forall|j: int| 0 <= j < src@.len() ==> (#[trigger] src@[j])@ == itemsv[i + j],
                srs_view(out@) == base + wrap_audio(
                    itemsv.subrange(0, i as int),
                ),
            decreases n - i,
        {
            let ghost prev = src@;
            let ghost prev_out = out@;
            let ghost prev_out_map = srs_view(out@);
            let x = src.remove(0);
            let ghost xv = x@;
            out.push(SearchResult::Audio(x));
            i = i + 1;
            proof {
                assert(forall|j: int| 0 <= j < src@.len() ==> #[trigger] src@[j] == prev[j + 1]);
                assert(xv == itemsv[i - 1]);
                assert(out@ == prev_out.push(out@.last()));
                assert(out@.last()@ == SearchResultV::Audio(xv));
                assert(prev_out_map == base + wrap_audio(itemsv.subrange(0, i - 1)));
                assert(prev_out_map.len() == prev_out.len());
                assert(wrap_audio(itemsv.subrange(0, i - 1)).len() == i - 1);
                assert(prev_out.len() == base.len() + (i - 1));
                assert(out@.len() == base.len() + i);
                let om = srs_view(out@);
                assert forall|k: int| 0 <= k < out@.len() implies #[trigger] om[k] == (base
                    + wrap_audio(itemsv.subrange(0, i as int)))[k] by {
                    if k < out@.len() - 1 {
                        assert(out@[k] == prev_out[k]);
                        assert(prev_out_map[k] == (base + wrap_audio(
                            itemsv.subrange(0, i - 1),
                        ))[k]);
                        if k >= base.len() {
                            assert(wrap_audio(itemsv.subrange(0, i - 1))[k - base.len()]
                                == SearchResultV::Audio(itemsv.subrange(0, i - 1)[k - base.len()]));
                            assert(wrap_audio(itemsv.subrange(0, i as int))[k - base.len()]
                                == SearchResultV::Audio(itemsv.subrange(0, i as int)[k - base.len()]));
                        }
                    } else {
                        assert(om[k] == SearchResultV::Audio(xv));
                        assert(wrap_audio(itemsv.subrange(0, i as int))[i - 1]
                            == SearchResultV::Audio(itemsv.subrange(0, i as int)[i - 1]));
                        assert(itemsv.subrange(0, i as int)[i - 1] == itemsv[i - 1]);
                    }
                }
                assert(srs_view(out@) =~= base + wrap_audio(
                    itemsv.subrange(0, i as int),
                ));
            }
        }
        proof {
            assert(itemsv.subrange(0, n as int) =~= itemsv);
        }
    }

    /// Append UI results, wrapped.
    fn push_ui(&self, out: &mut Vec<SearchResult>, items: Vec<UiContent>)
        ensures
            srs_view(final(out)@) == srs_view(old(out)@) + wrap_ui(uis_view(items@)),
    {
        broadcast use Seq::lemma_push_map_commute;

        let ghost base = srs_view(old(out)@);
        let ghost itemsv = uis_view(items@);
        let mut src = items;
        let n = src.len();
        let mut i: usize = 0;
        while i < n
            invariant
                i <= n,
                n == src@.len() + i,
                itemsv.len() == n,
                forall|j: int| 0 <= j < src@.len() ==> (#[trigger] src@[j])@ == itemsv[i + j],
                srs_view(out@) == base + wrap_ui(
                    itemsv.subrange(0, i as int),
                ),
            decreases n - i,
        {
            let ghost prev = src@;
            let ghost prev_out = out@;
            let ghost prev_out_map = srs_view(out@);
            let x = src.remove(0);
            let ghost xv = x@;
            out.push(SearchResult::UI(x));
            i = i + 1;
            proof {
                assert(forall|j: int| 0 <= j < src@.len() ==> #[trigger] src@[j] == prev[j + 1]);
                assert(xv == itemsv[i - 1]);
                assert(out@ == prev_out.push(out@.last()));
                assert(out@.last()@ == SearchResultV::UI(xv));
                assert(prev_out_map == base + wrap_ui(itemsv.subrange(0, i - 1)));
                assert(prev_out_map.len() == prev_out.len());
                assert(wrap_ui(itemsv.subrange(0, i - 1)).len() == i - 1);
                assert(prev_out.len() == base.len() + (i - 1));
                assert(out@.len() == base.len() + i);
                let om = srs_view(out@);
                assert forall|k: int| 0 <= k < out@.len() implies #[trigger] om[k] == (base
                    + wrap_ui(itemsv.subrange(0, i as int)))[k] by {
                    if k < out@.len() - 1 {
                        assert(out@[k] == prev_out[k]);
                        assert(prev_out_map[k] == (base + wrap_ui(
                            itemsv.subrange(0, i - 1),
                        ))[k]);
                        if k >= base.len() {
                            assert(wrap_ui(itemsv.subrange(0, i - 1))[k - base.len()]
                                == SearchResultV::UI(itemsv.subrange(0, i - 1)[k - base.len()]));
                            assert(wrap_ui(itemsv.subrange(0, i as int))[k - base.len()]
                                == SearchResultV::UI(itemsv.subrange(0, i as int)[k - base.len()]));
                        }
                    } else {
                        assert(om[k] == SearchResultV::UI(xv));
                        assert(wrap_ui(itemsv.subrange(0, i as int))[i - 1]
                            == SearchResultV::UI(itemsv.subrange(0, i as int)[i - 1]));
                        assert(itemsv.subrange(0, i as int)[i - 1] == itemsv[i - 1]);
                    }
                }
                assert(srs_view(out@) =~= base + wrap_ui(
                    itemsv.subrange(0, i as int),
                ));
            }
        }
        proof {
            assert(itemsv.subrange(0, n as int) =~= itemsv);
        }
    }
}



// ---------------------------------------------------------------------------
// Counting
// ---------------------------------------------------------------------------

/// Transcription hits with nonempty text, as the aggregate count
/// requires.
pub open spec fn count_audio_hits_ne(
    db: DbView,
    rows: Seq<TranscriptionRowV>,
    q: Seq<char>,
    start: Option<i64>,
    end: Option<i64>,
    minl: Option<usize>,
    maxl: Option<usize>,
    sids: Seq<i64>,
) -> int
    decreases rows.len(),
{
    if rows.len() == 0 {
        0
    } else {
        count_audio_hits_ne(db, rows.drop_last(), q, start, end, minl, maxl, sids) + if audio_hit(
            db,
            rows.last(),
            q,
            start,
            end,
            minl,
            maxl,
            sids,
        ) && rows.last().transcription.len() > 0 {
            1int
        } else {
            0int
        }
    }
}

/// Snapshot hits with nonempty text, as the aggregate count requires.
pub open spec fn count_ui_hits_ne(
    db: DbView,
    rows: Seq<UiRowV>,
    q: Seq<char>,
    start: Option<i64>,
    end: Option<i64>,
    app: Option<Seq<char>>,
    win: Option<Seq<char>>,
) -> int
    decreases rows.len(),
{
    if rows.len() == 0 {
        0
    } else {
        count_ui_hits_ne(db, rows.drop_last(), q, start, end, app, win) + if ui_hit(
            rows.last(),
            q,
            start,
            end,
            app,
            win,
        ) && rows.last().text_output.len() > 0 {
            1int
        } else {
            0int
        }
    }
}

/// How many rows a search over the given predicates would see before
/// pagination: the per-modality hit count for the three singleton
/// types, their sum (audio and UI restricted to nonempty text) for
/// `All`, and zero for the search-only combinations.
pub open spec fn spec_count(
    db: DbView,
    q: Seq<char>,
    ct: ContentType,
    start: Option<i64>,
    end: Option<i64>,
    app: Option<Seq<char>>,
    win: Option<Seq<char>>,
    minl: Option<usize>,
    maxl: Option<usize>,
    sids: Seq<i64>,
    fname: Option<Seq<char>>,
) -> int {
    match ct {
        ContentType::OCR => spec_ocr_hits(db, db.ocr, q, start, end, app, win, minl, maxl, fname).len() as int,
        ContentType::Audio => spec_audio_hits(
            db,
            db.transcriptions,
            q,
            start,
            end,
            minl,
            maxl,
            sids,
        ).len() as int,
        ContentType::UI => spec_ui_hits(db, db.ui_rows, q, start, end, app, win).len() as int,
        ContentType::All => spec_ocr_hits(db, db.ocr, q, start, end, app, win, minl, maxl, fname).len()
            + count_audio_hits_ne(db, db.transcriptions, q, start, end, minl, maxl, sids)
            + count_ui_hits_ne(db, db.ui_rows, q, start, end, app, win),
        _ => 0,
    }
}

impl DatabaseManager {
    /// Whether the OCR row at `i` passes the filters.
    fn ocr_hit_at(
        &self,
        i: usize,
        query: &str,
        start_time: Option<i64>,
        end_time: Option<i64>,
        app_name: Option<&str>,
        window_name: Option<&str>,
        min_length: Option<usize>,
        max_length: Option<usize>,
        frame_name: Option<&str>,
    ) -> (r: bool)
        requires
            self@.wf(),
            i < self@.ocr.len(),
        ensures
            r == ocr_hit(
                self@,
                self@.ocr[i as int],
                query@,
                start_time,
                end_time,
                opt_ref_view(app_name),
                opt_ref_view(window_name),
                min_length,
                max_length,
                opt_ref_view(frame_name),
            ),
    {
        let fp = self.frame_find(self.ocr[i].frame_id);
        match fp {
            None => false,
            Some(fw) => text_matches_exec(query, self.ocr[i].text.as_str()) && time_in_exec(
                self.frames[fw].timestamp,
                start_time,
                end_time,
            ) && opt_like_exec(app_name, self.ocr[i].app_name.as_str()) && opt_like_exec(
                window_name,
                self.ocr[i].window_name.as_str(),
            ) && len_in_exec(self.ocr[i].text_length, min_length, max_length) && opt_like_exec(
                frame_name,
                self.frames[fw].name.as_str(),
            ),
        }
    }

    /// Whether the transcription at `i` passes the filters.
    fn audio_hit_at(
        &self,
        i: usize,
        query: &str,
        start_time: Option<i64>,
        end_time: Option<i64>,
        min_length: Option<usize>,
        max_length: Option<usize>,
        speaker_ids: &Vec<i64>,
    ) -> (r: bool)
        requires
            self@.wf(),
            i < self@.transcriptions.len(),
        ensures
            r == audio_hit(
                self@,
                self@.transcriptions[i as int],
                query@,
                start_time,
                end_time,
                min_length,
                max_length,
                speaker_ids@,
            ),
    {
        let cp = self.audio_chunk_find(self.transcriptions[i].audio_chunk_id);
        let speaker_ok: bool = match self.transcriptions[i].speaker_id {
            None => true,
            Some(sid) => {
                let sp = self.speaker_find(sid);
                match sp {
                    None => true,
                    Some(w) => !self.speakers[w].hallucination,
                }
            },
        };
        let whitelist_ok: bool = if speaker_ids.len() == 0 {
            true
        } else {
            match self.transcriptions[i].speaker_id {
                Some(sid) => contains_i64(speaker_ids, sid),
                None => false,
            }
        };
        cp.is_some() && text_matches_exec(query, self.transcriptions[i].transcription.as_str())
            && time_in_exec(self.transcriptions[i].timestamp, start_time, end_time)
            && len_in_exec(self.transcriptions[i].text_length, min_length, max_length)
            && speaker_ok && whitelist_ok
    }

    /// Whether the snapshot at `i` passes the filters.
    fn ui_hit_at(
        &self,
        i: usize,
        query: &str,
        start_time: Option<i64>,
        end_time: Option<i64>,
        app_name: Option<&str>,
        window_name: Option<&str>,
    ) -> (r: bool)
        requires
            i < self@.ui_rows.len(),
        ensures
            r == ui_hit(
                self@.ui_rows[i as int],
                query@,
                start_time,
                end_time,
                opt_ref_view(app_name),
                opt_ref_view(window_name),
            ),
    {
        text_matches_exec(query, self.ui_rows[i].text_output.as_str()) && time_in_exec(
            self.ui_rows[i].timestamp,
            start_time,
            end_time,
        ) && opt_like_exec(app_name, self.ui_rows[i].app.as_str()) && opt_like_exec(
            window_name,
            self.ui_rows[i].window.as_str(),
        )
    }

    /// Count the rows a search over the same predicates would see,
    /// before pagination. A count beyond the machine's range saturates.
    #[verifier::rlimit(100)]
    pub fn count_search_results(
        &self,
        query: &str,
        content_type: ContentType,
        start_time: Option<i64>,
        end_time: Option<i64>,
        app_name: Option<&str>,
        window_name: Option<&str>,
        min_length: Option<usize>,
        max_length: Option<usize>,
        speaker_ids: &Vec<i64>,
        frame_name: Option<&str>,
    ) -> (r: usize)
        requires
            self@.wf(),
        ensures
            spec_count(
                self@,
                query@,
                content_type,
                start_time,
                end_time,
                opt_ref_view(app_name),
                opt_ref_view(window_name),
                min_length,
                max_length,
                speaker_ids@,
                opt_ref_view(frame_name),
            ) <= usize::MAX ==> r as int == spec_count(
                self@,
                query@,
                content_type,
                start_time,
                end_time,
                opt_ref_view(app_name),
                opt_ref_view(window_name),
                min_length,
                max_length,
                speaker_ids@,
                opt_ref_view(frame_name),
            ),
            r as int <= spec_count(
                self@,
                query@,
                content_type,
                start_time,
                end_time,
                opt_ref_view(app_name),
                opt_ref_view(window_name),
                min_length,
                max_length,
                speaker_ids@,
                opt_ref_view(frame_name),
            ) || (r == 0 && spec_count(
                self@,
                query@,
                content_type,
                start_time,
                end_time,
                opt_ref_view(app_name),
                opt_ref_view(window_name),
                min_length,
                max_length,
                speaker_ids@,
                opt_ref_view(frame_name),
            ) == 0),
    {
        let ghost db = self@;
        match content_type {
            ContentType::OCR => self.count_ocr_rows(
                query,
                start_time,
                end_time,
                app_name,
                window_name,
                min_length,
                max_length,
                frame_name,
            ),
            ContentType::Audio => self.count_audio_rows(
                query,
                start_time,
                end_time,
                min_length,
                max_length,
                speaker_ids,
                false,
            ),
            ContentType::UI => self.count_ui_rows(
                query,
                start_time,
                end_time,
                app_name,
                window_name,
                false,
            ),
            ContentType::All => {
                let a = self.count_ocr_rows(
                    query,
                    start_time,
                    end_time,
                    app_name,
                    window_name,
                    min_length,
                    max_length,
                    frame_name,
                );
                let b = self.count_audio_rows(
                    query,
                    start_time,
                    end_time,
                    min_length,
                    max_length,
                    speaker_ids,
                    true,
                );
                let c = self.count_ui_rows(
                    query,
                    start_time,
                    end_time,
                    app_name,
                    window_name,
                    true,
                );
                proof {
                    lemma_ocr_hits_len(
                        db,
                        db.ocr,
                        query@,
                        start_time,
                        end_time,
                        opt_ref_view(app_name),
                        opt_ref_view(window_name),
                        min_length,
                        max_length,
                        opt_ref_view(frame_name),
                    );
                    lemma_count_audio_ne_bound(
                        db,
                        db.transcriptions,
                        query@,
                        start_time,
                        end_time,
                        min_length,
                        max_length,
                        speaker_ids@,
                    );
                    lemma_count_ui_ne_bound(
                        db,
                        db.ui_rows,
                        query@,
                        start_time,
                        end_time,
                        opt_ref_view(app_name),
                        opt_ref_view(window_name),
                    );
                }
                if a <= usize::MAX - b && a + b <= usize::MAX - c {
                    a + b + c
                } else {
                    usize::MAX
                }
            },
            _ => 0,
        }
    }

    fn count_ocr_rows(
        &self,
        query: &str,
        start_time: Option<i64>,
        end_time: Option<i64>,
        app_name: Option<&str>,
        window_name: Option<&str>,
        min_length: Option<usize>,
        max_length: Option<usize>,
        frame_name: Option<&str>,
    ) -> (r: usize)
        requires
            self@.wf(),
        ensures
            r as int == spec_ocr_hits(
                self@,
                self@.ocr,
                query@,
                start_time,
                end_time,
                opt_ref_view(app_name),
                opt_ref_view(window_name),
                min_length,
                max_length,
                opt_ref_view(frame_name),
            ).len(),
    {
        let ghost db = self@;
        let n = self.ocr.len();
        let mut count: usize = 0;
        let mut i: usize = 0;
        while i < n
            invariant
                self@.wf(),
                db == self@,
                i <= n,
                n == db.ocr.len(),
                count <= i,
                count as int == spec_ocr_hits(
                    db,
                    db.ocr.subrange(0, i as int),
                    query@,
                    start_time,
                    end_time,
                    opt_ref_view(app_name),
                    opt_ref_view(window_name),
                    min_length,
                    max_length,
                    opt_ref_view(frame_name),
                ).len(),
            decreases n - i,
        {
            proof {
                assert(db.ocr.subrange(0, i + 1).drop_last() =~= db.ocr.subrange(0, i as int));
                assert(db.ocr.subrange(0, i + 1).last() == db.ocr[i as int]);
            }
            if self.ocr_hit_at(
                i,
                query,
                start_time,
                end_time,
                app_name,
                window_name,
                min_length,
                max_length,
                frame_name,
            ) {
                count = count + 1;
            }
            i = i + 1;
        }
        proof {
            assert(db.ocr.subrange(0, n as int) =~= db.ocr);
        }
        count
    }

    fn count_audio_rows(
        &self,
        query: &str,
        start_time: Option<i64>,
        end_time: Option<i64>,
        min_length: Option<usize>,
        max_length: Option<usize>,
        speaker_ids: &Vec<i64>,
        nonempty: bool,
    ) -> (r: usize)
        requires
            self@.wf(),
        ensures
            !nonempty ==> r as int == spec_audio_hits(
                self@,
                self@.transcriptions,
                query@,
                start_time,
                end_time,
                min_length,
                max_length,
                speaker_ids@,
            ).len(),
            nonempty ==> r as int == count_audio_hits_ne(
                self@,
                self@.transcriptions,
                query@,
                start_time,
                end_time,
                min_length,
                max_length,
                speaker_ids@,
            ),
    {
        let ghost db = self@;
        let n = self.transcriptions.len();
        let mut count: usize = 0;
        let mut i: usize = 0;
        while i < n
            invariant
                self@.wf(),
                db == self@,
                i <= n,
                n == db.transcriptions.len(),
                count <= i,
                !nonempty ==> count as int == spec_audio_hits(
                    db,
                    db.transcriptions.subrange(0, i as int),
                    query@,
                    start_time,
                    end_time,
                    min_length,
                    max_length,
                    speaker_ids@,
                ).len(),
                nonempty ==> count as int == count_audio_hits_ne(
                    db,
                    db.transcriptions.subrange(0, i as int),
                    query@,
                    start_time,
                    end_time,
                    min_length,
                    max_length,
                    speaker_ids@,
                ),
            decreases n - i,
        {
            proof {
                assert(db.transcriptions.subrange(0, i + 1).drop_last() =~= db
                    .transcriptions.subrange(0, i as int));
                assert(db.transcriptions.subrange(0, i + 1).last() == db.transcriptions[i as int]);
            }
            let hit = self.audio_hit_at(
                i,
                query,
                start_time,
                end_time,
                min_length,
                max_length,
                speaker_ids,
            );
            let counted = if nonempty {
                hit && !self.transcriptions[i].transcription.as_str().is_empty()
            } else {
                hit
            };
            if counted {
                count = count + 1;
            }
            i = i + 1;
        }
        proof {
            assert(db.transcriptions.subrange(0, n as int) =~= db.transcriptions);
        }
        count
    }

    fn count_ui_rows(
        &self,
        query: &str,
        start_time: Option<i64>,
        end_time: Option<i64>,
        app_name: Option<&str>,
        window_name: Option<&str>,
        nonempty: bool,
    ) -> (r: usize)
        requires
            self@.wf(),
        ensures
            !nonempty ==> r as int == spec_ui_hits(
                self@,
                self@.ui_rows,
                query@,
                start_time,
                end_time,
                opt_ref_view(app_name),
                opt_ref_view(window_name),
            ).len(),
            nonempty ==> r as int == count_ui_hits_ne(
                self@,
                self@.ui_rows,
                query@,
                start_time,
                end_time,
                opt_ref_view(app_name),
                opt_ref_view(window_name),
            ),
    {
        let ghost db = self@;
        let n = self.ui_rows.len();
        let mut count: usize = 0;
        let mut i: usize = 0;
        while i < n
            invariant
                self@.wf(),
                db == self@,
                i <= n,
                n == db.ui_rows.len(),
                count <= i,
                !nonempty ==> count as int == spec_ui_hits(
                    db,
                    db.ui_rows.subrange(0, i as int),
                    query@,
                    start_time,
                    end_time,
                    opt_ref_view(app_name),
                    opt_ref_view(window_name),
                ).len(),
                nonempty ==> count as int == count_ui_hits_ne(
                    db,
                    db.ui_rows.subrange(0, i as int),
                    query@,
                    start_time,
                    end_time,
                    opt_ref_view(app_name),
                    opt_ref_view(window_name),
                ),
            decreases n - i,
        {
            proof {
                assert(db.ui_rows.subrange(0, i + 1).drop_last() =~= db.ui_rows.subrange(
                    0,
                    i as int,
                ));
                assert(db.ui_rows.subrange(0, i + 1).last() == db.ui_rows[i as int]);
            }
            let hit = self.ui_hit_at(i, query, start_time, end_time, app_name, window_name);
            let counted = if nonempty {
                hit && !self.ui_rows[i].text_output.as_str().is_empty()
            } else {
                hit
            };
            if counted {
                count = count + 1;
            }
            i = i + 1;
        }
        proof {
            assert(db.ui_rows.subrange(0, n as int) =~= db.ui_rows);
        }
        count
    }
}

/// A hit list never outgrows its table.
pub proof fn lemma_ocr_hits_len(
    db: DbView,
    rows: Seq<OcrRowV>,
    q: Seq<char>,
    start: Option<i64>,
    end: Option<i64>,
    app: Option<Seq<char>>,
    win: Option<Seq<char>>,
    minl: Option<usize>,
    maxl: Option<usize>,
    fname: Option<Seq<char>>,
)
    ensures
        spec_ocr_hits(db, rows, q, start, end, app, win, minl, maxl, fname).len() <= rows.len(),
    decreases rows.len(),
{
    if rows.len() > 0 {
        lemma_ocr_hits_len(db, rows.drop_last(), q, start, end, app, win, minl, maxl, fname);
    }
}

pub proof fn lemma_audio_hits_len(
    db: DbView,
    rows: Seq<TranscriptionRowV>,
    q: Seq<char>,
    start: Option<i64>,
    end: Option<i64>,
    minl: Option<usize>,
    maxl: Option<usize>,
    sids: Seq<i64>,
)
    ensures
        spec_audio_hits(db, rows, q, start, end, minl, maxl, sids).len() <= rows.len(),
    decreases rows.len(),
{
    if rows.len() > 0 {
        lemma_audio_hits_len(db, rows.drop_last(), q, start, end, minl, maxl, sids);
    }
}

pub proof fn lemma_ui_hits_len(
    db: DbView,
    rows: Seq<UiRowV>,
    q: Seq<char>,
    start: Option<i64>,
    end: Option<i64>,
    app: Option<Seq<char>>,
    win: Option<Seq<char>>,
)
    ensures
        spec_ui_hits(db, rows, q, start, end, app, win).len() <= rows.len(),
    decreases rows.len(),
{
    if rows.len() > 0 {
        lemma_ui_hits_len(db, rows.drop_last(), q, start, end, app, win);
    }
}

proof fn lemma_count_audio_ne_bound(
    db: DbView,
    rows: Seq<TranscriptionRowV>,
    q: Seq<char>,
    start: Option<i64>,
    end: Option<i64>,
    minl: Option<usize>,
    maxl: Option<usize>,
    sids: Seq<i64>,
)
    ensures
        0 <= count_audio_hits_ne(db, rows, q, start, end, minl, maxl, sids) <= rows.len(),
    decreases rows.len(),
{
    if rows.len() > 0 {
        lemma_count_audio_ne_bound(db, rows.drop_last(), q, start, end, minl, maxl, sids);
    }
}

proof fn lemma_count_ui_ne_bound(
    db: DbView,
    rows: Seq<UiRowV>,
    q: Seq<char>,
    start: Option<i64>,
    end: Option<i64>,
    app: Option<Seq<char>>,
    win: Option<Seq<char>>,
)
    ensures
        0 <= count_ui_hits_ne(db, rows, q, start, end, app, win) <= rows.len(),
    decreases rows.len(),
{
    if rows.len() > 0 {
        lemma_count_ui_ne_bound(db, rows.drop_last(), q, start, end, app, win);
    }
}

/// Timestamp-descending order is total and transitive, for each result
/// kind.
pub proof fn lemma_modality_relations()
    ensures
        vstd::relations::strongly_connected(by_ts_desc_ocr()),
        vstd::relations::transitive(by_ts_desc_ocr()),
        vstd::relations::strongly_connected(by_ts_desc_audio()),
        vstd::relations::transitive(by_ts_desc_audio()),
        vstd::relations::strongly_connected(by_ts_desc_ui()),
        vstd::relations::transitive(by_ts_desc_ui()),
{
    assert forall|a: OCRResultV, b: OCRResultV| #[trigger] by_ts_desc_ocr()(a, b)
        || #[trigger] by_ts_desc_ocr()(b, a) by {}
    assert forall|a: OCRResultV, b: OCRResultV, c: OCRResultV|
        #[trigger] by_ts_desc_ocr()(a, b) && #[trigger] by_ts_desc_ocr()(b, c)
        implies by_ts_desc_ocr()(a, c) by {}
    assert forall|a: AudioResultV, b: AudioResultV| #[trigger] by_ts_desc_audio()(a, b)
        || #[trigger] by_ts_desc_audio()(b, a) by {}
    assert forall|a: AudioResultV, b: AudioResultV, c: AudioResultV|
        #[trigger] by_ts_desc_audio()(a, b) && #[trigger] by_ts_desc_audio()(b, c)
        implies by_ts_desc_audio()(a, c) by {}
    assert forall|a: UiContentV, b: UiContentV| #[trigger] by_ts_desc_ui()(a, b)
        || #[trigger] by_ts_desc_ui()(b, a) by {}
    assert forall|a: UiContentV, b: UiContentV, c: UiContentV|
        #[trigger] by_ts_desc_ui()(a, b) && #[trigger] by_ts_desc_ui()(b, c)
        implies by_ts_desc_ui()(a, c) by {}
}



// ---------------------------------------------------------------------------
// Vector search over OCR text embeddings
// ---------------------------------------------------------------------------

/// The embedding rows whose cosine distance to the probe lies strictly
/// below the threshold, paired with their distances and joined to their
/// frame's OCR result, in table order. Distances arrive in millionths,
/// one per stored embedding.
pub open spec fn spec_embedding_hits(
    db: DbView,
    rows: Seq<OcrEmbeddingRowV>,
    dists: Seq<u32>,
    threshold: u32,
) -> Seq<(u32, OCRResultV)>
    decreases rows.len(),
{
    if rows.len() == 0 || rows.len() != dists.len() {
        Seq::empty()
    } else {
        let rest = spec_embedding_hits(db, rows.drop_last(), dists.drop_last(), threshold);
        if dists.last() < threshold && find_by_key(db.ocr, rows.last().frame_id) is Some {
            rest.push(
                (
                    dists.last(),
                    ocr_result_of(db, find_by_key(db.ocr, rows.last().frame_id)->Some_0),
                ),
            )
        } else {
            rest
        }
    }
}

/// Distance ascending; ties keep arrival order.
pub open spec fn by_dist_asc() -> spec_fn((u32, OCRResultV), (u32, OCRResultV)) -> bool {
    |a: (u32, OCRResultV), b: (u32, OCRResultV)| a.0 <= b.0
}

pub open spec fn dist_pairs_view(s: Seq<(u32, OCRResult)>) -> Seq<(u32, OCRResultV)> {
    s.map_values(|p: (u32, OCRResult)| (p.0, p.1@))
}

/// The vector search: hits below the threshold, ordered by distance
/// ascending, the first `limit` of them, as OCR results.
pub open spec fn spec_search_similar_embeddings(
    db: DbView,
    dists: Seq<u32>,
    limit: u32,
    threshold: u32,
) -> Seq<OCRResultV> {
    page(
        sort_ordered(spec_embedding_hits(db, db.ocr_embeddings, dists, threshold), by_dist_asc()),
        limit,
        0,
    ).map_values(|p: (u32, OCRResultV)| p.1)
}

impl DatabaseManager {
    /// Nearest-neighbor search over the OCR text embeddings: `dists`
    /// carries the probe's cosine distance to each stored embedding, in
    /// millionths and in table order.
    #[verifier::rlimit(100)]
    pub fn search_similar_embeddings(&self, dists: &Vec<u32>, limit: u32, threshold: u32) -> (r:
        Vec<OCRResult>)
        requires
            self@.wf(),
            dists@.len() == self@.ocr_embeddings.len(),
        ensures
            ocrs_view(r@) == spec_search_similar_embeddings(self@, dists@, limit, threshold),
    {
        let ghost db = self@;
        let n = self.ocr_embeddings.len();
        let mut hits: Vec<(u32, OCRResult)> = Vec::new();
        let mut i: usize = 0;
        while i < n
            invariant
                self@.wf(),
                db == self@,
                i <= n,
                n == db.ocr_embeddings.len(),
                n == dists@.len(),
                dist_pairs_view(hits@) == sort_ordered(
                    spec_embedding_hits(
                        db,
                        db.ocr_embeddings.subrange(0, i as int),
                        dists@.subrange(0, i as int),
                        threshold,
                    ),
                    by_dist_asc(),
                ),
            decreases n - i,
        {
            let ghost pref_hits = spec_embedding_hits(
                db,
                db.ocr_embeddings.subrange(0, i as int),
                dists@.subrange(0, i as int),
                threshold,
            );
            proof {
                assert(db.ocr_embeddings.subrange(0, i + 1).drop_last() =~= db
                    .ocr_embeddings.subrange(0, i as int));
                assert(db.ocr_embeddings.subrange(0, i + 1).last() == db.ocr_embeddings[i as int]);
                assert(dists@.subrange(0, i + 1).drop_last() =~= dists@.subrange(0, i as int));
                assert(dists@.subrange(0, i + 1).last() == dists@[i as int]);
            }
            if dists[i] < threshold {
                let op = self.ocr_find(self.ocr_embeddings[i].frame_id);
                if let Some(ow) = op {
                    let fp = self.frame_find(self.ocr[ow].frame_id);
                    let res: OCRResult = match fp {
                        Some(fw) => {
                            let cp = self.chunk_find(self.frames[fw].video_chunk_id);
                            match cp {
                                Some(cw) => OCRResult {
                                    frame_id: self.ocr[ow].frame_id,
                                    ocr_text: self.ocr[ow].text.clone(),
                                    text_json: self.ocr[ow].text_json.clone(),
                                    timestamp: self.frames[fw].timestamp,
                                    frame_name: self.frames[fw].name.clone(),
                                    file_path: self.video_chunks[cw].file_path.clone(),
                                    offset_index: self.frames[fw].offset_index,
                                    app_name: self.ocr[ow].app_name.clone(),
                                    ocr_engine: self.ocr[ow].ocr_engine.clone(),
                                    window_name: self.ocr[ow].window_name.clone(),
                                    tags: self.vision_tags_of(self.ocr[ow].frame_id),
                                    browser_url: match &self.frames[fw].browser_url {
                                        Some(u) => Some(u.clone()),
                                        None => None,
                                    },
                                },
                                None => {
                                    proof {
                                        assert(has_key(
                                            db.video_chunks,
                                            db.frames[fw as int].video_chunk_id,
                                        ));
                                        lemma_find_by_key_some(
                                            db.video_chunks,
                                            db.frames[fw as int].video_chunk_id,
                                        );
                                        assert(false);
                                    }
                                    OCRResult {
                                        frame_id: 0,
                                        ocr_text: String::new(),
                                        text_json: String::new(),
                                        timestamp: 0,
                                        frame_name: String::new(),
                                        file_path: String::new(),
                                        offset_index: 0,
                                        app_name: String::new(),
                                        ocr_engine: String::new(),
                                        window_name: String::new(),
                                        tags: Vec::new(),
                                        browser_url: None,
                                    }
                                },
                            }
                        },
                        None => {
                            proof {
                                assert(has_key(db.frames, db.ocr[ow as int].frame_id));
                                lemma_find_by_key_some(db.frames, db.ocr[ow as int].frame_id);
                                assert(false);
                            }
                            OCRResult {
                                frame_id: 0,
                                ocr_text: String::new(),
                                text_json: String::new(),
                                timestamp: 0,
                                frame_name: String::new(),
                                file_path: String::new(),
                                offset_index: 0,
                                app_name: String::new(),
                                ocr_engine: String::new(),
                                window_name: String::new(),
                                tags: Vec::new(),
                                browser_url: None,
                            }
                        },
                    };
                    proof {
                        assert(res@ == ocr_result_of(
                            db,
                            find_by_key(db.ocr, db.ocr_embeddings[i as int].frame_id)->Some_0,
                        ));
                    }
                    let d = dists[i];
                    let mut j: usize = 0;
                    while j < hits.len() && hits[j].0 <= d
                        invariant
                            j <= hits@.len(),
                            d == dists@[i as int],
                            forall|k: int| 0 <= k < j ==> (#[trigger] hits@[k]).0 <= d,
                        decreases hits@.len() - j,
                    {
                        j = j + 1;
                    }
                    let ghost sorted_pref = dist_pairs_view(hits@);
                    proof {
                        if j < hits@.len() {
                            assert(sorted_pref[j as int].0 == hits@[j as int].0);
                        }
                        assert(forall|k: int|
                            0 <= k < j ==> (#[trigger] sorted_pref[k]).0 == hits@[k].0);
                    }
                    hits.insert(j, (d, res));
                    proof {
                        let xv: (u32, OCRResultV) = (d, res@);
                        lemma_insert_ordered_at(sorted_pref, xv, j as int, by_dist_asc());
                        assert(dist_pairs_view(hits@) =~= sorted_pref.insert(j as int, xv));
                        assert(dist_pairs_view(hits@) == insert_ordered(
                            sorted_pref,
                            xv,
                            by_dist_asc(),
                        ));
                        let newpref = spec_embedding_hits(
                            db,
                            db.ocr_embeddings.subrange(0, i + 1),
                            dists@.subrange(0, i + 1),
                            threshold,
                        );
                        assert(newpref == pref_hits.push(xv));
                        assert(newpref.drop_last() =~= pref_hits);
                        assert(newpref.last() == xv);
                        assert(sort_ordered(newpref, by_dist_asc()) == insert_ordered(
                            sort_ordered(pref_hits, by_dist_asc()),
                            xv,
                            by_dist_asc(),
                        ));
                    }
                }
            }
            i = i + 1;
        }
        proof {
            assert(db.ocr_embeddings.subrange(0, n as int) =~= db.ocr_embeddings);
            assert(dists@.subrange(0, n as int) =~= dists@);
        }
        let mut pairs = hits;
        paginate(&mut pairs, limit, 0);
        let ghost paged = dist_pairs_view(pairs@);
        let mut out: Vec<OCRResult> = Vec::new();
        let mut k: usize = 0;
        let m = pairs.len();
        while k < m
            invariant
                k <= m,
                m == pairs@.len() + k,
                paged.len() == m,
                forall|j: int|
                    0 <= j < pairs@.len() ==> (#[trigger] pairs@[j]).0 == paged[k + j].0 && (
                    #[trigger] pairs@[j]).1@ == paged[k + j].1,
                ocrs_view(out@) == paged.subrange(0, k as int).map_values(
                    |p: (u32, OCRResultV)| p.1,
                ),
            decreases m - k,
        {
            broadcast use Seq::lemma_push_map_commute;

            let ghost prev = pairs@;
            let pr = pairs.remove(0);
            out.push(pr.1);
            k = k + 1;
            proof {
                assert(forall|j: int|
                    0 <= j < pairs@.len() ==> #[trigger] pairs@[j] == prev[j + 1]);
                assert(ocrs_view(out@) =~= paged.subrange(0, k as int).map_values(
                    |p: (u32, OCRResultV)| p.1,
                ));
            }
        }
        proof {
            assert(paged.subrange(0, m as int) =~= paged);
            assert(ocrs_view(out@) =~= spec_search_similar_embeddings(
                self@,
                dists@,
                limit,
                threshold,
            ));
        }
        out
    }
}


} // verus!
