//! The store's global laws, proved from the contracts: offset density of
//! frames within a chunk, and idempotence of the audio chunk
//! get-or-insert.

use vstd::prelude::*;

use crate::ingest::{
    first_chunk_with_path, lemma_first_chunk_with_path_at, spec_get_or_insert_audio_chunk,
};
use crate::speakers::{
    count_speaker_embeddings, count_speaker_transcriptions, lemma_remove_embeddings_props,
    lemma_remove_speaker_props, lemma_remove_transcriptions_props, retarget_emb, retarget_tr,
    spec_remove_embeddings, spec_remove_speaker, spec_remove_transcriptions,
};
use crate::order::{lemma_sort_ordered_ensures, lemma_sort_ordered_membership, page, sort_ordered};
use crate::search::{
    by_ts_desc_audio, by_ts_desc_ocr, by_ts_desc_sr, by_ts_desc_ui, lemma_audio_hits_len,
    lemma_modality_relations, lemma_ocr_hits_len, lemma_sr_relation, lemma_ui_hits_len,
    spec_audio_hits, spec_count, spec_search, spec_search_audio, spec_search_merged,
    spec_search_ocr, spec_search_ui, spec_ocr_hits, spec_ui_hits,
};
use crate::store::{chunk_frame_count, has_key, lemma_find_by_key_some, DbView, Keyed};
use crate::types::{ContentType, SpeakerEmbeddingRowV, SpeakerRowV, TranscriptionRowV};

verus! {

/// Within every chunk of a well-formed store, frame offsets are unique
/// and lie in `[0, number of frames in the chunk)`: with the downward
/// closure of the invariant they are exactly `0, 1, ..., n-1`.
pub proof fn lemma_frame_offsets_dense(db: DbView)
    requires
        db.wf(),
    ensures
        forall|i: int, j: int|
            0 <= i < j < db.frames.len() ==> !((#[trigger] db.frames[i]).video_chunk_id == (
            #[trigger] db.frames[j]).video_chunk_id && db.frames[i].offset_index
                == db.frames[j].offset_index),
        forall|i: int|
            0 <= i < db.frames.len() ==> 0 <= (#[trigger] db.frames[i]).offset_index
                < chunk_frame_count(db.frames, db.frames[i].video_chunk_id),
        forall|i: int|
            0 <= i < db.frames.len() && (#[trigger] db.frames[i]).offset_index > 0 ==> exists|
                j: int,
            |
                0 <= j < db.frames.len() && (#[trigger] db.frames[j]).video_chunk_id
                    == db.frames[i].video_chunk_id && db.frames[j].offset_index == db.frames[
                i].offset_index - 1,
{
}

proof fn lemma_first_chunk_none_no_match(s: Seq<crate::types::AudioChunkRowV>, path: Seq<char>)
    requires
        first_chunk_with_path(s, path) is None,
    ensures
        forall|j: int| 0 <= j < s.len() ==> (#[trigger] s[j]).file_path != path,
    decreases s.len(),
{
    if s.len() > 0 {
        lemma_first_chunk_none_no_match(s.drop_first(), path);
        assert forall|j: int| 0 <= j < s.len() implies (#[trigger] s[j]).file_path != path by {
            if j > 0 {
                assert(s.drop_first()[j - 1] == s[j]);
            }
        }
    }
}

/// Get-or-insert on audio chunks is idempotent: a second call with the
/// same path returns the same id and leaves the store untouched, so no
/// run of calls ever creates a second row with the path.
pub proof fn lemma_get_or_insert_audio_chunk_idempotent(
    db: DbView,
    path: Seq<char>,
    t1: i64,
    t2: i64,
)
    requires
        db.wf(),
    ensures
        ({
            let first = spec_get_or_insert_audio_chunk(db, path, t1);
            let second = spec_get_or_insert_audio_chunk(first.0, path, t2);
            second.0 == first.0 && second.1 == first.1
        }),
{
    let first = spec_get_or_insert_audio_chunk(db, path, t1);
    match first_chunk_with_path(db.audio_chunks, path) {
        Some(c) => {
            assert(first.0 == db);
        },
        None => {
            lemma_first_chunk_none_no_match(db.audio_chunks, path);
            let n = db.audio_chunks.len() as int;
            assert(first.0.audio_chunks[n].file_path == path);
            assert(forall|j: int|
                0 <= j < n ==> (#[trigger] first.0.audio_chunks[j]) == db.audio_chunks[j]);
            lemma_first_chunk_with_path_at(first.0.audio_chunks, path, n);
            assert(first_chunk_with_path(first.0.audio_chunks, path) == Some(
                first.0.audio_chunks[n],
            ));
        },
    }
}

/// After a merge of speaker `merge` into `keep`: the merged speaker is
/// gone, no transcription or embedding references it, and the kept
/// speaker's transcription and embedding counts are the pre-merge sums.
pub proof fn lemma_merge_speakers_accounts(
    trs: Seq<TranscriptionRowV>,
    post_trs: Seq<TranscriptionRowV>,
    embs: Seq<SpeakerEmbeddingRowV>,
    post_embs: Seq<SpeakerEmbeddingRowV>,
    speakers: Seq<SpeakerRowV>,
    keep: i64,
    merge: i64,
)
    requires
        keep != merge,
        post_trs.len() == trs.len(),
        forall|j: int|
            0 <= j < trs.len() ==> #[trigger] post_trs[j] == retarget_tr(trs[j], merge, keep),
        post_embs.len() == embs.len(),
        forall|j: int|
            0 <= j < embs.len() ==> #[trigger] post_embs[j] == retarget_emb(embs[j], merge, keep),
    ensures
        count_speaker_transcriptions(post_trs, keep) == count_speaker_transcriptions(trs, keep)
            + count_speaker_transcriptions(trs, merge),
        count_speaker_transcriptions(post_trs, merge) == 0,
        count_speaker_embeddings(post_embs, keep) == count_speaker_embeddings(embs, keep)
            + count_speaker_embeddings(embs, merge),
        count_speaker_embeddings(post_embs, merge) == 0,
        !has_key(spec_remove_speaker(speakers, merge), merge),
        forall|j: int|
            0 <= j < post_trs.len() ==> (#[trigger] post_trs[j]).speaker_id != Some(merge),
        forall|j: int|
            0 <= j < post_embs.len() ==> (#[trigger] post_embs[j]).speaker_id != merge,
{
    lemma_retarget_tr_counts(trs, post_trs, keep, merge);
    lemma_retarget_emb_counts(embs, post_embs, keep, merge);
    lemma_remove_speaker_props(speakers, merge);
    if has_key(spec_remove_speaker(speakers, merge), merge) {
        let w = choose|w: int|
            0 <= w < spec_remove_speaker(speakers, merge).len() && (
            #[trigger] spec_remove_speaker(speakers, merge)[w]).key() == merge;
        assert(spec_remove_speaker(speakers, merge)[w].id != merge);
    }
}

proof fn lemma_retarget_tr_counts(
    trs: Seq<TranscriptionRowV>,
    post: Seq<TranscriptionRowV>,
    keep: i64,
    merge: i64,
)
    requires
        keep != merge,
        post.len() == trs.len(),
        forall|j: int|
            0 <= j < trs.len() ==> #[trigger] post[j] == retarget_tr(trs[j], merge, keep),
    ensures
        count_speaker_transcriptions(post, keep) == count_speaker_transcriptions(trs, keep)
            + count_speaker_transcriptions(trs, merge),
        count_speaker_transcriptions(post, merge) == 0,
        forall|j: int| 0 <= j < post.len() ==> (#[trigger] post[j]).speaker_id != Some(merge),
    decreases trs.len(),
{
    if trs.len() > 0 {
        assert(forall|j: int|
            0 <= j < trs.len() - 1 ==> #[trigger] trs.drop_last()[j] == trs[j]);
        assert(forall|j: int|
            0 <= j < post.len() - 1 ==> #[trigger] post.drop_last()[j] == post[j]);
        assert(forall|j: int|
            0 <= j < trs.drop_last().len() ==> #[trigger] post.drop_last()[j] == retarget_tr(
                trs.drop_last()[j],
                merge,
                keep,
            ));
        lemma_retarget_tr_counts(trs.drop_last(), post.drop_last(), keep, merge);
        assert(post.last() == retarget_tr(trs.last(), merge, keep));
    }
}

proof fn lemma_retarget_emb_counts(
    embs: Seq<SpeakerEmbeddingRowV>,
    post: Seq<SpeakerEmbeddingRowV>,
    keep: i64,
    merge: i64,
)
    requires
        keep != merge,
        post.len() == embs.len(),
        forall|j: int|
            0 <= j < embs.len() ==> #[trigger] post[j] == retarget_emb(embs[j], merge, keep),
    ensures
        count_speaker_embeddings(post, keep) == count_speaker_embeddings(embs, keep)
            + count_speaker_embeddings(embs, merge),
        count_speaker_embeddings(post, merge) == 0,
        forall|j: int| 0 <= j < post.len() ==> (#[trigger] post[j]).speaker_id != merge,
    decreases embs.len(),
{
    if embs.len() > 0 {
        assert(forall|j: int|
            0 <= j < embs.len() - 1 ==> #[trigger] embs.drop_last()[j] == embs[j]);
        assert(forall|j: int|
            0 <= j < post.len() - 1 ==> #[trigger] post.drop_last()[j] == post[j]);
        assert(forall|j: int|
            0 <= j < embs.drop_last().len() ==> #[trigger] post.drop_last()[j] == retarget_emb(
                embs.drop_last()[j],
                merge,
                keep,
            ));
        lemma_retarget_emb_counts(embs.drop_last(), post.drop_last(), keep, merge);
        assert(post.last() == retarget_emb(embs.last(), merge, keep));
    }
}

/// After a deletion of speaker `id`: no row of the speaker, embedding or
/// transcription tables references it.
pub proof fn lemma_delete_speaker_clears(db: DbView, id: i64)
    ensures
        !has_key(spec_remove_speaker(db.speakers, id), id),
        forall|j: int|
            0 <= j < spec_remove_transcriptions(db.transcriptions, id).len() ==> (
            #[trigger] spec_remove_transcriptions(db.transcriptions, id)[j]).speaker_id != Some(
                id,
            ),
        forall|j: int|
            0 <= j < spec_remove_embeddings(db.speaker_embeddings, id).len() ==> (
            #[trigger] spec_remove_embeddings(db.speaker_embeddings, id)[j]).speaker_id != id,
{
    lemma_remove_speaker_props(db.speakers, id);
    lemma_remove_transcriptions_props(db.transcriptions, id);
    lemma_remove_embeddings_props(db.speaker_embeddings, id);
    if has_key(spec_remove_speaker(db.speakers, id), id) {
        let w = choose|w: int|
            0 <= w < spec_remove_speaker(db.speakers, id).len() && (
            #[trigger] spec_remove_speaker(db.speakers, id)[w]).key() == id;
        assert(spec_remove_speaker(db.speakers, id)[w].id != id);
    }
}


/// With an unbounded limit and no offset, a singleton-modality search
/// returns exactly as many rows as the count reports.
pub proof fn lemma_count_matches_unbounded_search(
    db: DbView,
    q: Seq<char>,
    start: Option<i64>,
    end: Option<i64>,
    app: Option<Seq<char>>,
    win: Option<Seq<char>>,
    minl: Option<usize>,
    maxl: Option<usize>,
    sids: Seq<i64>,
    fname: Option<Seq<char>>,
)
    requires
        db.ocr.len() <= u32::MAX,
        db.transcriptions.len() <= u32::MAX,
        db.ui_rows.len() <= u32::MAX,
    ensures
        spec_count(db, q, ContentType::OCR, start, end, app, win, minl, maxl, sids, fname)
            == spec_search_ocr(db, q, u32::MAX, 0, start, end, app, win, minl, maxl, fname).len(),
        spec_count(db, q, ContentType::Audio, start, end, app, win, minl, maxl, sids, fname)
            == spec_search_audio(db, q, u32::MAX, 0, start, end, minl, maxl, sids).len(),
        spec_count(db, q, ContentType::UI, start, end, app, win, minl, maxl, sids, fname)
            == spec_search_ui(db, q, u32::MAX, 0, start, end, app, win).len(),
{
    lemma_modality_relations();
    let oh = spec_ocr_hits(db, db.ocr, q, start, end, app, win, minl, maxl, fname);
    lemma_ocr_hits_len(db, db.ocr, q, start, end, app, win, minl, maxl, fname);
    lemma_sort_ordered_ensures(oh, by_ts_desc_ocr());
    let ah = spec_audio_hits(db, db.transcriptions, q, start, end, minl, maxl, sids);
    lemma_audio_hits_len(db, db.transcriptions, q, start, end, minl, maxl, sids);
    lemma_sort_ordered_ensures(ah, by_ts_desc_audio());
    let uh = spec_ui_hits(db, db.ui_rows, q, start, end, app, win);
    lemma_ui_hits_len(db, db.ui_rows, q, start, end, app, win);
    lemma_sort_ordered_ensures(uh, by_ts_desc_ui());
}

/// A unified search's answer is sorted by timestamp descending and never
/// exceeds the limit.
pub proof fn lemma_search_sorted_and_bounded(
    db: DbView,
    q: Seq<char>,
    ct: ContentType,
    limit: u32,
    offset: u32,
    start: Option<i64>,
    end: Option<i64>,
    app: Option<Seq<char>>,
    win: Option<Seq<char>>,
    minl: Option<usize>,
    maxl: Option<usize>,
    sids: Seq<i64>,
    fname: Option<Seq<char>>,
)
    ensures
        spec_search(db, q, ct, limit, offset, start, end, app, win, minl, maxl, sids, fname).len()
            <= limit,
        forall|i: int, j: int|
            0 <= i < j < spec_search(
                db,
                q,
                ct,
                limit,
                offset,
                start,
                end,
                app,
                win,
                minl,
                maxl,
                sids,
                fname,
            ).len() ==> (#[trigger] spec_search(
                db,
                q,
                ct,
                limit,
                offset,
                start,
                end,
                app,
                win,
                minl,
                maxl,
                sids,
                fname,
            )[i]).timestamp() >= (#[trigger] spec_search(
                db,
                q,
                ct,
                limit,
                offset,
                start,
                end,
                app,
                win,
                minl,
                maxl,
                sids,
                fname,
            )[j]).timestamp(),
{
    lemma_sr_relation();
    let merged = spec_search_merged(db, q, ct, limit, offset, start, end, app, win, minl, maxl, sids, fname);
    let sorted = sort_ordered(merged, by_ts_desc_sr());
    lemma_sort_ordered_ensures(merged, by_ts_desc_sr());
    let r = spec_search(db, q, ct, limit, offset, start, end, app, win, minl, maxl, sids, fname);
    assert(r == page(sorted, limit, offset));
    assert forall|i: int, j: int| 0 <= i < j < r.len() implies (#[trigger] r[i]).timestamp() >= (
    #[trigger] r[j]).timestamp() by {
        let lo = if offset as int <= sorted.len() {
            offset as int
        } else {
            sorted.len() as int
        };
        assert(r[i] == sorted[lo + i] && r[j] == sorted[lo + j]);
        assert(by_ts_desc_sr()(sorted[lo + i], sorted[lo + j]));
    }
}

/// No audio result carries a hallucinated speaker: every enriched
/// speaker resolves to a stored, non-hallucinated row.
pub proof fn lemma_audio_hits_exclude_hallucinated(
    db: DbView,
    rows: Seq<TranscriptionRowV>,
    q: Seq<char>,
    start: Option<i64>,
    end: Option<i64>,
    minl: Option<usize>,
    maxl: Option<usize>,
    sids: Seq<i64>,
)
    ensures
        forall|i: int|
            0 <= i < spec_audio_hits(db, rows, q, start, end, minl, maxl, sids).len() ==> ((
            #[trigger] spec_audio_hits(db, rows, q, start, end, minl, maxl, sids)[i]).speaker
                matches Some(sp) ==> exists|w: int|
                0 <= w < db.speakers.len() && (#[trigger] db.speakers[w]).id == sp.id
                    && !db.speakers[w].hallucination),
    decreases rows.len(),
{
    if rows.len() > 0 {
        lemma_audio_hits_exclude_hallucinated(db, rows.drop_last(), q, start, end, minl, maxl, sids);
        let hits = spec_audio_hits(db, rows, q, start, end, minl, maxl, sids);
        let rest = spec_audio_hits(db, rows.drop_last(), q, start, end, minl, maxl, sids);
        assert forall|i: int| 0 <= i < hits.len() implies ((#[trigger] hits[i]).speaker
            matches Some(sp) ==> exists|w: int|
            0 <= w < db.speakers.len() && (#[trigger] db.speakers[w]).id == sp.id
                && !db.speakers[w].hallucination) by {
            if crate::search::audio_hit(db, rows.last(), q, start, end, minl, maxl, sids) && i
                == hits.len() - 1 {
                let a = rows.last();
                if hits[i].speaker is Some {
                    let sid = a.speaker_id->Some_0;
                    lemma_find_by_key_some(db.speakers, sid);
                    let spr = crate::store::find_by_key(db.speakers, sid)->Some_0;
                    assert(db.speakers.contains(spr));
                    let w = choose|w: int|
                        0 <= w < db.speakers.len() && db.speakers[w] == spr;
                    assert(db.speakers[w].id == sid && !db.speakers[w].hallucination);
                }
            } else {
                assert(hits[i] == rest[i]);
            }
        }
    }
}

/// The exclusion carries through sorting and pagination: the audio
/// search returns no result of a hallucinated speaker.
pub proof fn lemma_search_audio_excludes_hallucinated(
    db: DbView,
    q: Seq<char>,
    limit: u32,
    offset: u32,
    start: Option<i64>,
    end: Option<i64>,
    minl: Option<usize>,
    maxl: Option<usize>,
    sids: Seq<i64>,
)
    ensures
        forall|i: int|
            0 <= i < spec_search_audio(db, q, limit, offset, start, end, minl, maxl, sids).len()
                ==> ((#[trigger] spec_search_audio(
                db,
                q,
                limit,
                offset,
                start,
                end,
                minl,
                maxl,
                sids,
            )[i]).speaker matches Some(sp) ==> exists|w: int|
                0 <= w < db.speakers.len() && (#[trigger] db.speakers[w]).id == sp.id
                    && !db.speakers[w].hallucination),
{
    lemma_modality_relations();
    let hits = spec_audio_hits(db, db.transcriptions, q, start, end, minl, maxl, sids);
    let sorted = sort_ordered(hits, by_ts_desc_audio());
    lemma_sort_ordered_ensures(hits, by_ts_desc_audio());
    lemma_audio_hits_exclude_hallucinated(db, db.transcriptions, q, start, end, minl, maxl, sids);
    let r = spec_search_audio(db, q, limit, offset, start, end, minl, maxl, sids);
    assert forall|i: int| 0 <= i < r.len() implies ((#[trigger] r[i]).speaker matches Some(sp)
        ==> exists|w: int|
        0 <= w < db.speakers.len() && (#[trigger] db.speakers[w]).id == sp.id && !db.speakers[
        w].hallucination) by {
        let lo = if offset as int <= sorted.len() {
            offset as int
        } else {
            sorted.len() as int
        };
        assert(r[i] == sorted[lo + i]);
        lemma_sort_ordered_membership(hits, by_ts_desc_audio(), lo + i);
        assert(hits.contains(sorted[lo + i]));
        let h = choose|h: int| 0 <= h < hits.len() && hits[h] == sorted[lo + i];
        assert(hits[h] == r[i]);
    }
}


} // verus!
