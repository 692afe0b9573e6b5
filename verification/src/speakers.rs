//! The speaker registry: lookup by identifier, embedding-based
//! identification, naming, metadata, hallucination marking, and prefix
//! search. Cosine distances arrive as fixed-point millionths computed by
//! the vector extension at the collaborator layer, one per stored
//! embedding, in table order.

use vstd::prelude::*;

use crate::store::{find_by_key, has_key, lemma_find_by_key_some, DatabaseManager, DbView, Keyed};
use crate::text::{like_prefix, like_prefix_exec};
use crate::order::{insert_ordered, lemma_insert_ordered_at, sort_ordered};
use crate::types::{
    AudioChunksResponse, AudioChunksResponseV, DbError, Speaker, SpeakerEmbeddingRow,
    SpeakerEmbeddingRowV, SpeakerRow, SpeakerRowV, SpeakerV, TranscriptionRow, TranscriptionRowV,
};

verus! {

/// A speaker matches a probe embedding only below this cosine distance,
/// in millionths.
pub const SPEAKER_MATCH_THRESHOLD: u32 = 500_000;

/// A speaker row as handed to callers.
pub open spec fn public_speaker(s: SpeakerRowV) -> SpeakerV {
    SpeakerV { id: s.id, name: s.name, metadata: s.metadata }
}

/// The first index carrying the smallest distance.
pub open spec fn argmin_dist(dists: Seq<u32>) -> int
    decreases dists.len(),
{
    if dists.len() <= 1 {
        0
    } else {
        let r = argmin_dist(dists.drop_last());
        if dists.last() < dists[r] {
            dists.len() - 1
        } else {
            r
        }
    }
}

pub proof fn lemma_argmin_dist_props(dists: Seq<u32>)
    requires
        dists.len() > 0,
    ensures
        0 <= argmin_dist(dists) < dists.len(),
        forall|j: int| 0 <= j < dists.len() ==> dists[argmin_dist(dists)] <= #[trigger] dists[j],
    decreases dists.len(),
{
    if dists.len() > 1 {
        lemma_argmin_dist_props(dists.drop_last());
        assert forall|j: int| 0 <= j < dists.len() implies dists[argmin_dist(dists)]
            <= #[trigger] dists[j] by {
            if j < dists.len() - 1 {
                assert(dists.drop_last()[j] == dists[j]);
                assert(dists.drop_last()[argmin_dist(dists.drop_last())] <= dists.drop_last()[j]);
            }
        }
    }
}

/// The speaker an embedding probe resolves to: the speaker of the
/// nearest stored embedding, when its distance is strictly below the
/// threshold and the speaker row still exists.
pub open spec fn spec_get_speaker_from_embedding(db: DbView, dists: Seq<u32>) -> Option<SpeakerV> {
    if dists.len() == 0 {
        None
    } else if dists[argmin_dist(dists)] >= SPEAKER_MATCH_THRESHOLD {
        None
    } else {
        match find_by_key(db.speakers, db.speaker_embeddings[argmin_dist(dists)].speaker_id) {
            Some(s) => Some(public_speaker(s)),
            None => None,
        }
    }
}

/// With every embedding's speaker present, the probe resolves exactly
/// when some stored embedding lies strictly below the threshold.
pub proof fn lemma_speaker_match_iff(db: DbView, dists: Seq<u32>)
    requires
        db.wf(),
        dists.len() == db.speaker_embeddings.len(),
    ensures
        spec_get_speaker_from_embedding(db, dists) is Some <==> exists|i: int|
            0 <= i < dists.len() && #[trigger] dists[i] < SPEAKER_MATCH_THRESHOLD,
        spec_get_speaker_from_embedding(db, dists) is Some ==> forall|j: int|
            0 <= j < dists.len() ==> dists[argmin_dist(dists)] <= #[trigger] dists[j],
{
    if dists.len() > 0 {
        lemma_argmin_dist_props(dists);
        lemma_find_by_key_some(db.speakers, db.speaker_embeddings[argmin_dist(dists)].speaker_id);
        if dists[argmin_dist(dists)] < SPEAKER_MATCH_THRESHOLD {
            assert(has_key(db.speakers, db.speaker_embeddings[argmin_dist(dists)].speaker_id));
        }
    }
}

/// The speakers whose names start with a prefix (case-insensitively)
/// and that are not hallucinations, in table order.
pub open spec fn spec_search_speakers(speakers: Seq<SpeakerRowV>, prefix: Seq<char>) -> Seq<
    SpeakerV,
>
    decreases speakers.len(),
{
    if speakers.len() == 0 {
        Seq::empty()
    } else {
        let rest = spec_search_speakers(speakers.drop_last(), prefix);
        if like_prefix(speakers.last().name, prefix) && !speakers.last().hallucination {
            rest.push(public_speaker(speakers.last()))
        } else {
            rest
        }
    }
}

/// A speaker row with its hallucination flag raised.
pub open spec fn marked_hallucination(s: SpeakerRowV, id: i64) -> SpeakerRowV {
    if s.id == id {
        SpeakerRowV { hallucination: true, ..s }
    } else {
        s
    }
}

/// A speaker row renamed.
pub open spec fn renamed_speaker(s: SpeakerRowV, id: i64, name: Seq<char>) -> SpeakerRowV {
    if s.id == id {
        SpeakerRowV { name, ..s }
    } else {
        s
    }
}

/// A speaker row with fresh metadata.
pub open spec fn remetadated_speaker(s: SpeakerRowV, id: i64, metadata: Seq<char>) -> SpeakerRowV {
    if s.id == id {
        SpeakerRowV { metadata, ..s }
    } else {
        s
    }
}

/// Every part of the store but the speaker table, unchanged.
pub open spec fn unchanged_except_speakers(a: DbView, b: DbView) -> bool {
    &&& a.video_chunks == b.video_chunks
    &&& a.frames == b.frames
    &&& a.ocr == b.ocr
    &&& a.audio_chunks == b.audio_chunks
    &&& a.transcriptions == b.transcriptions
    &&& a.speaker_embeddings == b.speaker_embeddings
    &&& a.ocr_embeddings == b.ocr_embeddings
    &&& a.ui_rows == b.ui_rows
    &&& a.tags == b.tags
    &&& a.vision_tags == b.vision_tags
    &&& a.audio_tags == b.audio_tags
    &&& a.ui_tags == b.ui_tags
    &&& a.next_video_chunk_id == b.next_video_chunk_id
    &&& a.next_frame_id == b.next_frame_id
    &&& a.next_audio_chunk_id == b.next_audio_chunk_id
    &&& a.next_transcription_id == b.next_transcription_id
    &&& a.next_speaker_id == b.next_speaker_id
    &&& a.next_ui_id == b.next_ui_id
    &&& a.next_tag_id == b.next_tag_id
}


// ---------------------------------------------------------------------------
// Merging and deletion
// ---------------------------------------------------------------------------

/// A transcription re-pointed from one speaker to another.
pub open spec fn retarget_tr(t: TranscriptionRowV, from: i64, to: i64) -> TranscriptionRowV {
    if t.speaker_id == Some(from) {
        TranscriptionRowV { speaker_id: Some(to), ..t }
    } else {
        t
    }
}

/// An embedding re-pointed from one speaker to another.
pub open spec fn retarget_emb(e: SpeakerEmbeddingRowV, from: i64, to: i64) -> SpeakerEmbeddingRowV {
    if e.speaker_id == from {
        SpeakerEmbeddingRowV { speaker_id: to, ..e }
    } else {
        e
    }
}

/// The speaker table without the row carrying `id`.
pub open spec fn spec_remove_speaker(s: Seq<SpeakerRowV>, id: i64) -> Seq<SpeakerRowV>
    decreases s.len(),
{
    if s.len() == 0 {
        Seq::empty()
    } else {
        let rest = spec_remove_speaker(s.drop_last(), id);
        if s.last().id == id {
            rest
        } else {
            rest.push(s.last())
        }
    }
}

/// The transcription table without a speaker's rows.
pub open spec fn spec_remove_transcriptions(s: Seq<TranscriptionRowV>, id: i64) -> Seq<
    TranscriptionRowV,
>
    decreases s.len(),
{
    if s.len() == 0 {
        Seq::empty()
    } else {
        let rest = spec_remove_transcriptions(s.drop_last(), id);
        if s.last().speaker_id == Some(id) {
            rest
        } else {
            rest.push(s.last())
        }
    }
}

/// The embedding table without a speaker's rows.
pub open spec fn spec_remove_embeddings(s: Seq<SpeakerEmbeddingRowV>, id: i64) -> Seq<
    SpeakerEmbeddingRowV,
>
    decreases s.len(),
{
    if s.len() == 0 {
        Seq::empty()
    } else {
        let rest = spec_remove_embeddings(s.drop_last(), id);
        if s.last().speaker_id == id {
            rest
        } else {
            rest.push(s.last())
        }
    }
}

/// Removing a speaker row removes exactly it: every other row stays a
/// row of the table, with its identifier set otherwise untouched.
pub proof fn lemma_remove_speaker_props(s: Seq<SpeakerRowV>, id: i64)
    ensures
        forall|j: int|
            0 <= j < spec_remove_speaker(s, id).len() ==> s.contains(
                #[trigger] spec_remove_speaker(s, id)[j],
            ) && spec_remove_speaker(s, id)[j].id != id,
        forall|j: int|
            0 <= j < s.len() && (#[trigger] s[j]).id != id ==> spec_remove_speaker(s, id).contains(
                s[j],
            ),
    decreases s.len(),
{
    if s.len() > 0 {
        lemma_remove_speaker_props(s.drop_last(), id);
        let rest = spec_remove_speaker(s.drop_last(), id);
        let out = spec_remove_speaker(s, id);
        assert forall|j: int| 0 <= j < out.len() implies s.contains(#[trigger] out[j]) && (
        #[trigger] out[j]).id != id by {
            if s.last().id == id || j < out.len() - 1 {
                assert(s.drop_last().contains(out[j]));
                let w = choose|w: int|
                    0 <= w < s.drop_last().len() && s.drop_last()[w] == out[j];
                assert(s[w] == out[j]);
            } else {
                assert(out[j] == s.last());
                assert(s[s.len() - 1] == s.last());
            }
        }
        assert forall|j: int| 0 <= j < s.len() && (#[trigger] s[j]).id != id implies out.contains(
            s[j],
        ) by {
            if j < s.len() - 1 {
                assert(s.drop_last()[j] == s[j]);
                assert(rest.contains(s[j]));
                let w = choose|w: int| 0 <= w < rest.len() && rest[w] == s[j];
                if s.last().id != id {
                    assert(out[w] == rest[w]);
                }
            } else {
                assert(s[j] == s.last());
                assert(out[out.len() - 1] == s.last());
            }
        }
    }
}

/// Rebuild a transcription table with one speaker's rows re-pointed.
fn repoint_transcriptions_vec(src_vec: Vec<TranscriptionRow>, from: i64, to: i64) -> (r: Vec<
    TranscriptionRow,
>)
    ensures
        r@.len() == src_vec@.len(),
        forall|j: int|
            0 <= j < src_vec@.len() ==> (#[trigger] r@[j])@ == retarget_tr(
                src_vec@[j]@,
                from,
                to,
            ),
{
    let mut src = src_vec;
    let n = src.len();
    let ghost orig = src@;
    let mut out: Vec<TranscriptionRow> = Vec::new();
    let mut i: usize = 0;
    while i < n
        invariant
            i <= n,
            n == src@.len() + i,
            orig.len() == n,
            forall|j: int| 0 <= j < src@.len() ==> #[trigger] src@[j] == orig[i + j],
            out@.len() == i,
            forall|j: int|
                0 <= j < i ==> (#[trigger] out@[j])@ == retarget_tr(orig[j]@, from, to),
        decreases n - i,
    {
        let ghost prev = src@;
        let row = src.remove(0);
        if row.speaker_id == Some(from) {
            let new_row = TranscriptionRow { speaker_id: Some(to), ..row };
            out.push(new_row);
        } else {
            out.push(row);
        }
        i = i + 1;
        proof {
            assert(forall|j: int| 0 <= j < src@.len() ==> #[trigger] src@[j] == prev[j + 1]);
        }
    }
    out
}

/// Rebuild an embedding table with one speaker's rows re-pointed.
fn repoint_embeddings_vec(src_vec: Vec<SpeakerEmbeddingRow>, from: i64, to: i64) -> (r: Vec<
    SpeakerEmbeddingRow,
>)
    ensures
        r@.len() == src_vec@.len(),
        forall|j: int|
            0 <= j < src_vec@.len() ==> (#[trigger] r@[j])@ == retarget_emb(
                src_vec@[j]@,
                from,
                to,
            ),
{
    let mut src = src_vec;
    let n = src.len();
    let ghost orig = src@;
    let mut out: Vec<SpeakerEmbeddingRow> = Vec::new();
    let mut i: usize = 0;
    while i < n
        invariant
            i <= n,
            n == src@.len() + i,
            orig.len() == n,
            forall|j: int| 0 <= j < src@.len() ==> #[trigger] src@[j] == orig[i + j],
            out@.len() == i,
            forall|j: int|
                0 <= j < i ==> (#[trigger] out@[j])@ == retarget_emb(orig[j]@, from, to),
        decreases n - i,
    {
        let ghost prev = src@;
        let row = src.remove(0);
        if row.speaker_id == from {
            let new_row = SpeakerEmbeddingRow { speaker_id: to, ..row };
            out.push(new_row);
        } else {
            out.push(row);
        }
        i = i + 1;
        proof {
            assert(forall|j: int| 0 <= j < src@.len() ==> #[trigger] src@[j] == prev[j + 1]);
        }
    }
    out
}

/// Rebuild the speaker table without the row carrying `id`.
fn remove_speaker_vec(src_vec: Vec<SpeakerRow>, id: i64) -> (r: Vec<SpeakerRow>)
    ensures
        r@.map_values(|x: SpeakerRow| x@) == spec_remove_speaker(
            src_vec@.map_values(|x: SpeakerRow| x@),
            id,
        ),
{
    let ghost orig = src_vec@.map_values(|x: SpeakerRow| x@);
    let mut src = src_vec;
    let n = src.len();
    let mut out: Vec<SpeakerRow> = Vec::new();
    let mut i: usize = 0;
    while i < n
        invariant
            i <= n,
            n == src@.len() + i,
            orig.len() == n,
            forall|j: int| 0 <= j < src@.len() ==> (#[trigger] src@[j])@ == orig[i + j],
            out@.map_values(|x: SpeakerRow| x@) == spec_remove_speaker(
                orig.subrange(0, i as int),
                id,
            ),
        decreases n - i,
    {
        broadcast use Seq::lemma_push_map_commute;

        let ghost prev = src@;
        let ghost prev_out = out@;
        proof {
            assert(orig.subrange(0, i + 1).drop_last() =~= orig.subrange(0, i as int));
            assert(orig.subrange(0, i + 1).last() == orig[i as int]);
            assert(src@[0]@ == orig[i as int]);
        }
        let row = src.remove(0);
        if row.id != id {
            out.push(row);
            proof {
                assert(out@ == prev_out.push(out@.last()));
                assert(out@.last()@ == orig[i as int]);
            }
        }
        i = i + 1;
        proof {
            assert(forall|j: int| 0 <= j < src@.len() ==> #[trigger] src@[j] == prev[j + 1]);
            assert(out@.map_values(|x: SpeakerRow| x@) =~= spec_remove_speaker(
                orig.subrange(0, i as int),
                id,
            ));
        }
    }
    proof {
        assert(orig.subrange(0, n as int) =~= orig);
    }
    out
}

/// Rebuild the transcription table without a speaker's rows.
fn remove_transcriptions_vec(src_vec: Vec<TranscriptionRow>, id: i64) -> (r: Vec<TranscriptionRow>)
    ensures
        r@.map_values(|x: TranscriptionRow| x@) == spec_remove_transcriptions(
            src_vec@.map_values(|x: TranscriptionRow| x@),
            id,
        ),
{
    let ghost orig = src_vec@.map_values(|x: TranscriptionRow| x@);
    let mut src = src_vec;
    let n = src.len();
    let mut out: Vec<TranscriptionRow> = Vec::new();
    let mut i: usize = 0;
    while i < n
        invariant
            i <= n,
            n == src@.len() + i,
            orig.len() == n,
            forall|j: int| 0 <= j < src@.len() ==> (#[trigger] src@[j])@ == orig[i + j],
            out@.map_values(|x: TranscriptionRow| x@) == spec_remove_transcriptions(
                orig.subrange(0, i as int),
                id,
            ),
        decreases n - i,
    {
        broadcast use Seq::lemma_push_map_commute;

        let ghost prev = src@;
        let ghost prev_out = out@;
        proof {
            assert(orig.subrange(0, i + 1).drop_last() =~= orig.subrange(0, i as int));
            assert(orig.subrange(0, i + 1).last() == orig[i as int]);
            assert(src@[0]@ == orig[i as int]);
        }
        let row = src.remove(0);
        let keep = match row.speaker_id {
            Some(sid) => sid != id,
            None => true,
        };
        if keep {
            out.push(row);
            proof {
                assert(out@ == prev_out.push(out@.last()));
                assert(out@.last()@ == orig[i as int]);
            }
        }
        i = i + 1;
        proof {
            assert(forall|j: int| 0 <= j < src@.len() ==> #[trigger] src@[j] == prev[j + 1]);
            assert(out@.map_values(|x: TranscriptionRow| x@) =~= spec_remove_transcriptions(
                orig.subrange(0, i as int),
                id,
            ));
        }
    }
    proof {
        assert(orig.subrange(0, n as int) =~= orig);
    }
    out
}

/// Rebuild the embedding table without a speaker's rows.
fn remove_embeddings_vec(src_vec: Vec<SpeakerEmbeddingRow>, id: i64) -> (r: Vec<
    SpeakerEmbeddingRow,
>)
    ensures
        r@.map_values(|x: SpeakerEmbeddingRow| x@) == spec_remove_embeddings(
            src_vec@.map_values(|x: SpeakerEmbeddingRow| x@),
            id,
        ),
{
    let ghost orig = src_vec@.map_values(|x: SpeakerEmbeddingRow| x@);
    let mut src = src_vec;
    let n = src.len();
    let mut out: Vec<SpeakerEmbeddingRow> = Vec::new();
    let mut i: usize = 0;
    while i < n
        invariant
            i <= n,
            n == src@.len() + i,
            orig.len() == n,
            forall|j: int| 0 <= j < src@.len() ==> (#[trigger] src@[j])@ == orig[i + j],
            out@.map_values(|x: SpeakerEmbeddingRow| x@) == spec_remove_embeddings(
                orig.subrange(0, i as int),
                id,
            ),
        decreases n - i,
    {
        broadcast use Seq::lemma_push_map_commute;

        let ghost prev = src@;
        let ghost prev_out = out@;
        proof {
            assert(orig.subrange(0, i + 1).drop_last() =~= orig.subrange(0, i as int));
            assert(orig.subrange(0, i + 1).last() == orig[i as int]);
            assert(src@[0]@ == orig[i as int]);
        }
        let row = src.remove(0);
        if row.speaker_id != id {
            out.push(row);
            proof {
                assert(out@ == prev_out.push(out@.last()));
                assert(out@.last()@ == orig[i as int]);
            }
        }
        i = i + 1;
        proof {
            assert(forall|j: int| 0 <= j < src@.len() ==> #[trigger] src@[j] == prev[j + 1]);
            assert(out@.map_values(|x: SpeakerEmbeddingRow| x@) =~= spec_remove_embeddings(
                orig.subrange(0, i as int),
                id,
            ));
        }
    }
    proof {
        assert(orig.subrange(0, n as int) =~= orig);
    }
    out
}

/// Every part of the store but the speaker, transcription and speaker
/// embedding tables, unchanged.
pub open spec fn unchanged_except_speaker_domain(a: DbView, b: DbView) -> bool {
    &&& a.video_chunks == b.video_chunks
    &&& a.frames == b.frames
    &&& a.ocr == b.ocr
    &&& a.audio_chunks == b.audio_chunks
    &&& a.ocr_embeddings == b.ocr_embeddings
    &&& a.ui_rows == b.ui_rows
    &&& a.tags == b.tags
    &&& a.vision_tags == b.vision_tags
    &&& a.audio_tags == b.audio_tags
    &&& a.ui_tags == b.ui_tags
    &&& a.next_video_chunk_id == b.next_video_chunk_id
    &&& a.next_frame_id == b.next_frame_id
    &&& a.next_audio_chunk_id == b.next_audio_chunk_id
    &&& a.next_transcription_id == b.next_transcription_id
    &&& a.next_speaker_id == b.next_speaker_id
    &&& a.next_ui_id == b.next_ui_id
    &&& a.next_tag_id == b.next_tag_id
}

/// Removed transcription tables hold no row of the removed speaker, and
/// only rows of the original.
pub proof fn lemma_remove_transcriptions_props(s: Seq<TranscriptionRowV>, id: i64)
    ensures
        forall|j: int|
            0 <= j < spec_remove_transcriptions(s, id).len() ==> s.contains(
                #[trigger] spec_remove_transcriptions(s, id)[j],
            ) && (#[trigger] spec_remove_transcriptions(s, id)[j]).speaker_id != Some(id),
    decreases s.len(),
{
    if s.len() > 0 {
        lemma_remove_transcriptions_props(s.drop_last(), id);
        let out = spec_remove_transcriptions(s, id);
        assert forall|j: int| 0 <= j < out.len() implies s.contains(#[trigger] out[j]) && (
        #[trigger] out[j]).speaker_id != Some(id) by {
            if s.last().speaker_id == Some(id) || j < out.len() - 1 {
                assert(s.drop_last().contains(out[j]));
                let w = choose|w: int|
                    0 <= w < s.drop_last().len() && s.drop_last()[w] == out[j];
                assert(s[w] == out[j]);
            } else {
                assert(out[j] == s.last());
                assert(s[s.len() - 1] == s.last());
            }
        }
    }
}

/// Removed embedding tables hold no row of the removed speaker, and
/// only rows of the original.
pub proof fn lemma_remove_embeddings_props(s: Seq<SpeakerEmbeddingRowV>, id: i64)
    ensures
        forall|j: int|
            0 <= j < spec_remove_embeddings(s, id).len() ==> s.contains(
                #[trigger] spec_remove_embeddings(s, id)[j],
            ) && (#[trigger] spec_remove_embeddings(s, id)[j]).speaker_id != id,
    decreases s.len(),
{
    if s.len() > 0 {
        lemma_remove_embeddings_props(s.drop_last(), id);
        let rest = spec_remove_embeddings(s.drop_last(), id);
        let out = spec_remove_embeddings(s, id);
        assert forall|j: int| 0 <= j < out.len() implies s.contains(#[trigger] out[j]) && (
        #[trigger] out[j]).speaker_id != id by {
            if s.last().speaker_id == id || j < out.len() - 1 {
                assert(out[j] == rest[j]);
                assert(s.drop_last().contains(rest[j]));
                let w = choose|w: int|
                    0 <= w < s.drop_last().len() && s.drop_last()[w] == out[j];
                assert(s[w] == out[j]);
            } else {
                assert(out[j] == s.last());
                assert(s[s.len() - 1] == s.last());
            }
        }
    }
}

/// Removing a speaker row keeps the table's identifiers unique and
/// bounded.
pub proof fn lemma_remove_speaker_wfprops(s: Seq<SpeakerRowV>, id: i64, next: i64)
    requires
        forall|j: int| 0 <= j < s.len() ==> 1 <= (#[trigger] s[j]).id < next,
        forall|a: int, b: int|
            0 <= a < b < s.len() ==> (#[trigger] s[a]).id != (#[trigger] s[b]).id,
    ensures
        forall|j: int|
            0 <= j < spec_remove_speaker(s, id).len() ==> 1 <= (#[trigger] spec_remove_speaker(
                s,
                id,
            )[j]).id < next,
        forall|a: int, b: int|
            0 <= a < b < spec_remove_speaker(s, id).len() ==> (#[trigger] spec_remove_speaker(
                s,
                id,
            )[a]).id != (#[trigger] spec_remove_speaker(s, id)[b]).id,
    decreases s.len(),
{
    if s.len() > 0 {
        assert(forall|j: int| 0 <= j < s.len() - 1 ==> #[trigger] s.drop_last()[j] == s[j]);
        lemma_remove_speaker_wfprops(s.drop_last(), id, next);
        lemma_remove_speaker_props(s.drop_last(), id);
        let rest = spec_remove_speaker(s.drop_last(), id);
        let out = spec_remove_speaker(s, id);
        assert forall|j: int| 0 <= j < out.len() implies 1 <= (#[trigger] out[j]).id < next by {
            if s.last().id == id || j < out.len() - 1 {
            } else {
                assert(out[j] == s.last());
                assert(s[s.len() - 1] == s.last());
            }
        }
        assert forall|a: int, b: int| 0 <= a < b < out.len() implies (#[trigger] out[a]).id != (
        #[trigger] out[b]).id by {
            if s.last().id != id && b == out.len() - 1 {
                assert(out[a] == rest[a]);
                assert(s.drop_last().contains(rest[a]));
                let w = choose|w: int|
                    0 <= w < s.drop_last().len() && s.drop_last()[w] == rest[a];
                assert(s[w].id != s[s.len() - 1].id);
                assert(out[b] == s.last());
            }
        }
    }
}

/// How many transcriptions a speaker carries.
pub open spec fn count_speaker_transcriptions(trs: Seq<TranscriptionRowV>, id: i64) -> int
    decreases trs.len(),
{
    if trs.len() == 0 {
        0
    } else {
        count_speaker_transcriptions(trs.drop_last(), id) + if trs.last().speaker_id == Some(id) {
            1int
        } else {
            0int
        }
    }
}

/// How many embeddings a speaker carries.
pub open spec fn count_speaker_embeddings(embs: Seq<SpeakerEmbeddingRowV>, id: i64) -> int
    decreases embs.len(),
{
    if embs.len() == 0 {
        0
    } else {
        count_speaker_embeddings(embs.drop_last(), id) + if embs.last().speaker_id == id {
            1int
        } else {
            0int
        }
    }
}

/// The merged state is well formed.
#[verifier::rlimit(60)]
proof fn lemma_merge_wf(pre: DbView, post: DbView, keep: i64, merge: i64)
    requires
        pre.wf(),
        has_key(pre.speakers, keep),
        keep != merge,
        unchanged_except_speaker_domain(post, pre),
        post.transcriptions.len() == pre.transcriptions.len(),
        forall|j: int|
            0 <= j < pre.transcriptions.len() ==> #[trigger] post.transcriptions[j] == retarget_tr(
                pre.transcriptions[j],
                merge,
                keep,
            ),
        post.speaker_embeddings.len() == pre.speaker_embeddings.len(),
        forall|j: int|
            0 <= j < pre.speaker_embeddings.len() ==> #[trigger] post.speaker_embeddings[j]
                == retarget_emb(pre.speaker_embeddings[j], merge, keep),
        post.speakers == spec_remove_speaker(pre.speakers, merge),
    ensures
        post.wf(),
        has_key(post.speakers, keep),
{
    lemma_remove_speaker_props(pre.speakers, merge);
    lemma_remove_speaker_wfprops(pre.speakers, merge, pre.next_speaker_id);
    let kw = choose|kw: int| 0 <= kw < pre.speakers.len() && (#[trigger] pre.speakers[kw]).key()
        == keep;
    assert(pre.speakers[kw].id != merge);
    assert(spec_remove_speaker(pre.speakers, merge).contains(pre.speakers[kw]));
    let kv = choose|kv: int|
        0 <= kv < post.speakers.len() && post.speakers[kv] == pre.speakers[kw];
    assert(post.speakers[kv].key() == keep);
    assert(has_key(post.speakers, keep));
    assert forall|a: int, b: int| 0 <= a < b < post.transcriptions.len() implies (
    #[trigger] post.transcriptions[a]).id != (#[trigger] post.transcriptions[b]).id by {
        assert(post.transcriptions[a].id == pre.transcriptions[a].id && post.transcriptions[b].id
            == pre.transcriptions[b].id);
    }
    assert forall|a: int| 0 <= a < post.transcriptions.len() implies 1 <= (
    #[trigger] post.transcriptions[a]).id < post.next_transcription_id by {
        assert(post.transcriptions[a].id == pre.transcriptions[a].id);
    }
    assert forall|a: int| 0 <= a < post.transcriptions.len() implies has_key(
        post.audio_chunks,
        (#[trigger] post.transcriptions[a]).audio_chunk_id,
    ) by {
        let ta = pre.transcriptions[a];
        assert(post.transcriptions[a].audio_chunk_id == ta.audio_chunk_id);
    }
    assert forall|a: int| 0 <= a < post.speaker_embeddings.len() implies has_key(
        post.speakers,
        (#[trigger] post.speaker_embeddings[a]).speaker_id,
    ) by {
        let x = post.speaker_embeddings[a].speaker_id;
        if pre.speaker_embeddings[a].speaker_id == merge {
            assert(x == keep);
            assert(post.speakers[kv].key() == keep);
        } else {
            assert(x == pre.speaker_embeddings[a].speaker_id);
            assert(has_key(pre.speakers, x));
            let w = choose|w: int|
                0 <= w < pre.speakers.len() && (#[trigger] pre.speakers[w]).key() == x;
            assert(x != merge);
            assert(spec_remove_speaker(pre.speakers, merge).contains(pre.speakers[w]));
            let v = choose|v: int|
                0 <= v < post.speakers.len() && post.speakers[v] == pre.speakers[w];
            assert(post.speakers[v].key() == x);
        }
    }
    assert(post.wf());
}

/// The state after a deletion is well formed.
#[verifier::rlimit(60)]
proof fn lemma_delete_wf(pre: DbView, post: DbView, id: i64)
    requires
        pre.wf(),
        unchanged_except_speaker_domain(post, pre),
        post.transcriptions == spec_remove_transcriptions(pre.transcriptions, id),
        post.speaker_embeddings == spec_remove_embeddings(pre.speaker_embeddings, id),
        post.speakers == spec_remove_speaker(pre.speakers, id),
    ensures
        post.wf(),
{
    lemma_remove_speaker_props(pre.speakers, id);
    lemma_remove_speaker_wfprops(pre.speakers, id, pre.next_speaker_id);
    lemma_remove_transcriptions_props(pre.transcriptions, id);
    lemma_remove_embeddings_props(pre.speaker_embeddings, id);
    assert forall|a: int, b: int| 0 <= a < b < post.transcriptions.len() implies (
    #[trigger] post.transcriptions[a]).id != (#[trigger] post.transcriptions[b]).id by {
        assert(pre.transcriptions.contains(post.transcriptions[a]) && pre.transcriptions.contains(
            post.transcriptions[b],
        ));
        let wa = choose|wa: int|
            0 <= wa < pre.transcriptions.len() && pre.transcriptions[wa] == post.transcriptions[a];
        let wb = choose|wb: int|
            0 <= wb < pre.transcriptions.len() && pre.transcriptions[wb] == post.transcriptions[b];
        if post.transcriptions[a].id == post.transcriptions[b].id {
            if wa < wb {
                assert(pre.transcriptions[wa].id != pre.transcriptions[wb].id);
            } else if wb < wa {
                assert(pre.transcriptions[wb].id != pre.transcriptions[wa].id);
            } else {
                assert(post.transcriptions[a] == post.transcriptions[b]);
                lemma_remove_transcriptions_distinct(pre.transcriptions, id);
            }
        }
    }
    assert forall|a: int| 0 <= a < post.transcriptions.len() implies 1 <= (
    #[trigger] post.transcriptions[a]).id < post.next_transcription_id && has_key(
        post.audio_chunks,
        post.transcriptions[a].audio_chunk_id,
    ) by {
        let w = choose|w: int|
            0 <= w < pre.transcriptions.len() && pre.transcriptions[w] == post.transcriptions[a];
        assert(1 <= pre.transcriptions[w].id < pre.next_transcription_id);
        assert(has_key(pre.audio_chunks, pre.transcriptions[w].audio_chunk_id));
    }
    assert forall|a: int| 0 <= a < post.speaker_embeddings.len() implies has_key(
        post.speakers,
        (#[trigger] post.speaker_embeddings[a]).speaker_id,
    ) by {
        let x = post.speaker_embeddings[a].speaker_id;
        assert(pre.speaker_embeddings.contains(post.speaker_embeddings[a]));
        let w = choose|w: int|
            0 <= w < pre.speaker_embeddings.len() && pre.speaker_embeddings[w]
                == post.speaker_embeddings[a];
        assert(has_key(pre.speakers, x));
        let v = choose|v: int|
            0 <= v < pre.speakers.len() && (#[trigger] pre.speakers[v]).key() == x;
        assert(x != id);
        assert(spec_remove_speaker(pre.speakers, id).contains(pre.speakers[v]));
        let u = choose|u: int|
            0 <= u < post.speakers.len() && post.speakers[u] == pre.speakers[v];
        assert(post.speakers[u].key() == x);
    }
    assert(post.wf());
}

/// Distinct positions of a removed transcription table never hold equal
/// rows when the original's identifiers are unique.
proof fn lemma_remove_transcriptions_distinct(s: Seq<TranscriptionRowV>, id: i64)
    requires
        forall|a: int, b: int|
            0 <= a < b < s.len() ==> (#[trigger] s[a]).id != (#[trigger] s[b]).id,
    ensures
        forall|a: int, b: int|
            0 <= a < b < spec_remove_transcriptions(s, id).len()
                ==> #[trigger] spec_remove_transcriptions(s, id)[a]
                != #[trigger] spec_remove_transcriptions(s, id)[b],
    decreases s.len(),
{
    if s.len() > 0 {
        assert(forall|j: int| 0 <= j < s.len() - 1 ==> #[trigger] s.drop_last()[j] == s[j]);
        lemma_remove_transcriptions_distinct(s.drop_last(), id);
        lemma_remove_transcriptions_props(s.drop_last(), id);
        let rest = spec_remove_transcriptions(s.drop_last(), id);
        let out = spec_remove_transcriptions(s, id);
        assert forall|a: int, b: int| 0 <= a < b < out.len() implies #[trigger] out[a]
            != #[trigger] out[b] by {
            if s.last().speaker_id != Some(id) && b == out.len() - 1 {
                assert(out[a] == rest[a]);
                assert(s.drop_last().contains(rest[a]));
                let w = choose|w: int|
                    0 <= w < s.drop_last().len() && s.drop_last()[w] == rest[a];
                assert(s[w].id != s[s.len() - 1].id);
                assert(out[b] == s.last());
            }
        }
    }
}

// ---------------------------------------------------------------------------
// A speaker's audio chunks
// ---------------------------------------------------------------------------

pub open spec fn empty_chunk_response() -> AudioChunksResponseV {
    AudioChunksResponseV {
        audio_chunk_id: 0,
        file_path: Seq::empty(),
        timestamp: 0,
        start_time: None,
        end_time: None,
    }
}

/// The chunk record a transcription produces.
pub open spec fn chunk_response_of(db: DbView, t: TranscriptionRowV) -> AudioChunksResponseV {
    match find_by_key(db.audio_chunks, t.audio_chunk_id) {
        None => empty_chunk_response(),
        Some(c) => AudioChunksResponseV {
            audio_chunk_id: t.audio_chunk_id,
            file_path: c.file_path,
            timestamp: c.timestamp,
            start_time: t.start_time,
            end_time: t.end_time,
        },
    }
}

/// The chunk records of a speaker's transcriptions, in table order.
pub open spec fn spec_speaker_chunk_hits(
    db: DbView,
    rows: Seq<TranscriptionRowV>,
    id: i64,
) -> Seq<AudioChunksResponseV>
    decreases rows.len(),
{
    if rows.len() == 0 {
        Seq::empty()
    } else {
        let rest = spec_speaker_chunk_hits(db, rows.drop_last(), id);
        if rows.last().speaker_id == Some(id) && find_by_key(
            db.audio_chunks,
            rows.last().audio_chunk_id,
        ) is Some {
            rest.push(chunk_response_of(db, rows.last()))
        } else {
            rest
        }
    }
}

/// Start-time ascending, absent bounds first; ties keep arrival order.
pub open spec fn by_start_asc() -> spec_fn(AudioChunksResponseV, AudioChunksResponseV) -> bool {
    |a: AudioChunksResponseV, b: AudioChunksResponseV|
        match a.start_time {
            None => true,
            Some(x) => match b.start_time {
                None => false,
                Some(y) => x <= y,
            },
        }
}

pub open spec fn chunks_view(s: Seq<AudioChunksResponse>) -> Seq<AudioChunksResponseV> {
    s.map_values(|x: AudioChunksResponse| x@)
}

fn start_keeps_before(a: Option<i64>, b: Option<i64>) -> (r: bool)
    ensures
        r == match a {
            None => true,
            Some(x) => match b {
                None => false,
                Some(y) => x <= y,
            },
        },
{
    match a {
        None => true,
        Some(x) => match b {
            None => false,
            Some(y) => x <= y,
        },
    }
}

impl DatabaseManager {
    /// The speaker with identifier `speaker_id`, or `NotFound`.
    pub fn get_speaker_by_id(&self, speaker_id: i64) -> (r: Result<Speaker, DbError>)
        ensures
            (r is Ok) <==> has_key(self@.speakers, speaker_id),
            r matches Ok(sp) ==> exists|i: int|
                0 <= i < self@.speakers.len() && (#[trigger] self@.speakers[i]).id == speaker_id
                    && sp@ == public_speaker(self@.speakers[i]),
            r matches Err(e) ==> e is NotFound,
    {
        let p = self.speaker_pos(speaker_id);
        match p {
            Some(i) => {
                let sp = Speaker {
                    id: self.speakers[i].id,
                    name: self.speakers[i].name.clone(),
                    metadata: self.speakers[i].metadata.clone(),
                };
                proof {
                    assert((self@.speakers[i as int]).key() == speaker_id);
                    assert(sp@ == public_speaker(self@.speakers[i as int]));
                }
                Ok(sp)
            },
            None => Err(DbError::NotFound),
        }
    }

    /// Resolve a probe embedding against the stored speaker embeddings:
    /// `dists` carries the probe's cosine distance to each stored
    /// embedding, in millionths and in table order.
    pub fn get_speaker_from_embedding(&self, dists: &Vec<u32>) -> (r: Option<Speaker>)
        requires
            self@.wf(),
            dists@.len() == self@.speaker_embeddings.len(),
        ensures
            match r {
                Some(sp) => spec_get_speaker_from_embedding(self@, dists@) == Some(sp@),
                None => spec_get_speaker_from_embedding(self@, dists@) is None,
            },
    {
        let n = dists.len();
        if n == 0 {
            return None;
        }
        let mut best: usize = 0;
        let mut i: usize = 1;
        while i < n
            invariant
                1 <= i <= n,
                n == dists@.len(),
                best < i,
                best as int == argmin_dist(dists@.subrange(0, i as int)),
            decreases n - i,
        {
            proof {
                assert(dists@.subrange(0, i + 1).drop_last() =~= dists@.subrange(0, i as int));
                assert(dists@.subrange(0, i + 1).last() == dists@[i as int]);
            }
            if dists[i] < dists[best] {
                best = i;
            }
            i = i + 1;
        }
        proof {
            assert(dists@.subrange(0, n as int) =~= dists@);
        }
        if dists[best] >= SPEAKER_MATCH_THRESHOLD {
            return None;
        }
        let sid = self.speaker_embeddings[best].speaker_id;
        let p = self.speaker_pos(sid);
        proof {
            lemma_find_by_key_some(self@.speakers, sid);
        }
        match p {
            Some(k) => {
                proof {
                    assert((self@.speakers[k as int]).key() == sid);
                }
                let sp = Speaker {
                    id: self.speakers[k].id,
                    name: self.speakers[k].name.clone(),
                    metadata: self.speakers[k].metadata.clone(),
                };
                proof {
                    let found = find_by_key(self@.speakers, sid);
                    assert(found is Some);
                    let fr = found->Some_0;
                    assert(fr.key() == sid && self@.speakers.contains(fr));
                    let w = choose|w: int|
                        0 <= w < self@.speakers.len() && self@.speakers[w] == fr;
                    assert(self@.speakers[w].id == sid);
                    assert(sp@ == public_speaker(self@.speakers[k as int]));
                    if self@.speakers[k as int] != fr {
                        assert(w != k as int);
                        if w < k as int {
                            assert(self@.speakers[w].id != self@.speakers[k as int].id);
                        } else {
                            assert(self@.speakers[k as int].id != self@.speakers[w].id);
                        }
                        assert(false);
                    }
                }
                Some(sp)
            },
            None => None,
        }
    }

    /// Speakers whose name starts with `name_prefix`, hallucinations
    /// excluded.
    pub fn search_speakers(&self, name_prefix: &str) -> (r: Vec<Speaker>)
        ensures
            r@.map_values(|sp: Speaker| sp@) == spec_search_speakers(
                self@.speakers,
                name_prefix@,
            ),
    {
        broadcast use Seq::lemma_push_map_commute;

        let n = self.speakers.len();
        let mut r: Vec<Speaker> = Vec::new();
        let mut i: usize = 0;
        while i < n
            invariant
                i <= n,
                n == self@.speakers.len(),
                r@.map_values(|sp: Speaker| sp@) == spec_search_speakers(
                    self@.speakers.subrange(0, i as int),
                    name_prefix@,
                ),
            decreases n - i,
        {
            let ghost sv = self@.speakers;
            let ghost prev_r = r@;
            proof {
                assert(sv.subrange(0, i + 1).drop_last() =~= sv.subrange(0, i as int));
                assert(sv.subrange(0, i + 1).last() == sv[i as int]);
            }
            let hit = like_prefix_exec(self.speakers[i].name.as_str(), name_prefix)
                && !self.speakers[i].hallucination;
            if hit {
                let sp = Speaker {
                    id: self.speakers[i].id,
                    name: self.speakers[i].name.clone(),
                    metadata: self.speakers[i].metadata.clone(),
                };
                proof {
                    assert(sp@ == public_speaker(sv[i as int]));
                }
                r.push(sp);
            }
            i = i + 1;
            proof {
                if hit {
                    assert(r@ == prev_r.push(r@.last()));
                    assert(r@.last()@ == public_speaker(sv[i - 1]));
                }
                assert(r@.map_values(|sp: Speaker| sp@) =~= spec_search_speakers(
                    sv.subrange(0, i as int),
                    name_prefix@,
                ));
            }
        }
        proof {
            assert(self@.speakers.subrange(0, n as int) =~= self@.speakers);
        }
        r
    }


    /// Merge one speaker into another: every transcription and embedding
    /// of `speaker_to_merge_id` is re-pointed at `speaker_to_keep_id`,
    /// the merged speaker's row leaves, and the kept speaker comes back.
    /// Both speakers must exist and differ; otherwise nothing changes.
    #[verifier::rlimit(60)]
    pub fn merge_speakers(&mut self, speaker_to_keep_id: i64, speaker_to_merge_id: i64) -> (r:
        Result<Speaker, DbError>)
        requires
            old(self)@.wf(),
        ensures
            final(self)@.wf(),
            !has_key(old(self)@.speakers, speaker_to_keep_id) || !has_key(
                old(self)@.speakers,
                speaker_to_merge_id,
            ) ==> (r matches Err(DbError::NotFound) && final(self)@ == old(self)@),
            has_key(old(self)@.speakers, speaker_to_keep_id) && has_key(
                old(self)@.speakers,
                speaker_to_merge_id,
            ) && speaker_to_keep_id == speaker_to_merge_id ==> (r matches Err(
                DbError::IntegrityViolation,
            ) && final(self)@ == old(self)@),
            has_key(old(self)@.speakers, speaker_to_keep_id) && has_key(
                old(self)@.speakers,
                speaker_to_merge_id,
            ) && speaker_to_keep_id != speaker_to_merge_id ==> {
                &&& r matches Ok(sp) && sp.id == speaker_to_keep_id
                &&& unchanged_except_speaker_domain(final(self)@, old(self)@)
                &&& final(self)@.transcriptions.len() == old(self)@.transcriptions.len()
                &&& forall|j: int|
                    0 <= j < old(self)@.transcriptions.len()
                        ==> #[trigger] final(self)@.transcriptions[j] == retarget_tr(
                        old(self)@.transcriptions[j],
                        speaker_to_merge_id,
                        speaker_to_keep_id,
                    )
                &&& final(self)@.speaker_embeddings.len() == old(self)@.speaker_embeddings.len()
                &&& forall|j: int|
                    0 <= j < old(self)@.speaker_embeddings.len()
                        ==> #[trigger] final(self)@.speaker_embeddings[j] == retarget_emb(
                        old(self)@.speaker_embeddings[j],
                        speaker_to_merge_id,
                        speaker_to_keep_id,
                    )
                &&& final(self)@.speakers == spec_remove_speaker(
                    old(self)@.speakers,
                    speaker_to_merge_id,
                )
            },
    {
        let kp = self.speaker_pos(speaker_to_keep_id);
        let mp = self.speaker_pos(speaker_to_merge_id);
        if kp.is_none() || mp.is_none() {
            proof {
                if kp is Some {
                    assert(self@.speakers[kp->Some_0 as int].key() == speaker_to_keep_id);
                }
                if mp is Some {
                    assert(self@.speakers[mp->Some_0 as int].key() == speaker_to_merge_id);
                }
            }
            return Err(DbError::NotFound);
        }
        proof {
            assert(self@.speakers[kp->Some_0 as int].key() == speaker_to_keep_id);
            assert(self@.speakers[mp->Some_0 as int].key() == speaker_to_merge_id);
        }
        if speaker_to_keep_id == speaker_to_merge_id {
            return Err(DbError::IntegrityViolation);
        }
        let trs = self.transcriptions.split_off(0);
        let new_trs = repoint_transcriptions_vec(trs, speaker_to_merge_id, speaker_to_keep_id);
        self.transcriptions = new_trs;
        let embs = self.speaker_embeddings.split_off(0);
        let new_embs = repoint_embeddings_vec(embs, speaker_to_merge_id, speaker_to_keep_id);
        self.speaker_embeddings = new_embs;
        let sps = self.speakers.split_off(0);
        let new_sps = remove_speaker_vec(sps, speaker_to_merge_id);
        self.speakers = new_sps;
        proof {
            let pre = old(self)@;
            let post = self@;
            assert(trs@.map_values(|x: TranscriptionRow| x@) =~= pre.transcriptions);
            assert(embs@.map_values(|x: SpeakerEmbeddingRow| x@) =~= pre.speaker_embeddings);
            assert(sps@.map_values(|x: SpeakerRow| x@) =~= pre.speakers);
            assert(forall|j: int|
                0 <= j < pre.transcriptions.len() ==> #[trigger] post.transcriptions[j]
                    == retarget_tr(pre.transcriptions[j], speaker_to_merge_id, speaker_to_keep_id));
            assert(forall|j: int|
                0 <= j < pre.speaker_embeddings.len() ==> #[trigger] post.speaker_embeddings[j]
                    == retarget_emb(
                    pre.speaker_embeddings[j],
                    speaker_to_merge_id,
                    speaker_to_keep_id,
                ));
            assert(post.speakers == spec_remove_speaker(pre.speakers, speaker_to_merge_id));
            lemma_merge_wf(pre, post, speaker_to_keep_id, speaker_to_merge_id);
        }
        let p = self.speaker_pos(speaker_to_keep_id);
        match p {
            Some(w) => {
                let sp = Speaker {
                    id: self.speakers[w].id,
                    name: self.speakers[w].name.clone(),
                    metadata: self.speakers[w].metadata.clone(),
                };
                Ok(sp)
            },
            None => {
                proof {
                    assert(has_key(self@.speakers, speaker_to_keep_id));
                    assert(false);
                }
                Err(DbError::NotFound)
            },
        }
    }

    /// Delete a speaker: its transcriptions, then any audio chunks whose
    /// remaining transcriptions for it carry no start time, then its
    /// embeddings, then the speaker row — in that order inside one
    /// transaction. Since the first step already removed every
    /// transcription of the speaker, the second step's selection is
    /// empty and no audio chunk leaves.
    #[verifier::rlimit(60)]
    pub fn delete_speaker(&mut self, id: i64) -> (r: Result<(), DbError>)
        requires
            old(self)@.wf(),
        ensures
            final(self)@.wf(),
            (r is Ok),
            unchanged_except_speaker_domain(final(self)@, old(self)@),
            final(self)@.transcriptions == spec_remove_transcriptions(
                old(self)@.transcriptions,
                id,
            ),
            final(self)@.speaker_embeddings == spec_remove_embeddings(
                old(self)@.speaker_embeddings,
                id,
            ),
            final(self)@.speakers == spec_remove_speaker(old(self)@.speakers, id),
    {
        let trs = self.transcriptions.split_off(0);
        let new_trs = remove_transcriptions_vec(trs, id);
        self.transcriptions = new_trs;
        proof {
            assert(trs@.map_values(|x: TranscriptionRow| x@) =~= old(self)@.transcriptions);
            lemma_remove_transcriptions_props(old(self)@.transcriptions, id);
        }
        // Step two: collect the audio chunks of this speaker's remaining
        // null-start transcriptions. None remain, so the scan finds
        // nothing and the chunk table stays.
        let mut t: usize = 0;
        while t < self.transcriptions.len()
            invariant
                t <= self@.transcriptions.len(),
                forall|j: int|
                    0 <= j < self@.transcriptions.len()
                        ==> (#[trigger] self@.transcriptions[j]).speaker_id != Some(id),
            decreases self@.transcriptions.len() - t,
        {
            let is_orphan = match self.transcriptions[t].speaker_id {
                Some(sid) => sid == id && self.transcriptions[t].start_time.is_none(),
                None => false,
            };
            if is_orphan {
                proof {
                    assert(self@.transcriptions[t as int].speaker_id == Some(id));
                    assert(false);
                }
            }
            t = t + 1;
        }
        let embs = self.speaker_embeddings.split_off(0);
        let new_embs = remove_embeddings_vec(embs, id);
        self.speaker_embeddings = new_embs;
        let sps = self.speakers.split_off(0);
        let new_sps = remove_speaker_vec(sps, id);
        self.speakers = new_sps;
        proof {
            let pre = old(self)@;
            let post = self@;
            assert(trs@.map_values(|x: TranscriptionRow| x@) =~= pre.transcriptions);
            assert(embs@.map_values(|x: SpeakerEmbeddingRow| x@) =~= pre.speaker_embeddings);
            assert(sps@.map_values(|x: SpeakerRow| x@) =~= pre.speakers);
            lemma_delete_wf(pre, post, id);
        }
        Ok(())
    }


    /// Every audio chunk a speaker occurs in, with each transcription's
    /// bounds, ordered by start time ascending (absent bounds first).
    #[verifier::rlimit(100)]
    pub fn get_audio_chunks_for_speaker(&self, speaker_id: i64) -> (r: Vec<AudioChunksResponse>)
        requires
            self@.wf(),
        ensures
            chunks_view(r@) == sort_ordered(
                spec_speaker_chunk_hits(self@, self@.transcriptions, speaker_id),
                by_start_asc(),
            ),
    {
        let ghost db = self@;
        let n = self.transcriptions.len();
        let mut hits: Vec<AudioChunksResponse> = Vec::new();
        let mut i: usize = 0;
        while i < n
            invariant
                self@.wf(),
                db == self@,
                i <= n,
                n == db.transcriptions.len(),
                chunks_view(hits@) == sort_ordered(
                    spec_speaker_chunk_hits(
                        db,
                        db.transcriptions.subrange(0, i as int),
                        speaker_id,
                    ),
                    by_start_asc(),
                ),
            decreases n - i,
        {
            let ghost pref_hits = spec_speaker_chunk_hits(
                db,
                db.transcriptions.subrange(0, i as int),
                speaker_id,
            );
            proof {
                assert(db.transcriptions.subrange(0, i + 1).drop_last() =~= db
                    .transcriptions.subrange(0, i as int));
                assert(db.transcriptions.subrange(0, i + 1).last() == db.transcriptions[i as int]);
            }
            let is_speaker = match self.transcriptions[i].speaker_id {
                Some(sid) => sid == speaker_id,
                None => false,
            };
            if is_speaker {
                let cp = self.audio_chunk_find(self.transcriptions[i].audio_chunk_id);
                if let Some(cw) = cp {
                    let res = AudioChunksResponse {
                        audio_chunk_id: self.transcriptions[i].audio_chunk_id,
                        file_path: self.audio_chunks[cw].file_path.clone(),
                        timestamp: self.audio_chunks[cw].timestamp,
                        start_time: self.transcriptions[i].start_time,
                        end_time: self.transcriptions[i].end_time,
                    };
                    proof {
                        assert(res@ == chunk_response_of(db, db.transcriptions[i as int]));
                    }
                    let mut j: usize = 0;
                    while j < hits.len() && start_keeps_before(
                        hits[j].start_time,
                        res.start_time,
                    )
                        invariant
                            j <= hits@.len(),
                            forall|k: int|
                                0 <= k < j ==> by_start_asc()((#[trigger] hits@[k])@, res@),
                        decreases hits@.len() - j,
                    {
                        proof {
                            assert(by_start_asc()(hits@[j as int]@, res@));
                        }
                        j = j + 1;
                    }
                    let ghost sorted_pref = chunks_view(hits@);
                    proof {
                        if j < hits@.len() {
                            assert(sorted_pref[j as int] == hits@[j as int]@);
                            assert(!by_start_asc()(sorted_pref[j as int], res@));
                        }
                    }
                    hits.insert(j, res);
                    proof {
                        lemma_insert_ordered_at(sorted_pref, res@, j as int, by_start_asc());
                        assert(chunks_view(hits@) =~= sorted_pref.insert(j as int, res@));
                        assert(chunks_view(hits@) == insert_ordered(
                            sorted_pref,
                            res@,
                            by_start_asc(),
                        ));
                        let newpref = spec_speaker_chunk_hits(
                            db,
                            db.transcriptions.subrange(0, i + 1),
                            speaker_id,
                        );
                        assert(newpref == pref_hits.push(res@));
                        assert(newpref.drop_last() =~= pref_hits);
                        assert(newpref.last() == res@);
                        assert(sort_ordered(newpref, by_start_asc()) == insert_ordered(
                            sort_ordered(pref_hits, by_start_asc()),
                            res@,
                            by_start_asc(),
                        ));
                    }
                } else {
                    proof {
                        assert(has_key(
                            self@.audio_chunks,
                            db.transcriptions[i as int].audio_chunk_id,
                        ));
                        lemma_find_by_key_some(
                            self@.audio_chunks,
                            db.transcriptions[i as int].audio_chunk_id,
                        );
                        assert(false);
                    }
                }
            }
            i = i + 1;
        }
        proof {
            assert(db.transcriptions.subrange(0, n as int) =~= db.transcriptions);
        }
        hits
    }

    /// Raise a speaker's hallucination flag; no cascade.
    pub fn mark_speaker_as_hallucination(&mut self, id: i64) -> (r: Result<(), DbError>)
        requires
            old(self)@.wf(),
        ensures
            final(self)@.wf(),
            (r is Ok),
            unchanged_except_speakers(final(self)@, old(self)@),
            final(self)@.speakers.len() == old(self)@.speakers.len(),
            forall|j: int|
                0 <= j < old(self)@.speakers.len() ==> #[trigger] final(self)@.speakers[j]
                    == marked_hallucination(old(self)@.speakers[j], id),
    {
        let p = self.speaker_pos(id);
        if let Some(k) = p {
            let ghost pre = self@.speakers;
            let row = self.speakers.remove(k);
            let new_row = SpeakerRow { hallucination: true, ..row };
            self.speakers.insert(k, new_row);
            proof {
                assert(self@.speakers =~= pre.update(k as int, new_row@));
                assert(pre[k as int].key() == id);
                assert forall|j: int| 0 <= j < pre.len() implies #[trigger] self@.speakers[j]
                    == marked_hallucination(pre[j], id) by {
                    if j != k {
                        assert(pre[j].id != id) by {
                            if pre[j].id == id {
                                assert(pre[j].key() == id && pre[k as int].key() == id);
                            }
                        }
                    }
                }
                assert forall|a: int, b: int| 0 <= a < b < self@.speakers.len() implies (
                #[trigger] self@.speakers[a]).id != (#[trigger] self@.speakers[b]).id by {
                    assert(self@.speakers[a].id == pre[a].id && self@.speakers[b].id == pre[b].id);
                }
                assert forall|a: int| 0 <= a < self@.speakers.len() implies 1 <= (
                #[trigger] self@.speakers[a]).id < self@.next_speaker_id by {
                    assert(self@.speakers[a].id == pre[a].id);
                }
                assert(unchanged_except_speakers(self@, old(self)@));
                assert(old(self)@.ids_bounded() && old(self)@.ids_unique() && old(
                    self,
                )@.refs_ok() && old(self)@.offsets_ok());
                assert forall|j: int| 0 <= j < self@.speaker_embeddings.len() implies has_key(
                    self@.speakers,
                    (#[trigger] self@.speaker_embeddings[j]).speaker_id,
                ) by {
                    let sid = old(self)@.speaker_embeddings[j].speaker_id;
                    assert(has_key(old(self)@.speakers, sid));
                    let w = choose|w: int|
                        0 <= w < old(self)@.speakers.len() && (#[trigger] old(
                            self,
                        )@.speakers[w]).key() == sid;
                    assert(self@.speakers[w].key() == sid);
                }
                assert(self@.wf());
            }
        } else {
            proof {
                assert forall|j: int| 0 <= j < self@.speakers.len() implies #[trigger] self@
                    .speakers[j] == marked_hallucination(self@.speakers[j], id) by {
                    assert(self@.speakers[j].key() != id);
                }
            }
        }
        Ok(())
    }

    /// Set a speaker's name; rows of other speakers stay as they are.
    pub fn update_speaker_name(&mut self, speaker_id: i64, name: &str) -> (r: Result<i64, DbError>)
        requires
            old(self)@.wf(),
        ensures
            final(self)@.wf(),
            r == Ok::<i64, DbError>(speaker_id),
            unchanged_except_speakers(final(self)@, old(self)@),
            final(self)@.speakers.len() == old(self)@.speakers.len(),
            forall|j: int|
                0 <= j < old(self)@.speakers.len() ==> #[trigger] final(self)@.speakers[j]
                    == renamed_speaker(old(self)@.speakers[j], speaker_id, name@),
    {
        let p = self.speaker_pos(speaker_id);
        if let Some(k) = p {
            let ghost pre = self@.speakers;
            let row = self.speakers.remove(k);
            let new_row = SpeakerRow { name: name.to_owned(), ..row };
            self.speakers.insert(k, new_row);
            proof {
                assert(self@.speakers =~= pre.update(k as int, new_row@));
                assert(pre[k as int].key() == speaker_id);
                assert forall|j: int| 0 <= j < pre.len() implies #[trigger] self@.speakers[j]
                    == renamed_speaker(pre[j], speaker_id, name@) by {
                    if j != k {
                        assert(pre[j].id != speaker_id) by {
                            if pre[j].id == speaker_id {
                                assert(pre[j].key() == speaker_id && pre[k as int].key()
                                    == speaker_id);
                            }
                        }
                    }
                }
                assert forall|a: int, b: int| 0 <= a < b < self@.speakers.len() implies (
                #[trigger] self@.speakers[a]).id != (#[trigger] self@.speakers[b]).id by {
                    assert(self@.speakers[a].id == pre[a].id && self@.speakers[b].id == pre[b].id);
                }
                assert forall|a: int| 0 <= a < self@.speakers.len() implies 1 <= (
                #[trigger] self@.speakers[a]).id < self@.next_speaker_id by {
                    assert(self@.speakers[a].id == pre[a].id);
                }
                assert(unchanged_except_speakers(self@, old(self)@));
                assert(old(self)@.ids_bounded() && old(self)@.ids_unique() && old(
                    self,
                )@.refs_ok() && old(self)@.offsets_ok());
                assert forall|j: int| 0 <= j < self@.speaker_embeddings.len() implies has_key(
                    self@.speakers,
                    (#[trigger] self@.speaker_embeddings[j]).speaker_id,
                ) by {
                    let sid = old(self)@.speaker_embeddings[j].speaker_id;
                    assert(has_key(old(self)@.speakers, sid));
                    let w = choose|w: int|
                        0 <= w < old(self)@.speakers.len() && (#[trigger] old(
                            self,
                        )@.speakers[w]).key() == sid;
                    assert(self@.speakers[w].key() == sid);
                }
                assert(self@.wf());
            }
        } else {
            proof {
                assert forall|j: int| 0 <= j < self@.speakers.len() implies #[trigger] self@
                    .speakers[j] == renamed_speaker(self@.speakers[j], speaker_id, name@) by {
                    assert(self@.speakers[j].key() != speaker_id);
                }
            }
        }
        Ok(speaker_id)
    }

    /// Set a speaker's metadata document.
    pub fn update_speaker_metadata(&mut self, speaker_id: i64, metadata: &str) -> (r: Result<
        i64,
        DbError,
    >)
        requires
            old(self)@.wf(),
        ensures
            final(self)@.wf(),
            r == Ok::<i64, DbError>(speaker_id),
            unchanged_except_speakers(final(self)@, old(self)@),
            final(self)@.speakers.len() == old(self)@.speakers.len(),
            forall|j: int|
                0 <= j < old(self)@.speakers.len() ==> #[trigger] final(self)@.speakers[j]
                    == remetadated_speaker(old(self)@.speakers[j], speaker_id, metadata@),
    {
        let p = self.speaker_pos(speaker_id);
        if let Some(k) = p {
            let ghost pre = self@.speakers;
            let row = self.speakers.remove(k);
            let new_row = SpeakerRow { metadata: metadata.to_owned(), ..row };
            self.speakers.insert(k, new_row);
            proof {
                assert(self@.speakers =~= pre.update(k as int, new_row@));
                assert(pre[k as int].key() == speaker_id);
                assert forall|j: int| 0 <= j < pre.len() implies #[trigger] self@.speakers[j]
                    == remetadated_speaker(pre[j], speaker_id, metadata@) by {
                    if j != k {
                        assert(pre[j].id != speaker_id) by {
                            if pre[j].id == speaker_id {
                                assert(pre[j].key() == speaker_id && pre[k as int].key()
                                    == speaker_id);
                            }
                        }
                    }
                }
                assert forall|a: int, b: int| 0 <= a < b < self@.speakers.len() implies (
                #[trigger] self@.speakers[a]).id != (#[trigger] self@.speakers[b]).id by {
                    assert(self@.speakers[a].id == pre[a].id && self@.speakers[b].id == pre[b].id);
                }
                assert forall|a: int| 0 <= a < self@.speakers.len() implies 1 <= (
                #[trigger] self@.speakers[a]).id < self@.next_speaker_id by {
                    assert(self@.speakers[a].id == pre[a].id);
                }
                assert(unchanged_except_speakers(self@, old(self)@));
                assert(old(self)@.ids_bounded() && old(self)@.ids_unique() && old(
                    self,
                )@.refs_ok() && old(self)@.offsets_ok());
                assert forall|j: int| 0 <= j < self@.speaker_embeddings.len() implies has_key(
                    self@.speakers,
                    (#[trigger] self@.speaker_embeddings[j]).speaker_id,
                ) by {
                    let sid = old(self)@.speaker_embeddings[j].speaker_id;
                    assert(has_key(old(self)@.speakers, sid));
                    let w = choose|w: int|
                        0 <= w < old(self)@.speakers.len() && (#[trigger] old(
                            self,
                        )@.speakers[w]).key() == sid;
                    assert(self@.speakers[w].key() == sid);
                }
                assert(self@.wf());
            }
        } else {
            proof {
                assert forall|j: int| 0 <= j < self@.speakers.len() implies #[trigger] self@
                    .speakers[j] == remetadated_speaker(self@.speakers[j], speaker_id, metadata@)
                    by {
                    assert(self@.speakers[j].key() != speaker_id);
                }
            }
        }
        Ok(speaker_id)
    }
}

} // verus!
