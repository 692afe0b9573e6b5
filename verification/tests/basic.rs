//! End-to-end scenarios over the in-memory store.

use screenpipe_db::num::parse_decimal_micros;
use screenpipe_db::positions::{calculate_confidence, find_matching_positions, parse_blocks};
use screenpipe_db::repair::repair_outcome;
use screenpipe_db::store::DatabaseManager;
use screenpipe_db::types::{ContentType, DbError, OcrBlock, Order, SearchResult, VideoMetadata};

fn embedding_blob(v: &[f32]) -> Vec<u8> {
    let mut out = Vec::new();
    for x in v {
        out.extend_from_slice(&x.to_le_bytes());
    }
    out
}

fn cosine_distance_micros(a: &[f32], b: &[f32]) -> u32 {
    let dot: f64 = a.iter().zip(b.iter()).map(|(x, y)| (*x as f64) * (*y as f64)).sum();
    let na: f64 = a.iter().map(|x| (*x as f64) * (*x as f64)).sum::<f64>().sqrt();
    let nb: f64 = b.iter().map(|x| (*x as f64) * (*x as f64)).sum::<f64>().sqrt();
    let d = 1.0 - dot / (na * nb);
    (d * 1_000_000.0).round() as u32
}

#[test]
fn frame_offset_allocator() {
    let mut db = DatabaseManager::new();
    let v1 = db.insert_video_chunk("/videos/v1.mp4", "D").unwrap();
    let f1 = db.insert_frame("D", Some(10), None).unwrap();
    let f2 = db.insert_frame("D", Some(20), None).unwrap();
    let f3 = db.insert_frame("D", Some(30), Some("https://example.test")).unwrap();
    assert_eq!(db.frames.len(), 3);
    assert_eq!(db.frames[0].offset_index, 0);
    assert_eq!(db.frames[1].offset_index, 1);
    assert_eq!(db.frames[2].offset_index, 2);
    for f in &db.frames {
        assert_eq!(f.video_chunk_id, v1);
        assert_eq!(f.name, "/videos/v1.mp4");
    }
    assert!(f1 < f2 && f2 < f3);
    assert_eq!(db.frames[2].browser_url.as_deref(), Some("https://example.test"));
}

#[test]
fn frame_without_chunk_inserts_nothing() {
    let mut db = DatabaseManager::new();
    let r = db.insert_frame("E", None, None).unwrap();
    assert_eq!(r, 0);
    assert!(db.frames.is_empty());
}

#[test]
fn frame_goes_to_latest_chunk_of_device() {
    let mut db = DatabaseManager::new();
    let _a = db.insert_video_chunk("/videos/a.mp4", "D").unwrap();
    let b = db.insert_video_chunk("/videos/b.mp4", "D").unwrap();
    let _other = db.insert_video_chunk("/videos/c.mp4", "other").unwrap();
    db.insert_frame("D", Some(5), None).unwrap();
    assert_eq!(db.frames[0].video_chunk_id, b);
    assert_eq!(db.frames[0].name, "/videos/b.mp4");
}

#[test]
fn audio_chunk_get_or_insert_is_idempotent() {
    let mut db = DatabaseManager::new();
    let a = db.get_or_insert_audio_chunk("/audio/a.wav").unwrap();
    let b = db.get_or_insert_audio_chunk("/audio/a.wav").unwrap();
    let c = db.get_or_insert_audio_chunk("/audio/a.wav").unwrap();
    assert_eq!(a, b);
    assert_eq!(b, c);
    assert_eq!(db.audio_chunks.len(), 1);
    let d = db.get_or_insert_audio_chunk("/audio/d.wav").unwrap();
    assert_ne!(a, d);
    assert_eq!(db.audio_chunks.len(), 2);
}

#[test]
fn ocr_text_needs_frame_and_is_unique_per_frame() {
    let mut db = DatabaseManager::new();
    let err = db.insert_ocr_text(7, "hi", "[]", "app", "win", "engine", true);
    assert!(matches!(err, Err(DbError::IntegrityViolation)));
    db.insert_video_chunk("/videos/v.mp4", "D").unwrap();
    let fid = db.insert_frame("D", Some(1), None).unwrap();
    db.insert_ocr_text(fid, "hello", "[]", "app", "win", "engine", false).unwrap();
    assert_eq!(db.ocr.len(), 1);
    assert_eq!(db.ocr[0].text_length, 5);
    let dup = db.insert_ocr_text(fid, "again", "[]", "app", "win", "engine", false);
    assert!(matches!(dup, Err(DbError::IntegrityViolation)));
}

#[test]
fn audio_transcription_needs_chunk() {
    let mut db = DatabaseManager::new();
    let dev = screenpipe_db::types::AudioDevice { name: "mic".to_string(), is_input: true };
    let err = db.insert_audio_transcription(3, "words", 0, "whisper", &dev, None, None, None);
    assert!(matches!(err, Err(DbError::IntegrityViolation)));
    let chunk = db.get_or_insert_audio_chunk("/audio/a.wav").unwrap();
    let id = db
        .insert_audio_transcription(chunk, "three words here", 0, "whisper", &dev, None, Some(0), Some(1500))
        .unwrap();
    assert_eq!(db.transcriptions.len(), 1);
    assert_eq!(db.transcriptions[0].id, id);
    assert_eq!(db.transcriptions[0].text_length, 16);
    assert!(db.transcriptions[0].is_input_device);
}

#[test]
fn speaker_round_trip_by_embedding() {
    let mut db = DatabaseManager::new();
    let stored = [1.0f32, 0.0, 0.0];
    let sp = db.insert_speaker(&embedding_blob(&stored)).unwrap();
    assert_eq!(sp.name, "");
    assert_eq!(sp.metadata, "");

    let close = [0.99f32, 0.01, 0.0];
    let dists = vec![cosine_distance_micros(&close, &stored)];
    let hit = db.get_speaker_from_embedding(&dists).unwrap();
    assert_eq!(hit.id, sp.id);

    let far = [0.0f32, 1.0, 0.0];
    let dists = vec![cosine_distance_micros(&far, &stored)];
    assert!(db.get_speaker_from_embedding(&dists).is_none());
}

#[test]
fn nearest_speaker_wins() {
    let mut db = DatabaseManager::new();
    let s1 = db.insert_speaker(&embedding_blob(&[1.0, 0.0])).unwrap();
    let s2 = db.insert_speaker(&embedding_blob(&[0.9, 0.1])).unwrap();
    // Distances to a probe: the second is closer; both under threshold.
    let hit = db.get_speaker_from_embedding(&vec![400_000, 100_000]).unwrap();
    assert_eq!(hit.id, s2.id);
    let hit = db.get_speaker_from_embedding(&vec![100_000, 400_000]).unwrap();
    assert_eq!(hit.id, s1.id);
}

#[test]
fn speaker_naming_and_lookup() {
    let mut db = DatabaseManager::new();
    assert!(matches!(db.get_speaker_by_id(1), Err(DbError::NotFound)));
    let sp = db.insert_speaker(&embedding_blob(&[1.0])).unwrap();
    db.update_speaker_name(sp.id, "Alice").unwrap();
    db.update_speaker_metadata(sp.id, "{\"a\":1}").unwrap();
    let got = db.get_speaker_by_id(sp.id).unwrap();
    assert_eq!(got.name, "Alice");
    assert_eq!(got.metadata, "{\"a\":1}");
}

#[test]
fn hallucinated_speakers_leave_search() {
    let mut db = DatabaseManager::new();
    let a = db.insert_speaker(&embedding_blob(&[1.0])).unwrap();
    let b = db.insert_speaker(&embedding_blob(&[0.5])).unwrap();
    db.update_speaker_name(a.id, "Alice").unwrap();
    db.update_speaker_name(b.id, "alfred").unwrap();
    let found = db.search_speakers("al");
    assert_eq!(found.len(), 2);
    db.mark_speaker_as_hallucination(b.id).unwrap();
    let found = db.search_speakers("al");
    assert_eq!(found.len(), 1);
    assert_eq!(found[0].id, a.id);
    assert_eq!(found[0].name, "Alice");
}

#[test]
fn text_positions_with_bounds() {
    let blocks = vec![OcrBlock {
        text: "hello world".to_string(),
        conf: "0.9".to_string(),
        left: "10".to_string(),
        top: "20".to_string(),
        width: "50".to_string(),
        height: "10".to_string(),
    }];
    let positions = find_matching_positions(&blocks, "world");
    assert_eq!(positions.len(), 1);
    assert_eq!(positions[0].text, "hello world");
    assert_eq!(positions[0].confidence, 900_000);
    assert_eq!(positions[0].bounds.left, 10_000_000);
    assert_eq!(positions[0].bounds.top, 20_000_000);
    assert_eq!(positions[0].bounds.width, 50_000_000);
    assert_eq!(positions[0].bounds.height, 10_000_000);
    assert_eq!(calculate_confidence(&positions), 900_000);
}

#[test]
fn matching_is_case_insensitive_and_word_based() {
    let blocks = vec![
        OcrBlock {
            text: "Hello World".to_string(),
            conf: "0.5".to_string(),
            left: "0".to_string(),
            top: "0".to_string(),
            width: "1".to_string(),
            height: "1".to_string(),
        },
        OcrBlock {
            text: "nothing here".to_string(),
            conf: "0.5".to_string(),
            left: "0".to_string(),
            top: "0".to_string(),
            width: "1".to_string(),
            height: "1".to_string(),
        },
    ];
    let positions = find_matching_positions(&blocks, "WORLD missing");
    assert_eq!(positions.len(), 1);
    assert_eq!(positions[0].text, "Hello World");
    assert!(find_matching_positions(&blocks, "absent").is_empty());
}

#[test]
fn text_json_blocks_parse() {
    let json = r#"[{"text":"hello world","conf":"0.9","left":"10","top":"20","width":"50","height":"10"}]"#;
    let blocks = parse_blocks(json);
    assert_eq!(blocks.len(), 1);
    assert_eq!(blocks[0].text, "hello world");
    assert_eq!(blocks[0].conf, "0.9");
    assert_eq!(blocks[0].left, "10");
    let none = parse_blocks("this is not a document");
    assert!(none.is_empty());
}

#[test]
fn decimal_parsing_to_micros() {
    assert_eq!(parse_decimal_micros("0.9"), 900_000);
    assert_eq!(parse_decimal_micros("3.14"), 3_140_000);
    assert_eq!(parse_decimal_micros("-2.5"), -2_500_000);
    assert_eq!(parse_decimal_micros("+7"), 7_000_000);
    assert_eq!(parse_decimal_micros(".5"), 500_000);
    assert_eq!(parse_decimal_micros("3."), 3_000_000);
    assert_eq!(parse_decimal_micros("not a number"), 0);
    assert_eq!(parse_decimal_micros(""), 0);
    assert_eq!(parse_decimal_micros("1.2.3"), 0);
}

#[test]
fn confidence_is_the_mean() {
    let blocks = vec![
        OcrBlock {
            text: "match one".to_string(),
            conf: "0.8".to_string(),
            left: "0".to_string(),
            top: "0".to_string(),
            width: "1".to_string(),
            height: "1".to_string(),
        },
        OcrBlock {
            text: "match two".to_string(),
            conf: "0.4".to_string(),
            left: "0".to_string(),
            top: "0".to_string(),
            width: "1".to_string(),
            height: "1".to_string(),
        },
    ];
    let positions = find_matching_positions(&blocks, "match");
    assert_eq!(positions.len(), 2);
    assert_eq!(calculate_confidence(&positions), 600_000);
    let empty = find_matching_positions(&blocks, "zzz");
    assert_eq!(calculate_confidence(&empty), 0);
}

#[test]
fn imported_video_gets_dense_frames() {
    let mut db = DatabaseManager::new();
    let meta = VideoMetadata { creation_time: 1_000, name: None, device_name: None };
    let ids = db.create_video_with_frames("/videos/import.mp4", &vec![0, 40, 80], &meta).unwrap();
    assert_eq!(ids.len(), 3);
    assert_eq!(db.video_chunks.len(), 1);
    assert_eq!(db.video_chunks[0].device_name, "imported_files");
    assert_eq!(db.frames.len(), 3);
    for (k, f) in db.frames.iter().enumerate() {
        assert_eq!(f.offset_index, k as i64);
        assert_eq!(f.timestamp, 1_000 + 40 * k as i64);
        assert_eq!(f.name, "/videos/import.mp4");
    }
}

#[test]
fn frame_renames() {
    let mut db = DatabaseManager::new();
    let chunk = db.insert_video_chunk("/videos/v.mp4", "D").unwrap();
    let f1 = db.insert_frame("D", Some(1), None).unwrap();
    let _f2 = db.insert_frame("D", Some(2), None).unwrap();
    db.update_frame_name(f1, "first").unwrap();
    assert_eq!(db.frames[0].name, "first");
    assert_eq!(db.frames[1].name, "/videos/v.mp4");
    db.update_video_chunk_frames_names(chunk, "bulk").unwrap();
    assert_eq!(db.frames[0].name, "bulk");
    assert_eq!(db.frames[1].name, "bulk");
}

#[test]
fn ui_rows_and_embeddings() {
    let mut db = DatabaseManager::new();
    let id = db.insert_ui_monitoring("menu File Edit", Some(99), "Finder", "Desktop", None).unwrap();
    assert_eq!(db.ui_rows.len(), 1);
    assert_eq!(db.ui_rows[0].id, id);
    assert_eq!(db.ui_rows[0].text_length, 14);
    db.insert_video_chunk("/videos/v.mp4", "D").unwrap();
    let fid = db.insert_frame("D", Some(1), None).unwrap();
    db.insert_embeddings(fid, "[0.25, 0.75]".to_string()).unwrap();
    assert_eq!(db.ocr_embeddings.len(), 1);
}

#[test]
fn repair_outcome_checks_for_ok() {
    assert!(repair_outcome("ok").is_ok());
    let r = repair_outcome("row 17 missing from index");
    match r {
        Err(DbError::Corruption { message }) => {
            assert_eq!(message, "row 17 missing from index");
        }
        _ => panic!("expected corruption"),
    }
}

#[test]
fn frame_lookup_returns_video_path_and_offset() {
    let mut db = DatabaseManager::new();
    db.insert_video_chunk("/videos/v.mp4", "D").unwrap();
    let f1 = db.insert_frame("D", Some(1), None).unwrap();
    let f2 = db.insert_frame("D", Some(2), None).unwrap();
    assert_eq!(db.get_frame(f1), Some(("/videos/v.mp4".to_string(), 0)));
    assert_eq!(db.get_frame(f2), Some(("/videos/v.mp4".to_string(), 1)));
    assert!(db.get_frame(999).is_none());
}

#[test]
fn text_lengths_count_bytes() {
    let mut db = DatabaseManager::new();
    db.insert_video_chunk("/videos/v.mp4", "D").unwrap();
    let fid = db.insert_frame("D", Some(1), None).unwrap();
    db.insert_ocr_text(fid, "héllo", "[]", "app", "win", "engine", false).unwrap();
    assert_eq!(db.ocr[0].text_length, 6);
}

#[test]
fn exponent_forms_parse() {
    assert_eq!(parse_decimal_micros("1e3"), 1_000_000_000);
    assert_eq!(parse_decimal_micros("1.5e-1"), 150_000);
    assert_eq!(parse_decimal_micros("2E2"), 200_000_000);
    assert_eq!(parse_decimal_micros("0e999999999999999999999999"), 0);
    assert_eq!(parse_decimal_micros("1e999999999999999999999999"), i64::MAX);
    assert_eq!(parse_decimal_micros("-1e40"), -i64::MAX);
    assert_eq!(parse_decimal_micros("1e"), 0);
    assert_eq!(parse_decimal_micros("1e+2"), 100_000_000);
    assert_eq!(parse_decimal_micros("123456789012345678901"), i64::MAX);
}

#[test]
fn embeddings_need_a_frame() {
    let mut db = DatabaseManager::new();
    let err = db.insert_embeddings(5, "[0.5]".to_string());
    assert!(matches!(err, Err(DbError::IntegrityViolation)));
    db.insert_video_chunk("/videos/v.mp4", "D").unwrap();
    let fid = db.insert_frame("D", Some(1), None).unwrap();
    db.insert_embeddings(fid, "[0.5]".to_string()).unwrap();
    assert_eq!(db.ocr_embeddings.len(), 1);
}

fn seed_all_modalities(db: &mut DatabaseManager) {
    db.insert_video_chunk("/videos/v.mp4", "D").unwrap();
    for k in 0..10 {
        let fid = db.insert_frame("D", Some(100 + 3 * k), None).unwrap();
        db.insert_ocr_text(fid, &format!("ocr text {}", k), "[]", "app", "win", "eng", false)
            .unwrap();
    }
    let dev = screenpipe_db::types::AudioDevice { name: "mic".to_string(), is_input: true };
    for k in 0..10 {
        let chunk = db.get_or_insert_audio_chunk(&format!("/audio/{}.wav", k)).unwrap();
        db.insert_audio_transcription(
            chunk,
            &format!("audio words {}", k),
            0,
            "whisper",
            &dev,
            None,
            Some(101 + 3 * k),
            None,
        )
        .unwrap();
        let t = db.transcriptions.len() - 1;
        db.transcriptions[t].timestamp = 101 + 3 * k;
    }
    for k in 0..10 {
        db.insert_ui_monitoring(&format!("ui text {}", k), Some(102 + 3 * k), "Finder", "Desk", None)
            .unwrap();
    }
}

#[test]
fn search_all_paginates_after_merge_sort() {
    let mut db = DatabaseManager::new();
    seed_all_modalities(&mut db);
    let none: Vec<i64> = Vec::new();
    let first = db.search("", ContentType::All, 5, 0, None, None, None, None, None, None, &none, None);
    assert_eq!(first.len(), 5);
    let ts = |r: &SearchResult| match r {
        SearchResult::OCR(x) => x.timestamp,
        SearchResult::Audio(x) => x.timestamp,
        SearchResult::UI(x) => x.timestamp,
    };
    let expected: Vec<i64> = vec![129, 128, 127, 126, 125];
    let got: Vec<i64> = first.iter().map(ts).collect();
    assert_eq!(got, expected);
    // Sub-queries paginate before the merge and the offset applies once
    // more after the sort, so a later page skips more recent rows — the
    // documented cross-modality pagination quirk.
    let second = db.search("", ContentType::All, 5, 5, None, None, None, None, None, None, &none, None);
    let got2: Vec<i64> = second.iter().map(ts).collect();
    assert_eq!(got2, vec![109, 108, 107, 106, 105]);
}

#[test]
fn count_matches_search_for_singletons() {
    let mut db = DatabaseManager::new();
    seed_all_modalities(&mut db);
    let none: Vec<i64> = Vec::new();
    for ct in [ContentType::OCR, ContentType::Audio, ContentType::UI] {
        let count =
            db.count_search_results("", ct, None, None, None, None, None, None, &none, None);
        let rows =
            db.search("", ct, u32::MAX, 0, None, None, None, None, None, None, &none, None);
        assert_eq!(count, rows.len());
        assert_eq!(count, 10);
    }
    let combo = db.count_search_results(
        "",
        ContentType::AudioAndUi,
        None,
        None,
        None,
        None,
        None,
        None,
        &none,
        None,
    );
    assert_eq!(combo, 0);
}

#[test]
fn hallucinated_speakers_leave_audio_search() {
    let mut db = DatabaseManager::new();
    let dev = screenpipe_db::types::AudioDevice { name: "mic".to_string(), is_input: true };
    let sp = db.insert_speaker(&embedding_blob(&[1.0])).unwrap();
    let chunk = db.get_or_insert_audio_chunk("/audio/h.wav").unwrap();
    db.insert_audio_transcription(chunk, "spooky words", 0, "whisper", &dev, Some(sp.id), None, None)
        .unwrap();
    let none: Vec<i64> = Vec::new();
    let before = db.search_audio("", 10, 0, None, None, None, None, &none);
    assert_eq!(before.len(), 1);
    assert_eq!(before[0].speaker.as_ref().unwrap().id, sp.id);
    db.mark_speaker_as_hallucination(sp.id).unwrap();
    let after = db.search_audio("", 10, 0, None, None, None, None, &none);
    assert!(after.is_empty());
}

#[test]
fn merge_moves_everything_to_the_kept_speaker() {
    let mut db = DatabaseManager::new();
    let dev = screenpipe_db::types::AudioDevice { name: "mic".to_string(), is_input: true };
    let s1 = db.insert_speaker(&embedding_blob(&[1.0, 0.0])).unwrap();
    let s2 = db.insert_speaker(&embedding_blob(&[0.0, 1.0])).unwrap();
    let chunk = db.get_or_insert_audio_chunk("/audio/m.wav").unwrap();
    for k in 0..2 {
        db.insert_audio_transcription(chunk, "a", k, "w", &dev, Some(s1.id), None, None).unwrap();
        db.insert_audio_transcription(chunk, "b", k, "w", &dev, Some(s2.id), None, None).unwrap();
    }
    let kept = db.merge_speakers(s1.id, s2.id).unwrap();
    assert_eq!(kept.id, s1.id);
    assert!(matches!(db.get_speaker_by_id(s2.id), Err(DbError::NotFound)));
    let ids = vec![s1.id];
    let rows = db.search_audio("", 10, 0, None, None, None, None, &ids);
    assert_eq!(rows.len(), 4);
    assert!(db.speaker_embeddings.iter().all(|e| e.speaker_id == s1.id));
}

#[test]
fn delete_speaker_clears_every_reference() {
    let mut db = DatabaseManager::new();
    let dev = screenpipe_db::types::AudioDevice { name: "mic".to_string(), is_input: true };
    let sp = db.insert_speaker(&embedding_blob(&[1.0])).unwrap();
    let chunk = db.get_or_insert_audio_chunk("/audio/d.wav").unwrap();
    db.insert_audio_transcription(chunk, "bye", 0, "w", &dev, Some(sp.id), None, None).unwrap();
    db.delete_speaker(sp.id).unwrap();
    assert!(db.speakers.iter().all(|s| s.id != sp.id));
    assert!(db.speaker_embeddings.iter().all(|e| e.speaker_id != sp.id));
    assert!(db.transcriptions.iter().all(|t| t.speaker_id != Some(sp.id)));
    assert_eq!(db.audio_chunks.len(), 1);
}

#[test]
fn text_position_search_orders_and_extracts() {
    let mut db = DatabaseManager::new();
    db.insert_video_chunk("/videos/v.mp4", "D").unwrap();
    let json = r#"[{"text":"hello world","conf":"0.9","left":"10","top":"20","width":"50","height":"10"}]"#;
    for k in 0..3 {
        let fid = db.insert_frame("D", Some(10 + k), None).unwrap();
        db.insert_ocr_text(fid, "hello world", json, "term", "win", "eng", false).unwrap();
    }
    let apps: Vec<String> = Vec::new();
    let asc = db.search_with_text_positions("world", 10, 0, None, None, false, Order::Ascending, &apps);
    assert_eq!(asc.len(), 3);
    assert_eq!(asc[0].timestamp, 10);
    assert_eq!(asc[2].timestamp, 12);
    assert_eq!(asc[0].text_positions.len(), 1);
    assert_eq!(asc[0].confidence, 900_000);
    assert_eq!(asc[0].text_positions[0].bounds.left, 10_000_000);
    let desc = db.search_with_text_positions("WORLD", 2, 0, None, None, true, Order::Descending, &apps);
    assert_eq!(desc.len(), 2);
    assert_eq!(desc[0].timestamp, 12);
    let whitelist = vec!["other".to_string()];
    let none = db.search_with_text_positions("world", 10, 0, None, None, false, Order::Ascending, &whitelist);
    assert!(none.is_empty());
}

#[test]
fn vector_search_orders_by_distance() {
    let mut db = DatabaseManager::new();
    db.insert_video_chunk("/videos/v.mp4", "D").unwrap();
    let mut fids = Vec::new();
    for k in 0..3 {
        let fid = db.insert_frame("D", Some(10 + k), None).unwrap();
        db.insert_ocr_text(fid, &format!("text {}", k), "[]", "app", "win", "eng", false).unwrap();
        db.insert_embeddings(fid, format!("[0.{}]", k)).unwrap();
        fids.push(fid);
    }
    let dists: Vec<u32> = vec![300_000, 100_000, 900_000];
    let got = db.search_similar_embeddings(&dists, 10, 500_000);
    assert_eq!(got.len(), 2);
    assert_eq!(got[0].frame_id, fids[1]);
    assert_eq!(got[1].frame_id, fids[0]);
    let capped = db.search_similar_embeddings(&dists, 1, 500_000);
    assert_eq!(capped.len(), 1);
}

#[test]
fn latest_timestamps_and_speaker_chunks() {
    let mut db = DatabaseManager::new();
    assert_eq!(db.get_latest_timestamps(), (None, None, None));
    let dev = screenpipe_db::types::AudioDevice { name: "mic".to_string(), is_input: true };
    db.insert_video_chunk("/videos/v.mp4", "D").unwrap();
    db.insert_frame("D", Some(50), None).unwrap();
    db.insert_frame("D", Some(40), None).unwrap();
    let sp = db.insert_speaker(&embedding_blob(&[1.0])).unwrap();
    let chunk = db.get_or_insert_audio_chunk("/audio/a.wav").unwrap();
    db.insert_audio_transcription(chunk, "x", 0, "w", &dev, Some(sp.id), Some(7), None).unwrap();
    db.insert_audio_transcription(chunk, "y", 1, "w", &dev, Some(sp.id), None, None).unwrap();
    db.insert_ui_monitoring("menu", Some(99), "app", "win", None).unwrap();
    let (f, _a, u) = db.get_latest_timestamps();
    assert_eq!(f, Some(50));
    assert_eq!(u, Some(99));
    let chunks = db.get_audio_chunks_for_speaker(sp.id);
    assert_eq!(chunks.len(), 2);
    assert_eq!(chunks[0].start_time, None);
    assert_eq!(chunks[1].start_time, Some(7));
}

#[test]
fn word_splitting_covers_unicode_whitespace() {
    let blocks = vec![OcrBlock {
        text: "hello world".to_string(),
        conf: "1".to_string(),
        left: "0".to_string(),
        top: "0".to_string(),
        width: "0".to_string(),
        height: "0".to_string(),
    }];
    // The words of the query are split on a no-break space.
    let q = format!("absent\u{a0}world");
    let positions = find_matching_positions(&blocks, &q);
    assert_eq!(positions.len(), 1);
}
