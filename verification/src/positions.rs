//! Position-level match extraction: which OCR blocks of a frame match a
//! query, with their confidences and bounds parsed from the engine's
//! decimal strings, and the aggregate confidence of a match set.

use vstd::prelude::*;

use crate::num::{decimal_micros, parse_decimal_micros};
use crate::order::{insert_ordered, lemma_insert_ordered_at, page, paginate, sort_ordered};
use crate::store::{find_by_key, DatabaseManager, DbView, Keyed};
use crate::text::{
    any_word_contained, any_word_in, ascii_lower, ascii_lower_of, chars_of, contains_sub,
    seq_contains_sub, str_eq,
};
use crate::types::{
    FrameRowV, OcrBlock, OcrBlockV, OcrRowV, Order, SearchMatch, SearchMatchV, TextBounds,
    TextPosition, TextPositionV,
};

verus! {

/// Relies on serde_json's `from_str`: the OCR blocks a `text_json`
/// document denotes, a function of the characters alone; a document that
/// does not parse denotes no blocks.
pub uninterp spec fn blocks_of(s: Seq<char>) -> Seq<OcrBlockV>;

/// Relies on str::to_lowercase: the Unicode lowercase of the text, a
/// function of the characters alone.
pub uninterp spec fn lower_of(s: Seq<char>) -> Seq<char>;

/// Relies on serde_json's `from_str` to read a `text_json` document as
/// an array of string-valued records; a failed parse yields no blocks,
/// and a missing field its empty default.
#[verifier::external_body]
pub fn parse_blocks(s: &str) -> (r: Vec<OcrBlock>)
    ensures
        r@.map_values(|b: OcrBlock| b@) == blocks_of(s@),
{
    let maps: Vec<std::collections::HashMap<String, String>> =
        serde_json::from_str(s).unwrap_or_default();
    maps.into_iter().map(|mut m| OcrBlock {
        text: m.remove("text").unwrap_or_default(),
        conf: m.remove("conf").unwrap_or_default(),
        left: m.remove("left").unwrap_or_default(),
        top: m.remove("top").unwrap_or_default(),
        width: m.remove("width").unwrap_or_default(),
        height: m.remove("height").unwrap_or_default(),
    }).collect()
}

/// Relies on str::to_lowercase; an empty text stays empty.
#[verifier::external_body]
pub fn lowercase(s: &str) -> (r: String)
    ensures
        r@ == lower_of(s@),
        s@.len() == 0 ==> r@.len() == 0,
{
    s.to_lowercase()
}

/// A block matches a query when its lowercased text contains the whole
/// lowercased query, or any of the query's whitespace-separated words.
pub open spec fn block_matches(text: Seq<char>, query: Seq<char>) -> bool {
    ||| seq_contains_sub(lower_of(text), lower_of(query))
    ||| any_word_in(lower_of(query), lower_of(text))
}

/// The millionths a stored decimal field denotes, with zero for anything
/// that does not parse.
pub open spec fn field_micros(s: Seq<char>) -> i64 {
    match decimal_micros(s) {
        Some(v) => v as i64,
        None => 0,
    }
}

/// The position record of a matched block.
pub open spec fn position_of_block(b: OcrBlockV) -> TextPositionV {
    TextPositionV {
        text: b.text,
        confidence: field_micros(b.conf),
        bounds: TextBounds {
            left: field_micros(b.left),
            top: field_micros(b.top),
            width: field_micros(b.width),
            height: field_micros(b.height),
        },
    }
}

/// The positions of every matching block, in block order.
pub open spec fn spec_matching_positions(blocks: Seq<OcrBlockV>, query: Seq<char>) -> Seq<
    TextPositionV,
>
    decreases blocks.len(),
{
    if blocks.len() == 0 {
        Seq::empty()
    } else {
        let rest = spec_matching_positions(blocks.drop_last(), query);
        if block_matches(blocks.last().text, query) {
            rest.push(position_of_block(blocks.last()))
        } else {
            rest
        }
    }
}

/// Extract the blocks that match `query`, parsing each matched block's
/// confidence and bounds into millionths (zero when a field does not
/// parse).
pub fn find_matching_positions(blocks: &Vec<OcrBlock>, query: &str) -> (r: Vec<TextPosition>)
    ensures
        r@.map_values(|p: TextPosition| p@) == spec_matching_positions(
            blocks@.map_values(|b: OcrBlock| b@),
            query@,
        ),
{
    broadcast use Seq::lemma_push_map_commute;

    let query_lower = lowercase(query);
    let ql = chars_of(query_lower.as_str());
    let n = blocks.len();
    let mut r: Vec<TextPosition> = Vec::new();
    let mut i: usize = 0;
    while i < n
        invariant
            i <= n,
            n == blocks@.len(),
            ql@ == lower_of(query@),
            r@.map_values(|p: TextPosition| p@) == spec_matching_positions(
                blocks@.map_values(|b: OcrBlock| b@).subrange(0, i as int),
                query@,
            ),
        decreases n - i,
    {
        let ghost bv = blocks@.map_values(|b: OcrBlock| b@);
        proof {
            assert(bv.subrange(0, i + 1).drop_last() =~= bv.subrange(0, i as int));
            assert(bv.subrange(0, i + 1).last() == bv[i as int]);
        }
        let ghost prev_r = r@;
        let text_lower = lowercase(blocks[i].text.as_str());
        let tl = chars_of(text_lower.as_str());
        let hit = contains_sub(&tl, &ql) || crate::text::any_word_contained(&tl, &ql);
        proof {
            assert(hit == block_matches(bv[i as int].text, query@));
        }
        if hit {
            let p = TextPosition {
                text: blocks[i].text.clone(),
                confidence: parse_decimal_micros(blocks[i].conf.as_str()),
                bounds: TextBounds {
                    left: parse_decimal_micros(blocks[i].left.as_str()),
                    top: parse_decimal_micros(blocks[i].top.as_str()),
                    width: parse_decimal_micros(blocks[i].width.as_str()),
                    height: parse_decimal_micros(blocks[i].height.as_str()),
                },
            };
            proof {
                assert(p@ == position_of_block(bv[i as int]));
            }
            r.push(p);
        }
        i = i + 1;
        proof {
            let pref = bv.subrange(0, i as int);
            let prevp = bv.subrange(0, i - 1);
            assert(pref.drop_last() =~= prevp);
            assert(pref.last() == bv[i - 1]);
            if hit {
                assert(r@ == prev_r.push(r@.last()));
                assert(r@.last()@ == position_of_block(bv[i - 1]));
            } else {
                assert(r@ == prev_r);
            }
            assert(r@.map_values(|p: TextPosition| p@) =~= spec_matching_positions(pref, query@));
        }
    }
    proof {
        let bv = blocks@.map_values(|b: OcrBlock| b@);
        assert(bv.subrange(0, n as int) =~= bv);
    }
    r
}

/// The aggregate confidence of a match set: the mean of the matched
/// blocks' confidences (truncated toward zero), zero for no matches.
pub open spec fn spec_confidence(ps: Seq<TextPositionV>) -> int {
    if ps.len() == 0 {
        0
    } else {
        div_trunc(sum_confidence(ps), ps.len() as int)
    }
}

pub open spec fn sum_confidence(ps: Seq<TextPositionV>) -> int
    decreases ps.len(),
{
    if ps.len() == 0 {
        0
    } else {
        sum_confidence(ps.drop_last()) + ps.last().confidence
    }
}

/// Division truncating toward zero, as the machine divides.
pub open spec fn div_trunc(a: int, b: int) -> int {
    if a >= 0 {
        a / b
    } else {
        -((-a) / b)
    }
}

proof fn lemma_sum_confidence_bound(ps: Seq<TextPositionV>)
    ensures
        (ps.len() as int) * (i64::MIN as int) <= sum_confidence(ps),
        sum_confidence(ps) <= (ps.len() as int) * (i64::MAX as int),
    decreases ps.len(),
{
    if ps.len() > 0 {
        lemma_sum_confidence_bound(ps.drop_last());
        let k: int = ps.len() - 1;
        assert(k * (i64::MIN as int) + (i64::MIN as int) == (k + 1) * (i64::MIN as int))
            by (nonlinear_arith);
        assert(k * (i64::MAX as int) + (i64::MAX as int) == (k + 1) * (i64::MAX as int))
            by (nonlinear_arith);
    }
}

/// The arithmetic mean of the matched confidences.
#[verifier::rlimit(60)]
pub fn calculate_confidence(positions: &Vec<TextPosition>) -> (r: i64)
    requires
        positions@.len() < 0x1000_0000_0000_0000,
    ensures
        r as int == spec_confidence(positions@.map_values(|p: TextPosition| p@)),
{
    let n = positions.len();
    if n == 0 {
        proof {
            assert(positions@.map_values(|p: TextPosition| p@).len() == 0);
        }
        return 0;
    }
    let ghost pv = positions@.map_values(|p: TextPosition| p@);
    let mut sum: i128 = 0;
    let mut i: usize = 0;
    while i < n
        invariant
            i <= n,
            n == positions@.len(),
            n < 0x1000_0000_0000_0000,
            pv == positions@.map_values(|p: TextPosition| p@),
            sum as int == sum_confidence(pv.subrange(0, i as int)),
            (i as int) * (i64::MIN as int) <= (sum as int),
            (sum as int) <= (i as int) * (i64::MAX as int),
        decreases n - i,
    {
        proof {
            assert(pv.subrange(0, i + 1).drop_last() =~= pv.subrange(0, i as int));
            assert(pv.subrange(0, i + 1).last() == pv[i as int]);
            let k: int = i as int;
            assert(k * (i64::MIN as int) + (i64::MIN as int) == (k + 1) * (i64::MIN as int))
                by (nonlinear_arith);
            assert(k * (i64::MAX as int) + (i64::MAX as int) == (k + 1) * (i64::MAX as int))
                by (nonlinear_arith);
            assert(k * (i64::MIN as int) >= 0x1000_0000_0000_0000 * (i64::MIN as int))
                by (nonlinear_arith)
                requires
                    0 <= k <= 0x1000_0000_0000_0000,
            {}
            assert(k * (i64::MAX as int) <= 0x1000_0000_0000_0000 * (i64::MAX as int))
                by (nonlinear_arith)
                requires
                    0 <= k <= 0x1000_0000_0000_0000,
            {}
        }
        sum = sum + (positions[i].confidence as i128);
        i = i + 1;
    }
    proof {
        assert(pv.subrange(0, n as int) =~= pv);
    }
    let mean: i128 = if sum >= 0 {
        let q = (sum as u128) / (n as u128);
        proof {
            assert((sum as int) / (n as int) <= i64::MAX as int) by (nonlinear_arith)
                requires
                    (sum as int) >= 0,
                    (n as int) >= 1,
                    (sum as int) <= (n as int) * (i64::MAX as int),
            {}
            assert((sum as int) / (n as int) >= 0) by (nonlinear_arith)
                requires
                    (sum as int) >= 0,
                    (n as int) >= 1,
            {}
        }
        q as i128
    } else {
        let neg = -sum;
        let q = (neg as u128) / (n as u128);
        proof {
            assert((neg as int) / (n as int) <= 0x8000_0000_0000_0000) by (nonlinear_arith)
                requires
                    (neg as int) >= 0,
                    (n as int) >= 1,
                    (neg as int) <= (n as int) * 0x8000_0000_0000_0000,
            {}
            assert((neg as int) / (n as int) >= 0) by (nonlinear_arith)
                requires
                    (neg as int) >= 0,
                    (n as int) >= 1,
            {}
        }
        -(q as i128)
    };
    proof {
        assert(mean as int == div_trunc(sum as int, n as int));
        assert(i64::MIN as int <= mean as int <= i64::MAX as int);
    }
    mean as i64
}


// ---------------------------------------------------------------------------
// The position-level search
// ---------------------------------------------------------------------------

/// The position search's full-text filter: an empty query matches
/// everything; a fuzzy query matches when any of its words occurs, a
/// plain query when it occurs whole — both under the store's ASCII fold.
pub open spec fn positions_query_matches(fuzzy: bool, q: Seq<char>, t: Seq<char>) -> bool {
    if q.len() == 0 {
        true
    } else if fuzzy {
        any_word_in(ascii_lower_of(q), ascii_lower_of(t))
    } else {
        seq_contains_sub(ascii_lower_of(t), ascii_lower_of(q))
    }
}

/// Whether a record with timestamp `a_ts` stays before one with
/// `b_ts` under the requested ordering.
fn keeps_before(order: Order, a_ts: i64, b_ts: i64) -> (r: bool)
    ensures
        r == if order is Ascending {
            a_ts <= b_ts
        } else {
            a_ts >= b_ts
        },
{
    match order {
        Order::Ascending => a_ts <= b_ts,
        Order::Descending => a_ts >= b_ts,
    }
}

fn positions_query_matches_exec(fuzzy: bool, q: &str, t: &str) -> (r: bool)
    ensures
        r == positions_query_matches(fuzzy, q@, t@),
{
    if q.unicode_len() == 0 {
        return true;
    }
    let ql = ascii_lower(q);
    let tl = ascii_lower(t);
    if fuzzy {
        any_word_contained(&tl, &ql)
    } else {
        contains_sub(&tl, &ql)
    }
}

/// An exact app-name whitelist; an empty list disables it.
pub open spec fn app_whitelisted(apps: Seq<Seq<char>>, name: Seq<char>) -> bool {
    apps.len() == 0 || apps.contains(name)
}

fn app_whitelisted_exec(apps: &Vec<String>, name: &str) -> (r: bool)
    ensures
        r == app_whitelisted(crate::types::strs_view(apps@), name@),
{
    if apps.len() == 0 {
        return true;
    }
    let mut i: usize = 0;
    while i < apps.len()
        invariant
            i <= apps@.len(),
            forall|j: int| 0 <= j < i ==> crate::types::strs_view(apps@)[j] != name@,
        decreases apps@.len() - i,
    {
        if str_eq(apps[i].as_str(), name) {
            proof {
                assert(crate::types::strs_view(apps@)[i as int] == name@);
            }
            return true;
        }
        i = i + 1;
    }
    proof {
        if crate::types::strs_view(apps@).contains(name@) {
            let w = choose|w: int|
                0 <= w < apps@.len() && crate::types::strs_view(apps@)[w] == name@;
            assert(crate::types::strs_view(apps@)[w] != name@);
        }
    }
    false
}

/// A frame passes the position search when it carries OCR text matching
/// the query inside the window and whitelist.
pub open spec fn match_hit(
    db: DbView,
    f: FrameRowV,
    q: Seq<char>,
    start: Option<i64>,
    end: Option<i64>,
    fuzzy: bool,
    apps: Seq<Seq<char>>,
) -> bool {
    match find_by_key(db.ocr, f.id) {
        None => false,
        Some(o) => {
            &&& crate::search::time_in(f.timestamp, start, end)
            &&& app_whitelisted(apps, o.app_name)
            &&& positions_query_matches(fuzzy, q, o.text)
        },
    }
}

/// A match set's confidence, total over any length: sets beyond the
/// machine's range (which no vector can hold) count as zero.
pub open spec fn row_confidence(ps: Seq<TextPositionV>) -> i64 {
    if ps.len() < 0x1000_0000_0000_0000 {
        spec_confidence(ps) as i64
    } else {
        0
    }
}

pub open spec fn empty_search_match() -> SearchMatchV {
    SearchMatchV {
        frame_id: 0,
        timestamp: 0,
        text_positions: Seq::empty(),
        app_name: Seq::empty(),
        window_name: Seq::empty(),
        confidence: 0,
        text: Seq::empty(),
        url: None,
    }
}

/// The match record a frame produces: its positions extracted from the
/// stored blocks when the query is nonempty.
pub open spec fn match_result_of(db: DbView, f: FrameRowV, q: Seq<char>) -> SearchMatchV {
    match find_by_key(db.ocr, f.id) {
        None => empty_search_match(),
        Some(o) => {
            let ps = if q.len() == 0 {
                Seq::<TextPositionV>::empty()
            } else {
                spec_matching_positions(blocks_of(o.text_json), q)
            };
            SearchMatchV {
                frame_id: f.id,
                timestamp: f.timestamp,
                text_positions: ps,
                app_name: o.app_name,
                window_name: o.window_name,
                confidence: row_confidence(ps),
                text: o.text,
                url: f.browser_url,
            }
        },
    }
}

/// The frames that pass the filters, as match records in table order.
pub open spec fn spec_match_hits(
    db: DbView,
    rows: Seq<FrameRowV>,
    q: Seq<char>,
    start: Option<i64>,
    end: Option<i64>,
    fuzzy: bool,
    apps: Seq<Seq<char>>,
) -> Seq<SearchMatchV>
    decreases rows.len(),
{
    if rows.len() == 0 {
        Seq::empty()
    } else {
        let rest = spec_match_hits(db, rows.drop_last(), q, start, end, fuzzy, apps);
        if match_hit(db, rows.last(), q, start, end, fuzzy, apps) {
            rest.push(match_result_of(db, rows.last(), q))
        } else {
            rest
        }
    }
}

/// The requested ordering on match records; ties keep arrival order.
pub open spec fn by_match_order(o: Order) -> spec_fn(SearchMatchV, SearchMatchV) -> bool {
    if o is Ascending {
        |a: SearchMatchV, b: SearchMatchV| a.timestamp <= b.timestamp
    } else {
        |a: SearchMatchV, b: SearchMatchV| a.timestamp >= b.timestamp
    }
}

/// The position-level search: filtered frames, ordered by timestamp in
/// the requested direction, then the requested page.
pub open spec fn spec_search_with_text_positions(
    db: DbView,
    q: Seq<char>,
    limit: u32,
    offset: u32,
    start: Option<i64>,
    end: Option<i64>,
    fuzzy: bool,
    order: Order,
    apps: Seq<Seq<char>>,
) -> Seq<SearchMatchV> {
    page(
        sort_ordered(
            spec_match_hits(db, db.frames, q, start, end, fuzzy, apps),
            by_match_order(order),
        ),
        limit,
        offset,
    )
}

pub open spec fn matches_view(s: Seq<SearchMatch>) -> Seq<SearchMatchV> {
    s.map_values(|x: SearchMatch| x@)
}

impl DatabaseManager {
    /// The OCR-only search that also extracts bounding-box-level matches
    /// from each hit's stored blocks, with the mean confidence of the
    /// matched blocks. An empty `app_names` disables the whitelist.
    #[verifier::rlimit(100)]
    pub fn search_with_text_positions(
        &self,
        query: &str,
        limit: u32,
        offset: u32,
        start_time: Option<i64>,
        end_time: Option<i64>,
        fuzzy_match: bool,
        order: Order,
        app_names: &Vec<String>,
    ) -> (r: Vec<SearchMatch>)
        requires
            self@.wf(),
        ensures
            matches_view(r@) == spec_search_with_text_positions(
                self@,
                query@,
                limit,
                offset,
                start_time,
                end_time,
                fuzzy_match,
                order,
                crate::types::strs_view(app_names@),
            ),
    {
        let ghost db = self@;
        let ghost qv = query@;
        let ghost appsv = crate::types::strs_view(app_names@);
        let n = self.frames.len();
        let mut hits: Vec<SearchMatch> = Vec::new();
        let mut i: usize = 0;
        while i < n
            invariant
                self@.wf(),
                db == self@,
                qv == query@,
                appsv == crate::types::strs_view(app_names@),
                i <= n,
                n == db.frames.len(),
                matches_view(hits@) == sort_ordered(
                    spec_match_hits(
                        db,
                        db.frames.subrange(0, i as int),
                        qv,
                        start_time,
                        end_time,
                        fuzzy_match,
                        appsv,
                    ),
                    by_match_order(order),
                ),
            decreases n - i,
        {
            let ghost pref_hits = spec_match_hits(
                db,
                db.frames.subrange(0, i as int),
                qv,
                start_time,
                end_time,
                fuzzy_match,
                appsv,
            );
            proof {
                assert(db.frames.subrange(0, i + 1).drop_last() =~= db.frames.subrange(
                    0,
                    i as int,
                ));
                assert(db.frames.subrange(0, i + 1).last() == db.frames[i as int]);
            }
            let op = self.ocr_find(self.frames[i].id);
            match op {
                None => {
                    proof {
                        assert(!match_hit(
                            db,
                            db.frames[i as int],
                            qv,
                            start_time,
                            end_time,
                            fuzzy_match,
                            appsv,
                        ));
                    }
                },
                Some(ow) => {
                    let hit = crate::search::time_in_exec(
                        self.frames[i].timestamp,
                        start_time,
                        end_time,
                    ) && app_whitelisted_exec(app_names, self.ocr[ow].app_name.as_str())
                        && positions_query_matches_exec(
                        fuzzy_match,
                        query,
                        self.ocr[ow].text.as_str(),
                    );
                    proof {
                        assert(hit == match_hit(
                            db,
                            db.frames[i as int],
                            qv,
                            start_time,
                            end_time,
                            fuzzy_match,
                            appsv,
                        ));
                    }
                    if hit {
                        let ghost orow = db.ocr[ow as int];
                        let ghost ps_spec = if qv.len() == 0 {
                            Seq::<TextPositionV>::empty()
                        } else {
                            spec_matching_positions(blocks_of(orow.text_json), qv)
                        };
                        let positions: Vec<TextPosition> = if query.unicode_len() == 0 {
                            Vec::new()
                        } else {
                            let blocks = parse_blocks(self.ocr[ow].text_json.as_str());
                            find_matching_positions(&blocks, query)
                        };
                        proof {
                            assert(positions@.map_values(|x: TextPosition| x@) =~= ps_spec);
                        }
                        let confidence: i64 = if (positions.len() as u64)
                            < 0x1000_0000_0000_0000u64 {
                            calculate_confidence(&positions)
                        } else {
                            0
                        };
                        let res = SearchMatch {
                            frame_id: self.frames[i].id,
                            timestamp: self.frames[i].timestamp,
                            text_positions: positions,
                            app_name: self.ocr[ow].app_name.clone(),
                            window_name: self.ocr[ow].window_name.clone(),
                            confidence,
                            text: self.ocr[ow].text.clone(),
                            url: match &self.frames[i].browser_url {
                                Some(u) => Some(u.clone()),
                                None => None,
                            },
                        };
                        proof {
                            assert(res@.text_positions =~= ps_spec);
                            assert(positions@.len() == ps_spec.len());
                            if (positions@.len() as u64) < 0x1000_0000_0000_0000u64 {
                                assert(res@.confidence as int == spec_confidence(
                                    positions@.map_values(|x: TextPosition| x@),
                                ));
                                assert(spec_confidence(positions@.map_values(|x: TextPosition| x@))
                                    == spec_confidence(ps_spec));
                            }
                            assert(res@.confidence == row_confidence(ps_spec));
                            assert(res@ == match_result_of(db, db.frames[i as int], qv));
                        }
                        let mut j: usize = 0;
                        while j < hits.len() && keeps_before(
                            order,
                            hits[j].timestamp,
                            res.timestamp,
                        )
                            invariant
                                j <= hits@.len(),
                                forall|k: int|
                                    0 <= k < j ==> by_match_order(order)(
                                        (#[trigger] hits@[k])@,
                                        res@,
                                    ),
                            decreases hits@.len() - j,
                        {
                            proof {
                                assert(by_match_order(order)(hits@[j as int]@, res@));
                            }
                            j = j + 1;
                        }
                        let ghost sorted_pref = matches_view(hits@);
                        proof {
                            if j < hits@.len() {
                                assert(sorted_pref[j as int] == hits@[j as int]@);
                                assert(!by_match_order(order)(sorted_pref[j as int], res@));
                            }
                        }
                        hits.insert(j, res);
                        proof {
                            lemma_insert_ordered_at(
                                sorted_pref,
                                res@,
                                j as int,
                                by_match_order(order),
                            );
                            assert(matches_view(hits@) =~= sorted_pref.insert(j as int, res@));
                            assert(matches_view(hits@) == insert_ordered(
                                sorted_pref,
                                res@,
                                by_match_order(order),
                            ));
                            let newpref = spec_match_hits(
                                db,
                                db.frames.subrange(0, i + 1),
                                qv,
                                start_time,
                                end_time,
                                fuzzy_match,
                                appsv,
                            );
                            assert(newpref == pref_hits.push(res@));
                            assert(newpref.drop_last() =~= pref_hits);
                            assert(newpref.last() == res@);
                            assert(sort_ordered(newpref, by_match_order(order))
                                == insert_ordered(
                                sort_ordered(pref_hits, by_match_order(order)),
                                res@,
                                by_match_order(order),
                            ));
                        }
                    }
                },
            }
            i = i + 1;
        }
        proof {
            assert(db.frames.subrange(0, n as int) =~= db.frames);
        }
        let mut out = hits;
        paginate(&mut out, limit, offset);
        out
    }
}


} // verus!
