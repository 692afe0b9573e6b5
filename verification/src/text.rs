//! Text machinery: character extraction, equality, ASCII case folding
//! (the folding the store applies in `LIKE` and full-text comparisons),
//! substring and word matching, and the match predicates of the search
//! engine.

use vstd::prelude::*;

verus! {

// ---------------------------------------------------------------------------
// Characters
// ---------------------------------------------------------------------------

/// Collect the characters of `s`.
pub fn chars_of(s: &str) -> (r: Vec<char>)
    ensures
        r@ == s@,
{
    let n = s.unicode_len();
    let mut r: Vec<char> = Vec::new();
    let mut i: usize = 0;
    while i < n
        invariant
            i <= n,
            n == s@.len(),
            r@ == s@.subrange(0, i as int),
        decreases n - i,
    {
        r.push(s.get_char(i));
        i = i + 1;
        proof {
            assert(r@ =~= s@.subrange(0, i as int));
        }
    }
    proof {
        assert(r@ =~= s@);
    }
    r
}

/// Character-for-character equality of two strings.
pub fn str_eq(a: &str, b: &str) -> (r: bool)
    ensures
        r == (a@ == b@),
{
    let na = a.unicode_len();
    let nb = b.unicode_len();
    if na != nb {
        return false;
    }
    let mut i: usize = 0;
    while i < na
        invariant
            i <= na,
            na == a@.len(),
            na == b@.len(),
            forall|k: int| 0 <= k < i ==> a@[k] == b@[k],
        decreases na - i,
    {
        if a.get_char(i) != b.get_char(i) {
            return false;
        }
        i = i + 1;
    }
    proof {
        assert(a@ =~= b@);
    }
    true
}

// ---------------------------------------------------------------------------
// ASCII case folding
// ---------------------------------------------------------------------------

/// The ASCII-only lowercase fold the embedded store applies in `LIKE`
/// and full-text comparisons.
pub open spec fn ascii_lower_char(c: char) -> char {
    if 65 <= c as u32 <= 90 {
        ((c as u32 + 32) as u8) as char
    } else {
        c
    }
}

pub open spec fn ascii_lower_of(s: Seq<char>) -> Seq<char> {
    s.map_values(|c: char| ascii_lower_char(c))
}

/// ASCII-lowercase the characters of `s`.
pub fn ascii_lower(s: &str) -> (r: Vec<char>)
    ensures
        r@ == ascii_lower_of(s@),
{
    let n = s.unicode_len();
    let mut r: Vec<char> = Vec::new();
    let mut i: usize = 0;
    while i < n
        invariant
            i <= n,
            n == s@.len(),
            r@ == ascii_lower_of(s@.subrange(0, i as int)),
        decreases n - i,
    {
        let c = s.get_char(i);
        let lc: char = if c >= 'A' && c <= 'Z' {
            ((c as u32 + 32) as u8) as char
        } else {
            c
        };
        r.push(lc);
        i = i + 1;
        proof {
            assert(lc == ascii_lower_char(s@[i - 1]));
            assert(r@ =~= ascii_lower_of(s@.subrange(0, i as int)));
        }
    }
    proof {
        assert(r@ =~= ascii_lower_of(s@));
    }
    r
}

// ---------------------------------------------------------------------------
// Substring containment
// ---------------------------------------------------------------------------

/// `needle` occurs contiguously inside `hay`.
pub open spec fn seq_contains_sub(hay: Seq<char>, needle: Seq<char>) -> bool {
    exists|i: int|
        0 <= i && i + needle.len() <= hay.len() && #[trigger] hay.subrange(
            i,
            i + needle.len() as int,
        ) == needle
}

/// Naive substring search.
pub fn contains_sub(hay: &Vec<char>, needle: &Vec<char>) -> (r: bool)
    ensures
        r == seq_contains_sub(hay@, needle@),
{
    let nh = hay.len();
    let nn = needle.len();
    if nn > nh {
        proof {
            assert(!seq_contains_sub(hay@, needle@));
        }
        return false;
    }
    if nn == 0 {
        proof {
            assert(hay@.subrange(0, 0 + needle@.len() as int) =~= needle@);
            assert(seq_contains_sub(hay@, needle@));
        }
        return true;
    }
    let mut i: usize = 0;
    while i <= nh - nn
        invariant
            1 <= nn <= nh,
            nh == hay@.len(),
            nn == needle@.len(),
            i <= nh - nn + 1,
            forall|k: int|
                0 <= k < i ==> #[trigger] hay@.subrange(k, k + needle@.len() as int) != needle@,
        decreases nh - i,
    {
        let mut j: usize = 0;
        let mut hit = true;
        while j < nn
            invariant
                i + nn <= nh,
                nh == hay@.len(),
                nn == needle@.len(),
                j <= nn,
                hit ==> forall|k: int| 0 <= k < j ==> hay@[i + k] == needle@[k],
                !hit ==> hay@.subrange(i as int, i + needle@.len() as int) != needle@,
            decreases nn - j,
        {
            if hay[i + j] != needle[j] {
                proof {
                    let jj = j as int;
                    assert(hay@.subrange(i as int, i + needle@.len() as int)[jj] != needle@[jj]);
                }
                hit = false;
                j = nn;
            } else {
                j = j + 1;
            }
        }
        if hit {
            proof {
                assert(hay@.subrange(i as int, i + needle@.len() as int) =~= needle@);
            }
            return true;
        }
        i = i + 1;
    }
    proof {
        assert forall|k: int| 0 <= k && k + needle@.len() <= hay@.len() implies #[trigger] hay@
            .subrange(k, k + needle@.len() as int) != needle@ by {
            assert(k < i);
        }
    }
    false
}

// ---------------------------------------------------------------------------
// Whitespace-separated words
// ---------------------------------------------------------------------------

/// The whitespace characters words are split on: the Unicode
/// white-space set, as `split_whitespace` divides a query.
pub open spec fn is_space(c: char) -> bool {
    ||| ('\u{9}' <= c && c <= '\u{d}')
    ||| c == ' '
    ||| c == '\u{85}'
    ||| c == '\u{a0}'
    ||| c == '\u{1680}'
    ||| ('\u{2000}' <= c && c <= '\u{200a}')
    ||| c == '\u{2028}'
    ||| c == '\u{2029}'
    ||| c == '\u{202f}'
    ||| c == '\u{205f}'
    ||| c == '\u{3000}'
}

fn is_space_char(c: char) -> (r: bool)
    ensures
        r == is_space(c),
{
    ('\u{9}' <= c && c <= '\u{d}') || c == ' ' || c == '\u{85}' || c == '\u{a0}'
        || c == '\u{1680}' || ('\u{2000}' <= c && c <= '\u{200a}') || c == '\u{2028}'
        || c == '\u{2029}' || c == '\u{202f}' || c == '\u{205f}' || c == '\u{3000}'
}

/// `[i, j)` delimits a maximal whitespace-free run of `q`: a word.
pub open spec fn is_word_range(q: Seq<char>, i: int, j: int) -> bool {
    &&& 0 <= i < j <= q.len()
    &&& (i == 0 || is_space(q[i - 1]))
    &&& (j == q.len() || is_space(q[j]))
    &&& forall|k: int| i <= k < j ==> !is_space(#[trigger] q[k])
}

/// Some word of `q` occurs inside `t`.
pub open spec fn any_word_in(q: Seq<char>, t: Seq<char>) -> bool {
    exists|i: int, j: int| is_word_range(q, i, j) && seq_contains_sub(t, q.subrange(i, j))
}

/// Scan the words of `q` and test each for containment in `t`.
pub fn any_word_contained(t: &Vec<char>, q: &Vec<char>) -> (r: bool)
    ensures
        r == any_word_in(q@, t@),
{
    let n = q.len();
    let mut pos: usize = 0;
    while pos < n
        invariant
            pos <= n,
            n == q@.len(),
            forall|i: int, j: int|
                is_word_range(q@, i, j) && i < pos ==> !seq_contains_sub(t@, q@.subrange(i, j)),
        decreases n - pos,
    {
        if is_space_char(q[pos]) {
            pos = pos + 1;
        } else {
            let ws = pos;
            let start_ok = ws == 0 || is_space_char(q[ws - 1]);
            let mut we: usize = pos;
            while we < n && !is_space_char(q[we])
                invariant
                    ws <= we <= n,
                    n == q@.len(),
                    forall|k: int| ws <= k < we ==> !is_space(#[trigger] q@[k]),
                decreases n - we,
            {
                we = we + 1;
            }
            if start_ok {
                let mut word: Vec<char> = Vec::new();
                let mut k: usize = ws;
                while k < we
                    invariant
                        ws <= k <= we <= n,
                        n == q@.len(),
                        word@ == q@.subrange(ws as int, k as int),
                    decreases we - k,
                {
                    word.push(q[k]);
                    k = k + 1;
                    proof {
                        assert(word@ =~= q@.subrange(ws as int, k as int));
                    }
                }
                if contains_sub(t, &word) {
                    proof {
                        assert(is_word_range(q@, ws as int, we as int));
                    }
                    return true;
                }
            }
            proof {
                assert forall|i: int, j: int|
                    is_word_range(q@, i, j) && i < we implies !seq_contains_sub(
                    t@,
                    q@.subrange(i, j),
                ) by {
                    if i >= ws {
                        // A word cannot start strictly inside the run, and the
                        // run's word ends exactly at `we`.
                        assert(i == ws) by {
                            if i > ws {
                                assert(!is_space(q@[i - 1]));
                            }
                        }
                        assert(start_ok);
                        assert(j == we) by {
                            if j < we {
                                assert(!is_space(q@[j]));
                            }
                            if j > we {
                                assert(we < n);
                                assert(is_space(q@[we as int]));
                            }
                        }
                    }
                }
            }
            pos = we;
        }
    }
    proof {
        assert forall|i: int, j: int| is_word_range(q@, i, j) implies !seq_contains_sub(
            t@,
            q@.subrange(i, j),
        ) by {
            assert(i < pos);
        }
    }
    false
}

// ---------------------------------------------------------------------------
// The match predicates of the search engine
// ---------------------------------------------------------------------------

/// The case-insensitive `LIKE 'prefix%'` filter.
pub open spec fn like_prefix(hay: Seq<char>, prefix: Seq<char>) -> bool {
    prefix.len() <= hay.len() && ascii_lower_of(hay).subrange(0, prefix.len() as int)
        == ascii_lower_of(prefix)
}

pub fn like_prefix_exec(hay: &str, prefix: &str) -> (r: bool)
    ensures
        r == like_prefix(hay@, prefix@),
{
    let h = ascii_lower(hay);
    let p = ascii_lower(prefix);
    if p.len() > h.len() {
        return false;
    }
    let mut i: usize = 0;
    while i < p.len()
        invariant
            p@.len() <= h@.len(),
            i <= p@.len(),
            h@ == ascii_lower_of(hay@),
            p@ == ascii_lower_of(prefix@),
            forall|k: int| 0 <= k < i ==> h@[k] == p@[k],
        decreases p@.len() - i,
    {
        if h[i] != p[i] {
            proof {
                let ii = i as int;
                assert(ascii_lower_of(hay@).subrange(0, prefix@.len() as int)[ii] != p@[ii]);
            }
            return false;
        }
        i = i + 1;
    }
    proof {
        assert(ascii_lower_of(hay@).subrange(0, prefix@.len() as int) =~= p@);
    }
    true
}

// ---------------------------------------------------------------------------
// The match predicates of the search engine
// ---------------------------------------------------------------------------

/// The engine's full-text match: an empty query matches everything;
/// otherwise the text must contain the query whole or any of its words,
/// under the store's ASCII case fold.
pub open spec fn text_matches(q: Seq<char>, t: Seq<char>) -> bool {
    ||| q.len() == 0
    ||| seq_contains_sub(ascii_lower_of(t), ascii_lower_of(q))
    ||| any_word_in(ascii_lower_of(q), ascii_lower_of(t))
}

pub fn text_matches_exec(q: &str, t: &str) -> (r: bool)
    ensures
        r == text_matches(q@, t@),
{
    if q.unicode_len() == 0 {
        return true;
    }
    let ql = ascii_lower(q);
    let tl = ascii_lower(t);
    if contains_sub(&tl, &ql) {
        return true;
    }
    any_word_contained(&tl, &ql)
}

/// The case-insensitive `LIKE '%needle%'` filter.
pub open spec fn like_contains(hay: Seq<char>, needle: Seq<char>) -> bool {
    seq_contains_sub(ascii_lower_of(hay), ascii_lower_of(needle))
}

pub fn like_contains_exec(hay: &str, needle: &str) -> (r: bool)
    ensures
        r == like_contains(hay@, needle@),
{
    let h = ascii_lower(hay);
    let n = ascii_lower(needle);
    contains_sub(&h, &n)
}

} // verus!
