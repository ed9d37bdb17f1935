//! The two-tier line parser: a strict parser that recognises exactly the
//! canonical grammar, and a lenient parser that recovers fields from damaged
//! lines, order-insensitively.  `from_line` tries strict first, so canonical
//! lines never take the lossier lenient path.

use vstd::prelude::*;

use crate::scan::{is_space, is_digit, is_word, is_hex_lower, is_hex_dash, contains_at, find_at,
    run_end, trim_spec, remove_range, lemma_find_found, lemma_find_props, lemma_run_end,
    lemma_run_end_props, lemma_skip_back_props, lemma_trim_id, lemma_trim_props, skip_back,
    space_cls, word_cls, digit_cls, hex_dash_cls, byte_is_space, byte_is_digit, byte_is_word,
    byte_is_hex_dash, copy_range, remove_bytes, trim_bytes, scan_space, scan_word, scan_digit,
    scan_hex_dash, scan_back_space};
use crate::record::{TaskSpec, ParsedTask, opt_view, tag_at, date_at, prio_at, open_at, close_at,
    idtok_at, cand_at, tag_pat, date_pat, prio_pat, open_pat, close_pat, idtok_pat, cand_pat,
    xbox_lo, xbox_hi, date_shape, close_free_ext, shape_wf, marker_free, wf_task, dec_spec,
    digits_val, lemma_dec_props, lemma_digits_canonical, lemma_digits_val_bound, head_spec, due_part, prio_part, link_part,
    serialize_spec, append_bytes};
use crate::task_id::{TaskId, canon_spec, is_canon_id, hyphenated_ok, simple_ok,
    bytes_of_hyphenated, id_parse_spec, lemma_parse_canon, lemma_canon_roundtrip};

verus! {

// ---------------------------------------------------------------------------
// the strict grammar
// ---------------------------------------------------------------------------

/// A line starts with the fixed head `- [c] `, `c` a space or `x`.
pub open spec fn head_ok(l: Seq<u8>) -> bool {
    l.len() >= 6 && l[0] == 45 && l[1] == 32 && l[2] == 91 && (l[3] == 32 || l[3] == 120) && l[4]
        == 93 && l[5] == 32
}

/// The fields that follow the text of a strict line.
#[verifier::ext_equal]
pub ghost struct TailSpec {
    pub bucket: Seq<u8>,
    pub due: Option<Seq<u8>>,
    pub priority: Option<u8>,
    pub link: Option<Seq<u8>>,
    pub id: Seq<u8>,
}

/// The optional ` @dddd-dd-dd` token at `j`: present, absent, or a strict
/// mismatch.
pub open spec fn parse_due(l: Seq<u8>, j: int) -> Option<(Option<Seq<u8>>, int)> {
    if contains_at(l, j, seq![32u8, 64u8]) {
        if date_at(l, j + 1) {
            Some((Some(l.subrange(j + 2, j + 12)), j + 12))
        } else {
            None
        }
    } else {
        Some((None, j))
    }
}

/// The optional ` !n` token at `j`, `n` the canonical decimal of a priority.
pub open spec fn parse_prio(l: Seq<u8>, j: int) -> Option<(Option<u8>, int)> {
    if contains_at(l, j, seq![32u8, 33u8]) {
        let e = run_end(l, j + 2, digit_cls());
        let digits = l.subrange(j + 2, e);
        if j + 2 < e && e - (j + 2) <= 3 && (e == j + 3 || l[j + 2] != 48) && digits_val(digits)
            <= 255 {
            Some((Some(digits_val(digits) as u8), e))
        } else {
            None
        }
    } else {
        Some((None, j))
    }
}

/// The optional ` [[link]]` token at `j`; the first `]]` closes the link.
pub open spec fn parse_link(l: Seq<u8>, j: int) -> Option<(Option<Seq<u8>>, int)> {
    if contains_at(l, j, seq![32u8, 91u8, 91u8]) {
        match find_at(l, j + 3, close_pat()) {
            Some(m) => Some((Some(l.subrange(j + 3, m)), m + 2)),
            None => None,
        }
    } else {
        Some((None, j))
    }
}

/// The mandatory ` id:` token at `j`: the rest of the line must be one
/// syntactically valid id text — hyphenated in either case, or the
/// 32-digit simple form; printing normalizes it to the canonical form.
pub open spec fn parse_idtail(l: Seq<u8>, j: int) -> Option<Seq<u8>> {
    if contains_at(l, j, seq![32u8, 105u8, 100u8, 58u8]) {
        id_parse_spec(l.subrange(j + 4, l.len() as int))
    } else {
        None
    }
}

/// Everything after the text, parsed from the split candidate at `i`.
pub open spec fn tail_spec(l: Seq<u8>, i: int) -> Option<TailSpec> {
    let b_end = run_end(l, i + 2, word_cls());
    match parse_due(l, b_end) {
        None => None,
        Some((due, j1)) => match parse_prio(l, j1) {
            None => None,
            Some((prio, j2)) => match parse_link(l, j2) {
                None => None,
                Some((link, j3)) => match parse_idtail(l, j3) {
                    None => None,
                    Some(id) => Some(
                        TailSpec {
                            bucket: l.subrange(i + 2, b_end),
                            due,
                            priority: prio,
                            link,
                            id,
                        },
                    ),
                },
            },
        },
    }
}

/// The record a successful split at `i` denotes.
pub open spec fn assemble(l: Seq<u8>, i: int, f: TailSpec) -> TaskSpec {
    TaskSpec {
        completed: l[3] == 120,
        text: l.subrange(6, i),
        bucket: f.bucket,
        due: f.due,
        link: f.link,
        priority: f.priority,
        id: f.id,
    }
}

// ---------------------------------------------------------------------------
// marker tokens and acceptable text
// ---------------------------------------------------------------------------

/// End of a removal: the token's end, plus one following space when there
/// is one, so that stripping a token from between two words leaves a single
/// space.
pub open spec fn strip_end(l: Seq<u8>, e: int) -> int {
    if e < l.len() && l[e] == 32 {
        e + 1
    } else {
        e
    }
}

/// A checked checkbox sits at `i`.
pub open spec fn xbox_at(s: Seq<u8>, i: int) -> bool {
    contains_at(s, i, xbox_lo()) || contains_at(s, i, xbox_hi())
}

/// A complete link token starts at `i`: `[[` with a `]]` somewhere after.
pub open spec fn link_tok_at(s: Seq<u8>, i: int) -> bool {
    open_at(s, i) && find_at(s, i + 2, close_pat()) is Some
}

/// A marker token starts at `i`: a bucket tag, a date, a priority token, an
/// id token, a checked checkbox, or a complete link.
pub open spec fn marker_tok_at(s: Seq<u8>, i: int) -> bool {
    tag_at(s, i) || date_at(s, i) || prio_at(s, i) || idtok_at(s, i) || xbox_at(s, i)
        || link_tok_at(s, i)
}

pub open spec fn marker_pat() -> spec_fn(Seq<u8>, int) -> bool {
    |s: Seq<u8>, i: int| marker_tok_at(s, i)
}

/// End (exclusive) of the marker token at `i`, one following space included.
/// The cases are disjoint: each token kind begins with a different byte.
pub open spec fn marker_end(s: Seq<u8>, i: int) -> int {
    if tag_at(s, i) {
        strip_end(s, run_end(s, i + 1, word_cls()))
    } else if date_at(s, i) {
        strip_end(s, i + 11)
    } else if prio_at(s, i) {
        strip_end(s, run_end(s, i + 1, digit_cls()))
    } else if idtok_at(s, i) {
        strip_end(s, run_end(s, i + 3, hex_dash_cls()))
    } else if xbox_at(s, i) {
        strip_end(s, i + 3)
    } else {
        strip_end(s, find_at(s, i + 2, close_pat()).unwrap() + 2)
    }
}

/// A marker token spans at least two bytes and ends within the string.
pub proof fn lemma_marker_end_bounds(s: Seq<u8>, i: int)
    requires
        0 <= i < s.len(),
        marker_tok_at(s, i),
    ensures
        i + 2 <= marker_end(s, i) <= s.len(),
{
    if tag_at(s, i) {
        lemma_run_end_props(s, i + 1, word_cls());
        assert(run_end(s, i + 1, word_cls()) > i + 1) by {
            if run_end(s, i + 1, word_cls()) == i + 1 {
                assert(!word_cls()(s[i + 1]));
            }
        }
    } else if date_at(s, i) {
    } else if prio_at(s, i) {
        lemma_run_end_props(s, i + 1, digit_cls());
        assert(run_end(s, i + 1, digit_cls()) > i + 1) by {
            if run_end(s, i + 1, digit_cls()) == i + 1 {
                assert(!digit_cls()(s[i + 1]));
            }
        }
    } else if idtok_at(s, i) {
        lemma_run_end_props(s, i + 3, hex_dash_cls());
        assert(run_end(s, i + 3, hex_dash_cls()) > i + 3) by {
            if run_end(s, i + 3, hex_dash_cls()) == i + 3 {
                assert(!hex_dash_cls()(s[i + 3]));
            }
        }
    } else if xbox_at(s, i) {
    } else {
        lemma_find_props(s, i + 2, close_pat());
        let m = find_at(s, i + 2, close_pat()).unwrap();
        assert(close_pat()(s, m));
        assert(close_at(s, m));
    }
}

/// Text the strict tier accepts: no marker token anywhere, and no leading
/// or trailing whitespace.  This is exactly the shape the lenient clean-up
/// produces, so every reconciled line is re-accepted strictly and the
/// reconciler never rewrites its own output.
pub open spec fn text_ok(s: Seq<u8>) -> bool {
    find_at(s, 0, marker_pat()) is None && (s.len() == 0 || (!is_space(s[0]) && !is_space(
        s[s.len() - 1],
    )))
}

/// Marker-free, trim-stable text is acceptable text.
pub proof fn lemma_marker_free_text_ok(s: Seq<u8>)
    requires
        marker_free(s),
        s.len() == 0 || (!is_space(s[0]) && !is_space(s[s.len() - 1])),
    ensures
        text_ok(s),
{
    assert forall|k: int| 0 <= k < s.len() implies !#[trigger] marker_tok_at(s, k) by {
        assert(s[k] == s[k]);
        assert(!tag_at(s, k) && !date_at(s, k) && !prio_at(s, k) && !open_at(s, k) && !idtok_at(
            s,
            k,
        ) && !contains_at(s, k, xbox_lo()) && !contains_at(s, k, xbox_hi()));
        assert(!xbox_at(s, k));
        assert(!link_tok_at(s, k));
    }
    lemma_find_props(s, 0, marker_pat());
    if find_at(s, 0, marker_pat()) is Some {
        let j = find_at(s, 0, marker_pat()).unwrap();
        assert(marker_pat()(s, j));
        assert(marker_tok_at(s, j));
        assert(false);
    }
}

/// Strict parsing from split candidate `i` on: the leftmost candidate whose
/// text region is acceptable (no marker token, no surrounding whitespace)
/// and whose tail parses wins.  A marker left in the text region — a date
/// before the bucket, a stray priority, link or id token, a second tag, a
/// checked checkbox — or stray spacing is a deviation from the canonical
/// grammar: the line falls to the lenient tier, which extracts, cleans and
/// reorders those fields.
pub open spec fn strict_rec(l: Seq<u8>, i: int) -> Option<TaskSpec>
    decreases l.len() - i,
{
    if i >= l.len() {
        None
    } else if cand_at(l, i) && text_ok(l.subrange(6, i)) {
        match tail_spec(l, i) {
            Some(f) => Some(assemble(l, i, f)),
            None => strict_rec(l, i + 1),
        }
    } else {
        strict_rec(l, i + 1)
    }
}

/// Strict parsing of a whole line.
pub open spec fn strict_spec(l: Seq<u8>) -> Option<TaskSpec> {
    if head_ok(l) {
        strict_rec(l, 6)
    } else {
        None
    }
}

// ---------------------------------------------------------------------------
// strict parsing, executable
// ---------------------------------------------------------------------------

/// View of an optional parsed task.
pub open spec fn opt_task_view(r: Option<ParsedTask>) -> Option<TaskSpec> {
    match r {
        Some(t) => Some(t@),
        None => None,
    }
}

/// Parse the tail at split candidate `i`.
/// Parse the optional ` @date` token at `j`.
fn exec_due(l: &[u8], j: usize) -> (r: Option<(Option<Vec<u8>>, usize)>)
    requires
        j <= l@.len(),
    ensures
        match r {
            Some(p) => parse_due(l@, j as int) == Some((opt_view(p.0), p.1 as int)) && j <= p.1
                <= l@.len(),
            None => parse_due(l@, j as int) is None,
        },
{
    let n = l.len();
    if j < n && n - j > 1 && l[j] == 32 && l[j + 1] == 64 {
        assert(contains_at(l@, j as int, seq![32u8, 64u8]));
        if n - j >= 12 && byte_is_digit(l[j + 2]) && byte_is_digit(l[j + 3]) && byte_is_digit(
            l[j + 4],
        ) && byte_is_digit(l[j + 5]) && l[j + 6] == 45 && byte_is_digit(l[j + 7]) && byte_is_digit(
            l[j + 8],
        ) && l[j + 9] == 45 && byte_is_digit(l[j + 10]) && byte_is_digit(l[j + 11]) {
            assert(date_at(l@, j as int + 1));
            let d = copy_range(l, j + 2, j + 12);
            Some((Some(d), j + 12))
        } else {
            assert(!date_at(l@, j as int + 1));
            None
        }
    } else {
        assert(!contains_at(l@, j as int, seq![32u8, 64u8])) by {
            if contains_at(l@, j as int, seq![32u8, 64u8]) {
                assert(l@[j as int] == seq![32u8, 64u8][0]);
                assert(l@[j as int + 1] == seq![32u8, 64u8][1]);
            }
        }
        Some((None, j))
    }
}

/// Parse the optional ` !priority` token at `j`.
fn exec_prio(l: &[u8], j: usize) -> (r: Option<(Option<u8>, usize)>)
    requires
        j <= l@.len(),
    ensures
        match r {
            Some(p) => parse_prio(l@, j as int) == Some((p.0, p.1 as int)) && j <= p.1 <= l@.len(),
            None => parse_prio(l@, j as int) is None,
        },
{
    let n = l.len();
    if j < n && n - j > 1 && l[j] == 32 && l[j + 1] == 33 {
        assert(contains_at(l@, j as int, seq![32u8, 33u8]));
        let e = scan_digit(l, j + 2);
        proof {
            lemma_run_end_props(l@, j as int + 2, digit_cls());
        }
        let ghost digits = l@.subrange(j as int + 2, e as int);
        assert forall|k: int| 0 <= k < digits.len() implies is_digit(#[trigger] digits[k]) by {
            assert(digit_cls()(l@[j as int + 2 + k]));
            assert(digits[k] == l@[j as int + 2 + k]);
        }
        assert forall|q: int| j as int + 2 <= q < e as int implies is_digit(#[trigger] l@[q]) by {
            assert(digit_cls()(l@[q]));
        }
        if e > j + 2 && e - (j + 2) <= 3 && (e == j + 3 || l[j + 2] != 48) {
            proof {
                lemma_digits_canonical(digits);
            }
            let d0 = l[j + 2];
            assert(is_digit(l@[j as int + 2]));
            let mut v: u32 = (d0 - 48) as u32;
            assert(l@.subrange(j as int + 2, j as int + 3) =~= seq![l@[j as int + 2]]);
            assert(seq![l@[j as int + 2]].drop_last() =~= Seq::<u8>::empty());
            assert(digits_val(Seq::<u8>::empty()) == 0);
            assert(v == digits_val(l@.subrange(j as int + 2, j as int + 3)));
            let mut k: usize = j + 3;
            while k < e
                invariant
                    j + 3 <= k <= e <= l@.len(),
                    e - (j + 2) <= 3,
                    forall|q: int| j as int + 2 <= q < e as int ==> is_digit(#[trigger] l@[q]),
                    v == digits_val(l@.subrange(j as int + 2, k as int)),
                    v < 1000,
                decreases e - k,
            {
                assert(is_digit(l@[k as int]));
                proof {
                    let pre = l@.subrange(j as int + 2, k as int);
                    assert(forall|q: int| 0 <= q < pre.len() ==> is_digit(#[trigger] pre[q]));
                    lemma_digits_val_bound(pre);
                    assert(pre.len() <= 2);
                    assert(v < 100);
                    assert(l@.subrange(j as int + 2, k as int + 1).drop_last() =~= l@.subrange(
                        j as int + 2,
                        k as int,
                    ));
                    assert(l@.subrange(j as int + 2, k as int + 1).last() == l@[k as int]);
                }
                v = v * 10 + ((l[k] - 48) as u32);
                k += 1;
            }
            assert(l@.subrange(j as int + 2, e as int) == digits);
            assert(v == digits_val(digits));
            if v <= 255 {
                assert(parse_prio(l@, j as int) == Some((Some(v as u8), e as int)));
                Some((Some(v as u8), e))
            } else {
                assert(parse_prio(l@, j as int) is None);
                None
            }
        } else {
            assert(parse_prio(l@, j as int) is None);
            None
        }
    } else {
        assert(!contains_at(l@, j as int, seq![32u8, 33u8])) by {
            if contains_at(l@, j as int, seq![32u8, 33u8]) {
                assert(l@[j as int] == seq![32u8, 33u8][0]);
                assert(l@[j as int + 1] == seq![32u8, 33u8][1]);
            }
        }
        Some((None, j))
    }
}

/// Find the first `]]` at or after `from`.
fn find_close(l: &[u8], from: usize) -> (r: Option<usize>)
    requires
        from <= l@.len(),
    ensures
        match r {
            Some(m) => find_at(l@, from as int, close_pat()) == Some(m as int) && from <= m
                && m + 2 <= l@.len(),
            None => find_at(l@, from as int, close_pat()) is None,
        },
{
    let n = l.len();
    let mut m: usize = from;
    while m < n && n - m > 1
        invariant
            from <= m <= l@.len(),
            n == l@.len(),
            find_at(l@, from as int, close_pat()) == find_at(l@, m as int, close_pat()),
        decreases l@.len() - m,
    {
        if l[m] == 93 && l[m + 1] == 93 {
            assert(close_at(l@, m as int));
            assert(close_pat()(l@, m as int));
            assert(find_at(l@, m as int, close_pat()) == Some(m as int));
            return Some(m);
        }
        assert(!close_at(l@, m as int));
        assert(!close_pat()(l@, m as int));
        assert(find_at(l@, m as int, close_pat()) == find_at(l@, m as int + 1, close_pat()));
        m += 1;
    }
    proof {
        lemma_find_props(l@, m as int, close_pat());
        if find_at(l@, m as int, close_pat()) is Some {
            let w = find_at(l@, m as int, close_pat()).unwrap();
            assert(close_pat()(l@, w));
            assert(close_at(l@, w));
            assert(w >= m);
        }
    }
    assert(find_at(l@, from as int, close_pat()) is None);
    None
}

/// Parse the optional ` [[link]]` token at `j`.
fn exec_link(l: &[u8], j: usize) -> (r: Option<(Option<Vec<u8>>, usize)>)
    requires
        j <= l@.len(),
    ensures
        match r {
            Some(p) => parse_link(l@, j as int) == Some((opt_view(p.0), p.1 as int)) && j <= p.1
                <= l@.len(),
            None => parse_link(l@, j as int) is None,
        },
{
    let n = l.len();
    if j < n && n - j > 2 && l[j] == 32 && l[j + 1] == 91 && l[j + 2] == 91 {
        assert(contains_at(l@, j as int, seq![32u8, 91u8, 91u8]));
        match find_close(l, j + 3) {
            Some(m) => {
                let c = copy_range(l, j + 3, m);
                Some((Some(c), m + 2))
            },
            None => {
                assert(parse_link(l@, j as int) is None);
                None
            },
        }
    } else {
        assert(!contains_at(l@, j as int, seq![32u8, 91u8, 91u8])) by {
            if contains_at(l@, j as int, seq![32u8, 91u8, 91u8]) {
                assert(l@[j as int] == seq![32u8, 91u8, 91u8][0]);
                assert(l@[j as int + 1] == seq![32u8, 91u8, 91u8][1]);
                assert(l@[j as int + 2] == seq![32u8, 91u8, 91u8][2]);
            }
        }
        Some((None, j))
    }
}

/// Parse the mandatory ` id:` token at `j`; it must reach the end of the
/// line and hold one syntactically valid id text.
fn exec_idtail(l: &[u8], j: usize) -> (r: Option<TaskId>)
    requires
        j <= l@.len(),
    ensures
        match r {
            Some(id) => parse_idtail(l@, j as int) == Some(id@) && id.wf(),
            None => parse_idtail(l@, j as int) is None,
        },
{
    let n = l.len();
    if j < n && n - j >= 4 && l[j] == 32 && l[j + 1] == 105 && l[j + 2] == 100 && l[j + 3] == 58 {
        assert(contains_at(l@, j as int, seq![32u8, 105u8, 100u8, 58u8]));
        let tok = copy_range(l, j + 4, n);
        TaskId::parse_token(tok.as_slice())
    } else {
        assert(!contains_at(l@, j as int, seq![32u8, 105u8, 100u8, 58u8])) by {
            if contains_at(l@, j as int, seq![32u8, 105u8, 100u8, 58u8]) {
                assert(l@[j as int] == seq![32u8, 105u8, 100u8, 58u8][0]);
                assert(l@[j as int + 1] == seq![32u8, 105u8, 100u8, 58u8][1]);
                assert(l@[j as int + 2] == seq![32u8, 105u8, 100u8, 58u8][2]);
                assert(l@[j as int + 3] == seq![32u8, 105u8, 100u8, 58u8][3]);
            }
        }
        assert(parse_idtail(l@, j as int) is None);
        None
    }
}

/// Parse the tail at split candidate `i`.
fn parse_tail(l: &[u8], i: usize) -> (r: Option<
    (Vec<u8>, Option<Vec<u8>>, Option<u8>, Option<Vec<u8>>, TaskId),
>)
    requires
        cand_at(l@, i as int),
    ensures
        match r {
            Some(f) => tail_spec(l@, i as int) == Some(
                TailSpec {
                    bucket: f.0@,
                    due: opt_view(f.1),
                    priority: f.2,
                    link: opt_view(f.3),
                    id: f.4@,
                },
            ) && f.4.wf(),
            None => tail_spec(l@, i as int) is None,
        },
{
    let n = l.len();
    assert(i as int + 2 < l@.len());
    let b_end = scan_word(l, i + 2);
    proof {
        lemma_run_end_props(l@, i as int + 2, word_cls());
    }
    let bucket = copy_range(l, i + 2, b_end);
    let (due, j1) = match exec_due(l, b_end) {
        Some(p) => p,
        None => {
            assert(tail_spec(l@, i as int) is None);
            return None;
        },
    };
    let (prio, j2) = match exec_prio(l, j1) {
        Some(p) => p,
        None => {
            assert(tail_spec(l@, i as int) is None);
            return None;
        },
    };
    let (link, j3) = match exec_link(l, j2) {
        Some(p) => p,
        None => {
            assert(tail_spec(l@, i as int) is None);
            return None;
        },
    };
    match exec_idtail(l, j3) {
        Some(id) => {
            assert(tail_spec(l@, i as int) == Some(
                TailSpec {
                    bucket: l@.subrange(i as int + 2, b_end as int),
                    due: opt_view(due),
                    priority: prio,
                    link: opt_view(link),
                    id: id@,
                },
            ));
            Some((bucket, due, prio, link, id))
        },
        None => {
            assert(tail_spec(l@, i as int) is None);
            None
        },
    }
}


/// Does a bucket tag start at `q`?
fn tag_check(s: &[u8], q: usize) -> (r: bool)
    requires
        q < s@.len(),
    ensures
        r == tag_at(s@, q as int),
{
    let n = s.len();
    if n - q > 1 && (s[q] == 35 || s[q] == 43) && byte_is_word(s[q + 1]) {
        assert(tag_at(s@, q as int));
        true
    } else {
        assert(!tag_at(s@, q as int)) by {
            if tag_at(s@, q as int) {
                assert((s@[q as int] == 35 || s@[q as int] == 43) && is_word(s@[q as int + 1]));
            }
        }
        false
    }
}

/// Does a due date start at `q`?
fn date_check(s: &[u8], q: usize) -> (r: bool)
    requires
        q < s@.len(),
    ensures
        r == date_at(s@, q as int),
{
    let n = s.len();
    if n - q >= 11 && s[q] == 64 && byte_is_digit(s[q + 1]) && byte_is_digit(s[q + 2])
        && byte_is_digit(s[q + 3]) && byte_is_digit(s[q + 4]) && s[q + 5] == 45 && byte_is_digit(
        s[q + 6],
    ) && byte_is_digit(s[q + 7]) && s[q + 8] == 45 && byte_is_digit(s[q + 9]) && byte_is_digit(
        s[q + 10],
    ) {
        assert(date_at(s@, q as int));
        true
    } else {
        assert(!date_at(s@, q as int)) by {
            if date_at(s@, q as int) {
                assert(s@[q as int] == 64 && is_digit(s@[q as int + 1]) && is_digit(
                    s@[q as int + 2],
                ) && is_digit(s@[q as int + 3]) && is_digit(s@[q as int + 4]) && s@[q as int + 5]
                    == 45 && is_digit(s@[q as int + 6]) && is_digit(s@[q as int + 7]) && s@[q as int
                    + 8] == 45 && is_digit(s@[q as int + 9]) && is_digit(s@[q as int + 10]));
            }
        }
        false
    }
}

/// Does a priority token start at `q`?
fn prio_check(s: &[u8], q: usize) -> (r: bool)
    requires
        q < s@.len(),
    ensures
        r == prio_at(s@, q as int),
{
    let n = s.len();
    if n - q > 1 && s[q] == 33 && byte_is_digit(s[q + 1]) {
        assert(prio_at(s@, q as int));
        true
    } else {
        assert(!prio_at(s@, q as int)) by {
            if prio_at(s@, q as int) {
                assert(s@[q as int] == 33 && is_digit(s@[q as int + 1]));
            }
        }
        false
    }
}

/// Does an id token start at `q`?
fn idtok_check(s: &[u8], q: usize) -> (r: bool)
    requires
        q < s@.len(),
    ensures
        r == idtok_at(s@, q as int),
{
    let n = s.len();
    if n - q > 3 && s[q] == 105 && s[q + 1] == 100 && s[q + 2] == 58 && byte_is_hex_dash(
        s[q + 3],
    ) {
        assert(idtok_at(s@, q as int));
        true
    } else {
        assert(!idtok_at(s@, q as int)) by {
            if idtok_at(s@, q as int) {
                assert(s@[q as int] == 105 && s@[q as int + 1] == 100 && s@[q as int + 2] == 58
                    && is_hex_dash(s@[q as int + 3]));
            }
        }
        false
    }
}

/// Does a checked checkbox start at `q`?
fn xbox_check(s: &[u8], q: usize) -> (r: bool)
    requires
        q < s@.len(),
    ensures
        r == xbox_at(s@, q as int),
{
    let n = s.len();
    if n - q >= 3 && s[q] == 91 && (s[q + 1] == 120 || s[q + 1] == 88) && s[q + 2] == 93 {
        let ghost pb: Seq<u8> = if s@[q as int + 1] == 120 {
            xbox_lo()
        } else {
            xbox_hi()
        };
        assert(contains_at(s@, q as int, pb)) by {
            assert(pb[0] == 91 && pb[1] == s@[q as int + 1] && pb[2] == 93);
            assert(forall|k: int| 0 <= k < 3 ==> s@[q as int + k] == #[trigger] pb[k]);
        }
        assert(xbox_at(s@, q as int));
        true
    } else {
        assert(!contains_at(s@, q as int, xbox_lo())) by {
            if contains_at(s@, q as int, xbox_lo()) {
                assert(s@[q as int] == xbox_lo()[0]);
                assert(s@[q as int + 1] == xbox_lo()[1]);
                assert(s@[q as int + 2] == xbox_lo()[2]);
            }
        }
        assert(!contains_at(s@, q as int, xbox_hi())) by {
            if contains_at(s@, q as int, xbox_hi()) {
                assert(s@[q as int] == xbox_hi()[0]);
                assert(s@[q as int + 1] == xbox_hi()[1]);
                assert(s@[q as int + 2] == xbox_hi()[2]);
            }
        }
        false
    }
}

/// The first marker token of `s`: its start and its removal end, or nothing
/// when `s` holds none.
#[verifier::rlimit(100)]
fn find_marker(s: &[u8]) -> (r: Option<(usize, usize)>)
    ensures
        match r {
            Some(p) => find_at(s@, 0, marker_pat()) == Some(p.0 as int) && p.1 as int
                == marker_end(s@, p.0 as int) && p.0 + 2 <= p.1 <= s@.len(),
            None => find_at(s@, 0, marker_pat()) is None,
        },
{
    let n = s.len();
    let mut q: usize = 0;
    while q < n
        invariant
            q <= n,
            n == s@.len(),
            forall|w: int| 0 <= w < q ==> !#[trigger] marker_tok_at(s@, w),
        decreases n - q,
    {
        if tag_check(s, q) {
            assert(marker_tok_at(s@, q as int));
            proof {
                assert(forall|w: int| 0 <= w < q ==> !#[trigger] marker_pat()(s@, w));
                assert(marker_pat()(s@, q as int));
                if q > 0 {
                    lemma_find_found(s@, 0, q as int, marker_pat());
                }
            }
            let e = scan_word(s, q + 1);
            proof {
                lemma_run_end_props(s@, q as int + 1, word_cls());
            }
            let e2 = bump_space(s, e);
            assert(e2 as int == marker_end(s@, q as int));
            return Some((q, e2));
        }
        if date_check(s, q) {
            assert(marker_tok_at(s@, q as int));
            proof {
                assert(forall|w: int| 0 <= w < q ==> !#[trigger] marker_pat()(s@, w));
                assert(marker_pat()(s@, q as int));
                if q > 0 {
                    lemma_find_found(s@, 0, q as int, marker_pat());
                }
            }
            let e2 = bump_space(s, q + 11);
            assert(e2 as int == marker_end(s@, q as int));
            return Some((q, e2));
        }
        if prio_check(s, q) {
            assert(marker_tok_at(s@, q as int));
            proof {
                assert(forall|w: int| 0 <= w < q ==> !#[trigger] marker_pat()(s@, w));
                assert(marker_pat()(s@, q as int));
                if q > 0 {
                    lemma_find_found(s@, 0, q as int, marker_pat());
                }
            }
            let e = scan_digit(s, q + 1);
            proof {
                lemma_run_end_props(s@, q as int + 1, digit_cls());
            }
            let e2 = bump_space(s, e);
            assert(e2 as int == marker_end(s@, q as int));
            return Some((q, e2));
        }
        if idtok_check(s, q) {
            assert(marker_tok_at(s@, q as int));
            proof {
                assert(forall|w: int| 0 <= w < q ==> !#[trigger] marker_pat()(s@, w));
                assert(marker_pat()(s@, q as int));
                if q > 0 {
                    lemma_find_found(s@, 0, q as int, marker_pat());
                }
            }
            let e = scan_hex_dash(s, q + 3);
            proof {
                lemma_run_end_props(s@, q as int + 3, hex_dash_cls());
            }
            let e2 = bump_space(s, e);
            assert(e2 as int == marker_end(s@, q as int));
            return Some((q, e2));
        }
        if xbox_check(s, q) {
            assert(marker_tok_at(s@, q as int));
            assert(s@[q as int] == 91) by {
                if s@[q as int] != 91 {
                    assert(!contains_at(s@, q as int, xbox_lo())) by {
                        if contains_at(s@, q as int, xbox_lo()) {
                            assert(s@[q as int] == xbox_lo()[0]);
                        }
                    }
                    assert(!contains_at(s@, q as int, xbox_hi())) by {
                        if contains_at(s@, q as int, xbox_hi()) {
                            assert(s@[q as int] == xbox_hi()[0]);
                        }
                    }
                }
            }
            proof {
                assert(forall|w: int| 0 <= w < q ==> !#[trigger] marker_pat()(s@, w));
                assert(marker_pat()(s@, q as int));
                if q > 0 {
                    lemma_find_found(s@, 0, q as int, marker_pat());
                }
                assert(q as int + 3 <= s@.len()) by {
                    if contains_at(s@, q as int, xbox_lo()) {
                    } else {
                        assert(contains_at(s@, q as int, xbox_hi()));
                    }
                }
            }
            let e2 = bump_space(s, q + 3);
            assert(e2 as int == marker_end(s@, q as int));
            return Some((q, e2));
        }
        if n - q > 1 && s[q] == 91 && s[q + 1] == 91 {
            assert(open_at(s@, q as int));
            match find_close(s, q + 2) {
                Some(m) => {
                    assert(link_tok_at(s@, q as int));
                    assert(marker_tok_at(s@, q as int));
                    proof {
                        assert(forall|w: int| 0 <= w < q ==> !#[trigger] marker_pat()(s@, w));
                        assert(marker_pat()(s@, q as int));
                        if q > 0 {
                            lemma_find_found(s@, 0, q as int, marker_pat());
                        }
                    }
                    let e2 = bump_space(s, m + 2);
                    assert(e2 as int == marker_end(s@, q as int));
                    return Some((q, e2));
                },
                None => {
                    assert(!link_tok_at(s@, q as int));
                },
            }
        } else {
            assert(!open_at(s@, q as int)) by {
                if open_at(s@, q as int) {
                    assert(s@[q as int] == 91 && s@[q as int + 1] == 91);
                }
            }
            assert(!link_tok_at(s@, q as int));
        }
        assert(!marker_tok_at(s@, q as int));
        q += 1;
    }
    proof {
        lemma_find_props(s@, 0, marker_pat());
        if find_at(s@, 0, marker_pat()) is Some {
            let j = find_at(s@, 0, marker_pat()).unwrap();
            assert(marker_pat()(s@, j));
            assert(marker_tok_at(s@, j));
        }
    }
    None
}

/// Is `s` acceptable strict text: marker-free and trim-stable?
fn is_text_ok(s: &[u8]) -> (r: bool)
    ensures
        r == text_ok(s@),
{
    let n = s.len();
    if n > 0 && (byte_is_space(s[0]) || byte_is_space(s[n - 1])) {
        return false;
    }
    match find_marker(s) {
        Some(_) => false,
        None => true,
    }
}

impl ParsedTask {
    /// Strict parsing: the line must match the canonical grammar exactly —
    /// the text region itself free of marker tokens — and any deviation
    /// fails rather than partially matching.
    pub fn parse_strict(line: &[u8]) -> (r: Option<ParsedTask>)
        ensures
            opt_task_view(r) == strict_spec(line@),
            r matches Some(t) ==> t.wf(),
    {
        let l = line;
        if !(l.len() >= 6 && l[0] == 45 && l[1] == 32 && l[2] == 91 && (l[3] == 32 || l[3] == 120)
            && l[4] == 93 && l[5] == 32) {
            assert(!head_ok(l@));
            return None;
        }
        assert(head_ok(l@));
        let mut i: usize = 6;
        while i < l.len()
            invariant
                head_ok(l@),
                6 <= i,
                i <= l@.len(),
                l@ == line@,
                strict_rec(l@, 6) == strict_rec(l@, i as int),
            decreases l@.len() - i,
        {
            if l.len() - i > 2 && l[i] == 32 && l[i + 1] == 35 && byte_is_word(l[i + 2]) {
                assert(cand_at(l@, i as int));
                let text_region = copy_range(l, 6, i);
                if is_text_ok(text_region.as_slice()) {
                    assert(text_ok(l@.subrange(6, i as int)));
                    match parse_tail(l, i) {
                        Some(f) => {
                            let t = ParsedTask {
                                completed: l[3] == 120,
                                text: text_region,
                                bucket: f.0,
                                due: f.1,
                                link: f.3,
                                priority: f.2,
                                id: f.4,
                            };
                            assert(t@ == assemble(l@, i as int, tail_spec(l@, i as int).unwrap()));
                            assert(strict_rec(l@, i as int) == Some(t@));
                            return Some(t);
                        },
                        None => {
                            assert(strict_rec(l@, i as int) == strict_rec(l@, i as int + 1));
                        },
                    }
                } else {
                    assert(!text_ok(l@.subrange(6, i as int)));
                    assert(strict_rec(l@, i as int) == strict_rec(l@, i as int + 1));
                }
            } else {
                assert(!cand_at(l@, i as int)) by {
                    if cand_at(l@, i as int) {
                        assert(l@[i as int] == 32 && l@[i as int + 1] == 35 && is_word(
                            l@[i as int + 2],
                        ));
                    }
                }
                assert(strict_rec(l@, i as int) == strict_rec(l@, i as int + 1));
            }
            i += 1;
        }
        assert(strict_rec(l@, i as int) is None);
        None
    }
}


// ---------------------------------------------------------------------------
// the lenient grammar
// ---------------------------------------------------------------------------

/// Length of a checkbox-like prefix: an optional `-`, whitespace, `[c]` with
/// `c` one of space, `x`, `X`, and trailing whitespace.  A line with such a
/// prefix resembles a task line; one without is not task syntax.
pub open spec fn checkbox_prefix(l: Seq<u8>) -> Option<int> {
    let a: int = if l.len() > 0 && l[0] == 45 {
        1int
    } else {
        0int
    };
    let b = run_end(l, a, space_cls());
    if b + 2 < l.len() && l[b] == 91 && (l[b + 1] == 32 || l[b + 1] == 120 || l[b + 1] == 88)
        && l[b + 2] == 93 {
        Some(run_end(l, b + 3, space_cls()))
    } else {
        None
    }
}

pub open spec fn xlo_pat() -> spec_fn(Seq<u8>, int) -> bool {
    |s: Seq<u8>, i: int| contains_at(s, i, xbox_lo())
}

pub open spec fn xhi_pat() -> spec_fn(Seq<u8>, int) -> bool {
    |s: Seq<u8>, i: int| contains_at(s, i, xbox_hi())
}

/// A line counts as completed when it holds `[x]` or `[X]` anywhere.
pub open spec fn lenient_completed(l: Seq<u8>) -> bool {
    find_at(l, 0, xlo_pat()) is Some || find_at(l, 0, xhi_pat()) is Some
}

/// The bucket used when a damaged line names none.
pub open spec fn default_bucket() -> Seq<u8> {
    seq![103u8, 101u8, 110u8, 101u8, 114u8, 97u8, 108u8]
}

/// The first `#word` or `+word` token, if any.
pub open spec fn extract_bucket_spec(l: Seq<u8>) -> Option<Seq<u8>> {
    match find_at(l, 0, tag_pat()) {
        Some(i) => Some(l.subrange(i + 1, run_end(l, i + 1, word_cls()))),
        None => None,
    }
}

pub open spec fn lenient_bucket(l: Seq<u8>) -> Seq<u8> {
    match extract_bucket_spec(l) {
        Some(b) => b,
        None => default_bucket(),
    }
}

/// The first `@dddd-dd-dd` token, if any.
pub open spec fn extract_due_spec(l: Seq<u8>) -> Option<Seq<u8>> {
    match find_at(l, 0, date_pat()) {
        Some(i) => Some(l.subrange(i + 1, i + 11)),
        None => None,
    }
}

/// The first `!digits` token, if its value fits a priority.
pub open spec fn extract_priority_spec(l: Seq<u8>) -> Option<u8> {
    match find_at(l, 0, prio_pat()) {
        Some(i) => {
            let e = run_end(l, i + 1, digit_cls());
            if digits_val(l.subrange(i + 1, e)) <= 255 {
                Some(digits_val(l.subrange(i + 1, e)) as u8)
            } else {
                None
            }
        },
        None => None,
    }
}

/// The first `[[...]]` token: from the first `[[` to the first `]]` after it.
pub open spec fn extract_link_spec(l: Seq<u8>) -> Option<Seq<u8>> {
    match find_at(l, 0, open_pat()) {
        Some(i) => match find_at(l, i + 2, close_pat()) {
            Some(m) => Some(l.subrange(i + 2, m)),
            None => None,
        },
        None => None,
    }
}

/// The first `id:` token whose hex-and-dash run parses as an id.
pub open spec fn extract_id_spec(l: Seq<u8>) -> Option<Seq<u8>> {
    match find_at(l, 0, idtok_pat()) {
        Some(i) => id_parse_spec(l.subrange(i + 3, run_end(l, i + 3, hex_dash_cls()))),
        None => None,
    }
}

// ---------------------------------------------------------------------------
// clean text: strip one of each token, then trim
// ---------------------------------------------------------------------------

pub open spec fn strip_checkbox(l: Seq<u8>) -> Seq<u8> {
    match checkbox_prefix(l) {
        Some(e) => l.subrange(e, l.len() as int),
        None => l,
    }
}

/// Remove marker tokens, earliest first, until none remains.  A removal can
/// splice a new token together out of its neighbours, so a single sweep per
/// token kind would not do; iterating to the fixed point guarantees the
/// result is marker-free.
pub open spec fn strip_all(s: Seq<u8>) -> Seq<u8>
    decreases s.len(),
    via strip_all_dec
{
    match find_at(s, 0, marker_pat()) {
        Some(i) => strip_all(remove_range(s, i, marker_end(s, i))),
        None => s,
    }
}

#[via_fn]
proof fn strip_all_dec(s: Seq<u8>) {
    lemma_find_props(s, 0, marker_pat());
    match find_at(s, 0, marker_pat()) {
        Some(i) => {
            assert(marker_pat()(s, i));
            assert(marker_tok_at(s, i));
            lemma_marker_end_bounds(s, i);
        },
        None => {},
    }
}

/// The fixed point really is marker-free.
pub proof fn lemma_strip_all_clean(s: Seq<u8>)
    ensures
        find_at(strip_all(s), 0, marker_pat()) is None,
    decreases s.len(),
{
    lemma_find_props(s, 0, marker_pat());
    match find_at(s, 0, marker_pat()) {
        Some(i) => {
            assert(marker_pat()(s, i));
            assert(marker_tok_at(s, i));
            lemma_marker_end_bounds(s, i);
            lemma_strip_all_clean(remove_range(s, i, marker_end(s, i)));
        },
        None => {},
    }
}

/// The clean description text of a line: the checkbox prefix and every
/// marker token removed — the first of each kind also being the field the
/// lenient tier keeps — each token taking one following space with it, then
/// trimmed.  The remaining words are kept intact and in order.
pub open spec fn clean_text_spec(l: Seq<u8>) -> Seq<u8> {
    trim_spec(strip_all(strip_checkbox(l)))
}

/// The clean text is acceptable strict text: marker-free with trim-stable
/// ends — so the reconciler's output always re-enters the strict tier.
#[verifier::rlimit(100)]
pub proof fn lemma_clean_text_ok(l: Seq<u8>)
    ensures
        text_ok(clean_text_spec(l)),
{
    let s5 = strip_all(strip_checkbox(l));
    lemma_strip_all_clean(strip_checkbox(l));
    lemma_find_props(s5, 0, marker_pat());
    let a = run_end(s5, 0, space_cls());
    let b = skip_back(s5, s5.len() as int);
    lemma_run_end_props(s5, 0, space_cls());
    lemma_skip_back_props(s5, s5.len() as int);
    let t = trim_spec(s5);
    if a < b {
        assert(t == s5.subrange(a, b));
        assert(forall|w: int| 0 <= w < t.len() ==> #[trigger] t[w] == s5[a + w]);
        assert forall|k: int| 0 <= k < t.len() implies !#[trigger] marker_tok_at(t, k) by {
            if marker_tok_at(t, k) {
                if tag_at(t, k) {
                    assert(tag_at(s5, a + k));
                } else if date_at(t, k) {
                    assert(date_at(s5, a + k));
                } else if prio_at(t, k) {
                    assert(prio_at(s5, a + k));
                } else if idtok_at(t, k) {
                    assert(idtok_at(s5, a + k));
                } else if xbox_at(t, k) {
                    assert(xbox_at(s5, a + k)) by {
                        if contains_at(t, k, xbox_lo()) {
                            assert(t[k] == xbox_lo()[0] && t[k + 1] == xbox_lo()[1] && t[k + 2]
                                == xbox_lo()[2]);
                            assert(forall|w: int|
                                0 <= w < 3 ==> s5[a + k + w] == #[trigger] xbox_lo()[w]);
                            assert(contains_at(s5, a + k, xbox_lo()));
                        } else {
                            assert(contains_at(t, k, xbox_hi()));
                            assert(t[k] == xbox_hi()[0] && t[k + 1] == xbox_hi()[1] && t[k + 2]
                                == xbox_hi()[2]);
                            assert(forall|w: int|
                                0 <= w < 3 ==> s5[a + k + w] == #[trigger] xbox_hi()[w]);
                            assert(contains_at(s5, a + k, xbox_hi()));
                        }
                    }
                } else {
                    assert(link_tok_at(t, k));
                    assert(open_at(s5, a + k));
                    lemma_find_props(t, k + 2, close_pat());
                    let m = find_at(t, k + 2, close_pat()).unwrap();
                    assert(close_pat()(t, m));
                    assert(close_at(t, m));
                    assert(close_at(s5, a + m));
                    lemma_find_props(s5, a + k + 2, close_pat());
                    if find_at(s5, a + k + 2, close_pat()) is None {
                        assert(!close_pat()(s5, a + m));
                        assert(false);
                    }
                    assert(link_tok_at(s5, a + k));
                }
                assert(marker_tok_at(s5, a + k));
                assert(!marker_pat()(s5, a + k));
                assert(marker_pat()(s5, a + k));
                assert(false);
            }
        }
        lemma_find_props(t, 0, marker_pat());
        if find_at(t, 0, marker_pat()) is Some {
            let j = find_at(t, 0, marker_pat()).unwrap();
            assert(marker_pat()(t, j));
            assert(false);
        }
        lemma_trim_props(s5);
    } else {
        assert(t == Seq::<u8>::empty());
        assert(find_at(t, 0, marker_pat()) is None);
    }
}

// ---------------------------------------------------------------------------
// the lenient record
// ---------------------------------------------------------------------------

/// Lenient parsing: order-insensitive recovery of every field; `fresh` is
/// the id minted when the line carries no parseable id token.  A line
/// without a checkbox-like prefix is not task syntax and yields nothing.
pub open spec fn lenient_spec(l: Seq<u8>, fresh: Seq<u8>) -> Option<TaskSpec> {
    if checkbox_prefix(l) is Some {
        Some(
            TaskSpec {
                completed: lenient_completed(l),
                text: clean_text_spec(l),
                bucket: lenient_bucket(l),
                due: extract_due_spec(l),
                link: extract_link_spec(l),
                priority: extract_priority_spec(l),
                id: match extract_id_spec(l) {
                    Some(b) => b,
                    None => fresh,
                },
            },
        )
    } else {
        None
    }
}

/// Strict first, lenient as the fallback.
pub open spec fn parse_line_spec(l: Seq<u8>, fresh: Seq<u8>) -> Option<TaskSpec> {
    match strict_spec(l) {
        Some(t) => Some(t),
        None => lenient_spec(l, fresh),
    }
}


// ---------------------------------------------------------------------------
// lenient parsing, executable
// ---------------------------------------------------------------------------

/// Find the first bucket tag.
fn find_tag(l: &[u8]) -> (r: Option<usize>)
    ensures
        match r {
            Some(i) => find_at(l@, 0, tag_pat()) == Some(i as int),
            None => find_at(l@, 0, tag_pat()) is None,
        },
{
    let n = l.len();
    let mut i: usize = 0;
    while i < n
        invariant
            i <= n,
            n == l@.len(),
            find_at(l@, 0, tag_pat()) == find_at(l@, i as int, tag_pat()),
        decreases n - i,
    {
        if n - i > 1 && (l[i] == 35 || l[i] == 43) && byte_is_word(l[i + 1]) {
            assert(tag_at(l@, i as int));
            assert(tag_pat()(l@, i as int));
            assert(find_at(l@, i as int, tag_pat()) == Some(i as int));
            return Some(i);
        }
        assert(!tag_at(l@, i as int)) by {
            if tag_at(l@, i as int) {
                assert((l@[i as int] == 35 || l@[i as int] == 43) && is_word(l@[i as int + 1]));
            }
        }
        assert(!tag_pat()(l@, i as int));
        assert(find_at(l@, i as int, tag_pat()) == find_at(l@, i as int + 1, tag_pat()));
        i += 1;
    }
    assert(find_at(l@, i as int, tag_pat()) is None);
    None
}

/// Find the first due date.
fn find_date(l: &[u8]) -> (r: Option<usize>)
    ensures
        match r {
            Some(i) => find_at(l@, 0, date_pat()) == Some(i as int),
            None => find_at(l@, 0, date_pat()) is None,
        },
{
    let n = l.len();
    let mut i: usize = 0;
    while i < n
        invariant
            i <= n,
            n == l@.len(),
            find_at(l@, 0, date_pat()) == find_at(l@, i as int, date_pat()),
        decreases n - i,
    {
        if n - i >= 11 && l[i] == 64 && byte_is_digit(l[i + 1]) && byte_is_digit(l[i + 2])
            && byte_is_digit(l[i + 3]) && byte_is_digit(l[i + 4]) && l[i + 5] == 45
            && byte_is_digit(l[i + 6]) && byte_is_digit(l[i + 7]) && l[i + 8] == 45
            && byte_is_digit(l[i + 9]) && byte_is_digit(l[i + 10]) {
            assert(date_at(l@, i as int));
            assert(date_pat()(l@, i as int));
            assert(find_at(l@, i as int, date_pat()) == Some(i as int));
            return Some(i);
        }
        assert(!date_at(l@, i as int)) by {
            if date_at(l@, i as int) {
                assert(l@[i as int] == 64 && is_digit(l@[i as int + 1]) && is_digit(
                    l@[i as int + 2],
                ) && is_digit(l@[i as int + 3]) && is_digit(l@[i as int + 4]) && l@[i as int + 5]
                    == 45 && is_digit(l@[i as int + 6]) && is_digit(l@[i as int + 7]) && l@[i as int
                    + 8] == 45 && is_digit(l@[i as int + 9]) && is_digit(l@[i as int + 10]));
            }
        }
        assert(!date_pat()(l@, i as int));
        assert(find_at(l@, i as int, date_pat()) == find_at(l@, i as int + 1, date_pat()));
        i += 1;
    }
    assert(find_at(l@, i as int, date_pat()) is None);
    None
}

/// Find the first priority token.
fn find_prio(l: &[u8]) -> (r: Option<usize>)
    ensures
        match r {
            Some(i) => find_at(l@, 0, prio_pat()) == Some(i as int) && i + 1 < l@.len(),
            None => find_at(l@, 0, prio_pat()) is None,
        },
{
    let n = l.len();
    let mut i: usize = 0;
    while i < n
        invariant
            i <= n,
            n == l@.len(),
            find_at(l@, 0, prio_pat()) == find_at(l@, i as int, prio_pat()),
        decreases n - i,
    {
        if n - i > 1 && l[i] == 33 && byte_is_digit(l[i + 1]) {
            assert(prio_at(l@, i as int));
            assert(prio_pat()(l@, i as int));
            assert(find_at(l@, i as int, prio_pat()) == Some(i as int));
            return Some(i);
        }
        assert(!prio_at(l@, i as int)) by {
            if prio_at(l@, i as int) {
                assert(l@[i as int] == 33 && is_digit(l@[i as int + 1]));
            }
        }
        assert(!prio_pat()(l@, i as int));
        assert(find_at(l@, i as int, prio_pat()) == find_at(l@, i as int + 1, prio_pat()));
        i += 1;
    }
    assert(find_at(l@, i as int, prio_pat()) is None);
    None
}

/// Find the first `[[`.
fn find_open(l: &[u8]) -> (r: Option<usize>)
    ensures
        match r {
            Some(i) => find_at(l@, 0, open_pat()) == Some(i as int) && i + 2 <= l@.len(),
            None => find_at(l@, 0, open_pat()) is None,
        },
{
    let n = l.len();
    let mut i: usize = 0;
    while i < n
        invariant
            i <= n,
            n == l@.len(),
            find_at(l@, 0, open_pat()) == find_at(l@, i as int, open_pat()),
        decreases n - i,
    {
        if n - i > 1 && l[i] == 91 && l[i + 1] == 91 {
            assert(open_at(l@, i as int));
            assert(open_pat()(l@, i as int));
            assert(find_at(l@, i as int, open_pat()) == Some(i as int));
            return Some(i);
        }
        assert(!open_at(l@, i as int)) by {
            if open_at(l@, i as int) {
                assert(l@[i as int] == 91 && l@[i as int + 1] == 91);
            }
        }
        assert(!open_pat()(l@, i as int));
        assert(find_at(l@, i as int, open_pat()) == find_at(l@, i as int + 1, open_pat()));
        i += 1;
    }
    assert(find_at(l@, i as int, open_pat()) is None);
    None
}

/// Find the first `id:` token.
fn find_idtok(l: &[u8]) -> (r: Option<usize>)
    ensures
        match r {
            Some(i) => find_at(l@, 0, idtok_pat()) == Some(i as int) && i + 3 < l@.len(),
            None => find_at(l@, 0, idtok_pat()) is None,
        },
{
    let n = l.len();
    let mut i: usize = 0;
    while i < n
        invariant
            i <= n,
            n == l@.len(),
            find_at(l@, 0, idtok_pat()) == find_at(l@, i as int, idtok_pat()),
        decreases n - i,
    {
        if n - i > 3 && l[i] == 105 && l[i + 1] == 100 && l[i + 2] == 58 && byte_is_hex_dash(
            l[i + 3],
        ) {
            assert(idtok_at(l@, i as int));
            assert(idtok_pat()(l@, i as int));
            assert(find_at(l@, i as int, idtok_pat()) == Some(i as int));
            return Some(i);
        }
        assert(!idtok_at(l@, i as int)) by {
            if idtok_at(l@, i as int) {
                assert(l@[i as int] == 105 && l@[i as int + 1] == 100 && l@[i as int + 2] == 58
                    && is_hex_dash(l@[i as int + 3]));
            }
        }
        assert(!idtok_pat()(l@, i as int));
        assert(find_at(l@, i as int, idtok_pat()) == find_at(l@, i as int + 1, idtok_pat()));
        i += 1;
    }
    assert(find_at(l@, i as int, idtok_pat()) is None);
    None
}

/// Does the line contain the three bytes `pat` (a checked checkbox)?
fn find_xbox(l: &[u8], mid: u8) -> (r: bool)
    requires
        mid == 120 || mid == 88,
    ensures
        mid == 120 ==> r == (find_at(l@, 0, xlo_pat()) is Some),
        mid == 88 ==> r == (find_at(l@, 0, xhi_pat()) is Some),
{
    let ghost pat: spec_fn(Seq<u8>, int) -> bool = if mid == 120 {
        xlo_pat()
    } else {
        xhi_pat()
    };
    let ghost pb: Seq<u8> = if mid == 120 {
        xbox_lo()
    } else {
        xbox_hi()
    };
    let n = l.len();
    let mut i: usize = 0;
    while i < n
        invariant
            i <= n,
            n == l@.len(),
            pat == (if mid == 120 {
                xlo_pat()
            } else {
                xhi_pat()
            }),
            pb == (if mid == 120 {
                xbox_lo()
            } else {
                xbox_hi()
            }),
            mid == 120 || mid == 88,
            find_at(l@, 0, pat) == find_at(l@, i as int, pat),
        decreases n - i,
    {
        if n - i >= 3 && l[i] == 91 && l[i + 1] == mid && l[i + 2] == 93 {
            assert(contains_at(l@, i as int, pb)) by {
                assert(pb[0] == 91 && pb[1] == mid && pb[2] == 93);
                assert(l@[i as int] == 91 && l@[i as int + 1] == mid && l@[i as int + 2] == 93);
            }
            assert(pat(l@, i as int));
            assert(find_at(l@, i as int, pat) == Some(i as int));
            return true;
        }
        assert(!contains_at(l@, i as int, pb)) by {
            if contains_at(l@, i as int, pb) {
                assert(l@[i as int] == pb[0] && l@[i as int + 1] == pb[1] && l@[i as int + 2]
                    == pb[2]);
            }
        }
        assert(!pat(l@, i as int));
        assert(find_at(l@, i as int, pat) == find_at(l@, i as int + 1, pat));
        i += 1;
    }
    assert(find_at(l@, i as int, pat) is None);
    false
}

/// First `#word` or `+word` token of the line, without its leading mark.
pub fn extract_bucket(l: &[u8]) -> (r: Option<Vec<u8>>)
    ensures
        opt_view(r) == extract_bucket_spec(l@),
{
    let n = l.len();
    assert(n == l@.len());
    match find_tag(l) {
        Some(i) => {
            proof {
                lemma_find_props(l@, 0, tag_pat());
                assert(tag_pat()(l@, i as int));
                assert(tag_at(l@, i as int));
                lemma_run_end_props(l@, i as int + 1, word_cls());
            }
            let e = scan_word(l, i + 1);
            Some(copy_range(l, i + 1, e))
        },
        None => None,
    }
}

/// First `@date` token of the line, without the `@`.
pub fn extract_due(l: &[u8]) -> (r: Option<Vec<u8>>)
    ensures
        opt_view(r) == extract_due_spec(l@),
{
    let n = l.len();
    assert(n == l@.len());
    match find_date(l) {
        Some(i) => {
            proof {
                lemma_find_props(l@, 0, date_pat());
                assert(date_pat()(l@, i as int));
                assert(date_at(l@, i as int));
            }
            Some(copy_range(l, i + 1, i + 11))
        },
        None => None,
    }
}

/// First `!digits` token of the line, as a priority, when its value fits.
pub fn extract_priority(l: &[u8]) -> (r: Option<u8>)
    ensures
        r == extract_priority_spec(l@),
{
    let n = l.len();
    assert(n == l@.len());
    match find_prio(l) {
        Some(i) => {
            proof {
                lemma_find_props(l@, 0, prio_pat());
                assert(prio_pat()(l@, i as int));
                assert(prio_at(l@, i as int));
                lemma_run_end_props(l@, i as int + 1, digit_cls());
            }
            let e = scan_digit(l, i + 1);
            let ghost digits = l@.subrange(i as int + 1, e as int);
            assert forall|q: int| i as int + 1 <= q < e as int implies is_digit(
                #[trigger] l@[q],
            ) by {
                assert(digit_cls()(l@[q]));
            }
            assert(e > i + 1) by {
                if e == i + 1 {
                    assert(!digit_cls()(l@[i as int + 1]));
                }
            }
            // value with saturation at 256: beyond a priority either way
            let d0 = l[i + 1];
            let mut v: u32 = (d0 - 48) as u32;
            assert(l@.subrange(i as int + 1, i as int + 2) =~= seq![l@[i as int + 1]]);
            assert(seq![l@[i as int + 1]].drop_last() =~= Seq::<u8>::empty());
            assert(digits_val(Seq::<u8>::empty()) == 0);
            assert(v == digits_val(l@.subrange(i as int + 1, i as int + 2)));
            let mut k: usize = i + 2;
            while k < e
                invariant
                    i + 2 <= k <= e <= l@.len(),
                    forall|q: int| i as int + 1 <= q < e as int ==> is_digit(#[trigger] l@[q]),
                    v <= 256,
                    (v <= 255 && v == digits_val(l@.subrange(i as int + 1, k as int))) || (v == 256
                        && digits_val(l@.subrange(i as int + 1, k as int)) > 255),
                decreases e - k,
            {
                assert(is_digit(l@[k as int]));
                proof {
                    assert(l@.subrange(i as int + 1, k as int + 1).drop_last() =~= l@.subrange(
                        i as int + 1,
                        k as int,
                    ));
                    assert(l@.subrange(i as int + 1, k as int + 1).last() == l@[k as int]);
                }
                let d = (l[k] - 48) as u32;
                let w = v * 10 + d;
                if w > 255 {
                    proof {
                        let pre = l@.subrange(i as int + 1, k as int);
                        let cur = l@.subrange(i as int + 1, k as int + 1);
                        assert(digits_val(cur) == digits_val(pre) * 10 + (l@[k as int] - 48));
                        if v == 256 {
                            assert(digits_val(pre) > 255);
                            assert(digits_val(cur) > 255);
                        } else {
                            assert(digits_val(cur) == v * 10 + d);
                        }
                    }
                    v = 256;
                } else {
                    v = w;
                }
                k += 1;
            }
            assert(l@.subrange(i as int + 1, e as int) == digits);
            if v <= 255 {
                assert(extract_priority_spec(l@) == Some(v as u8));
                Some(v as u8)
            } else {
                assert(digits_val(digits) > 255);
                assert(extract_priority_spec(l@) is None);
                None
            }
        },
        None => None,
    }
}

/// First `[[...]]` token of the line, without the brackets.
pub fn extract_link(l: &[u8]) -> (r: Option<Vec<u8>>)
    ensures
        opt_view(r) == extract_link_spec(l@),
{
    let n = l.len();
    assert(n == l@.len());
    match find_open(l) {
        Some(i) => {
            proof {
                lemma_find_props(l@, 0, open_pat());
                assert(open_pat()(l@, i as int));
                assert(open_at(l@, i as int));
            }
            match find_close(l, i + 2) {
                Some(m) => {
                    proof {
                        lemma_find_props(l@, i as int + 2, close_pat());
                        assert(close_pat()(l@, m as int));
                        assert(close_at(l@, m as int));
                    }
                    Some(copy_range(l, i + 2, m))
                },
                None => None,
            }
        },
        None => None,
    }
}

/// First parseable `id:` token of the line, as an id.
pub fn extract_id(l: &[u8]) -> (r: Option<TaskId>)
    ensures
        match r {
            Some(id) => extract_id_spec(l@) == Some(id@) && id.wf(),
            None => extract_id_spec(l@) is None,
        },
{
    let n = l.len();
    assert(n == l@.len());
    match find_idtok(l) {
        Some(i) => {
            proof {
                lemma_find_props(l@, 0, idtok_pat());
                assert(idtok_pat()(l@, i as int));
                assert(idtok_at(l@, i as int));
                lemma_run_end_props(l@, i as int + 3, hex_dash_cls());
            }
            let e = scan_hex_dash(l, i + 3);
            let tok = copy_range(l, i + 3, e);
            TaskId::parse_token(tok.as_slice())
        },
        None => None,
    }
}

/// The checkbox-like prefix of the line, if it has one: its length.
fn exec_checkbox_prefix(l: &[u8]) -> (r: Option<usize>)
    ensures
        match r {
            Some(e) => checkbox_prefix(l@) == Some(e as int) && e <= l@.len(),
            None => checkbox_prefix(l@) is None,
        },
{
    let n = l.len();
    let a: usize = if n > 0 && l[0] == 45 {
        1
    } else {
        0
    };
    let b = scan_space(l, a);
    proof {
        lemma_run_end_props(l@, a as int, space_cls());
    }
    if b < n && n - b > 2 && l[b] == 91 && (l[b + 1] == 32 || l[b + 1] == 120 || l[b + 1] == 88)
        && l[b + 2] == 93 {
        let e = scan_space(l, b + 3);
        proof {
            lemma_run_end_props(l@, b as int + 3, space_cls());
        }
        Some(e)
    } else {
        None
    }
}

/// The removal end past one following space, if any.
fn bump_space(l: &[u8], e: usize) -> (r: usize)
    requires
        e <= l@.len(),
    ensures
        r as int == strip_end(l@, e as int),
        e <= r <= l@.len(),
{
    if e < l.len() && l[e] == 32 {
        e + 1
    } else {
        e
    }
}

/// Strip the checkbox-like prefix, if any.
fn strip_checkbox_exec(l: &[u8]) -> (r: Vec<u8>)
    ensures
        r@ == strip_checkbox(l@),
{
    match exec_checkbox_prefix(l) {
        Some(e) => {
            let r = copy_range(l, e, l.len());
            assert(r@ =~= strip_checkbox(l@));
            r
        },
        None => {
            let r = copy_range(l, 0, l.len());
            assert(r@ =~= strip_checkbox(l@));
            r
        },
    }
}

/// The clean description text of a line: the checkbox prefix removed, then
/// every marker token removed, earliest first and each with one following
/// space, until none remains, then trimmed.
pub fn extract_clean_text(l: &[u8]) -> (r: Vec<u8>)
    ensures
        r@ == clean_text_spec(l@),
{
    let mut s = strip_checkbox_exec(l);
    let mut done = false;
    while !done
        invariant
            strip_all(strip_checkbox(l@)) == (if done {
                s@
            } else {
                strip_all(s@)
            }),
        decreases s@.len(), (if done {
            0int
        } else {
            1int
        }),
    {
        match find_marker(s.as_slice()) {
            Some(p) => {
                proof {
                    assert(strip_all(s@) == strip_all(
                        remove_range(s@, p.0 as int, p.1 as int),
                    ));
                }
                s = remove_bytes(s.as_slice(), p.0, p.1);
            },
            None => {
                assert(strip_all(s@) == s@);
                done = true;
            },
        }
    }
    trim_bytes(s.as_slice())
}


// ---------------------------------------------------------------------------
// the two-tier entry points
// ---------------------------------------------------------------------------

/// Why the add flow rejects an input.
#[derive(Debug, Clone, Copy, PartialEq, Eq, Structural)]
pub enum TaskError {
    /// No bucket was supplied, by flag or by a `#bucket` marker in the text.
    MissingBucket,
    /// The description is empty once every marker is stripped.
    EmptyText,
}

impl ParsedTask {
    /// Lenient parsing: always recovers a record from a line that resembles
    /// a task line (it has a checkbox-like prefix), defaulting the bucket
    /// and minting a fresh id where the line offers none; a line without
    /// such a prefix is not task syntax and yields nothing.
    pub fn parse_lenient(line: &[u8]) -> (r: Option<ParsedTask>)
        ensures
            match r {
                Some(t) => t.wf() && (exists|f: Seq<u8>|
                    f.len() == 16 && lenient_spec(line@, f) == Some(t@)),
                None => forall|f: Seq<u8>| lenient_spec(line@, f) is None,
            },
            r is Some <==> checkbox_prefix(line@) is Some,
    {
        match exec_checkbox_prefix(line) {
            Some(_) => {},
            None => {
                assert(forall|f: Seq<u8>| lenient_spec(line@, f) is None);
                return None;
            },
        }
        let completed = find_xbox(line, 120) || find_xbox(line, 88);
        let bucket = match extract_bucket(line) {
            Some(b) => b,
            None => {
                let mut g: Vec<u8> = Vec::new();
                g.push(103);
                g.push(101);
                g.push(110);
                g.push(101);
                g.push(114);
                g.push(97);
                g.push(108);
                assert(g@ =~= default_bucket());
                g
            },
        };
        assert(bucket@ == lenient_bucket(line@));
        let due = extract_due(line);
        let priority = extract_priority(line);
        let link = extract_link(line);
        let minted = TaskId::fresh();
        let ghost f = minted@;
        let id = match extract_id(line) {
            Some(id) => id,
            None => minted,
        };
        let text = extract_clean_text(line);
        let t = ParsedTask { completed, text, bucket, due, link, priority, id };
        assert(lenient_spec(line@, f) == Some(t@));
        Some(t)
    }

    /// Parse a line: strict first, then lenient recovery.  A line in exact
    /// canonical form never takes the lenient path.
    pub fn from_line(line: &[u8]) -> (r: Option<ParsedTask>)
        ensures
            match r {
                Some(t) => t.wf() && (exists|f: Seq<u8>|
                    f.len() == 16 && parse_line_spec(line@, f) == Some(t@)),
                None => forall|f: Seq<u8>| parse_line_spec(line@, f) is None,
            },
            strict_spec(line@) matches Some(st) ==> (r matches Some(t) && t@ == st),
    {
        match Self::parse_strict(line) {
            Some(t) => {
                assert(forall|f: Seq<u8>|
                    f.len() == 16 ==> parse_line_spec(line@, f) == Some(t@));
                assert(Seq::<u8>::new(16, |q: int| 0u8).len() == 16);
                Some(t)
            },
            None => ParsedTask::parse_lenient(line),
        }
    }
}

// ---------------------------------------------------------------------------
// the add-flow builder
// ---------------------------------------------------------------------------

/// Builder state for a new task taken from free-form input text.
pub struct TaskBuilder {
    pub text: Vec<u8>,
    pub bucket: Option<Vec<u8>>,
    pub due: Option<Vec<u8>>,
    pub link: Option<Vec<u8>>,
    pub priority: Option<u8>,
}

impl TaskBuilder {
    /// A builder holding the raw text and no flags.
    pub fn new(text: Vec<u8>) -> (r: TaskBuilder)
        ensures
            r.text@ == text@,
            r.bucket is None,
            r.due is None,
            r.link is None,
            r.priority is None,
    {
        TaskBuilder { text, bucket: None, due: None, link: None, priority: None }
    }

    /// Build one new record from free-form text plus optional out-of-band
    /// flags.  A flag wins over a marker embedded in the text; every marker
    /// is stripped from the stored text.  Fails when no bucket is available
    /// from either source, or when the stripped text is empty.
    pub fn parse_with_flags(
        text: Vec<u8>,
        bucket_flag: Option<Vec<u8>>,
        due_flag: Option<Vec<u8>>,
        link_flag: Option<Vec<u8>>,
        priority_flag: Option<u8>,
    ) -> (r: Result<ParsedTask, TaskError>)
        ensures
            r is Ok <==> ((bucket_flag is Some || extract_bucket_spec(text@) is Some)
                && clean_text_spec(text@).len() > 0),
            match r {
                Ok(t) => t.wf() && t@.completed == false && t@.text == clean_text_spec(text@)
                    && t@.bucket == (match bucket_flag {
                    Some(b) => b@,
                    None => lenient_bucket(text@),
                }) && t@.due == (match due_flag {
                    Some(d) => Some(d@),
                    None => extract_due_spec(text@),
                }) && t@.link == (match link_flag {
                    Some(k) => Some(k@),
                    None => extract_link_spec(text@),
                }) && t@.priority == (match priority_flag {
                    Some(p) => Some(p),
                    None => extract_priority_spec(text@),
                }),
                Err(e) => if bucket_flag is None && extract_bucket_spec(text@) is None {
                    e == TaskError::MissingBucket
                } else {
                    e == TaskError::EmptyText
                },
            },
    {
        let bucket = match bucket_flag {
            Some(b) => b,
            None => match extract_bucket(text.as_slice()) {
                Some(b) => b,
                None => {
                    return Err(TaskError::MissingBucket);
                },
            },
        };
        let due = match due_flag {
            Some(d) => Some(d),
            None => extract_due(text.as_slice()),
        };
        let link = match link_flag {
            Some(k) => Some(k),
            None => extract_link(text.as_slice()),
        };
        let priority = match priority_flag {
            Some(p) => Some(p),
            None => extract_priority(text.as_slice()),
        };
        let clean = extract_clean_text(text.as_slice());
        if clean.len() == 0 {
            return Err(TaskError::EmptyText);
        }
        let mut t = ParsedTask::new(clean, bucket);
        match due {
            Some(d) => {
                t = t.with_due(d);
            },
            None => {},
        }
        match link {
            Some(k) => {
                t = t.with_link(k);
            },
            None => {},
        }
        match priority {
            Some(p) => {
                t = t.with_priority(p);
            },
            None => {},
        }
        Ok(t)
    }
}


// ---------------------------------------------------------------------------
// the laws: what the canonical line form guarantees
// ---------------------------------------------------------------------------

/// Position of the bucket split candidate in a canonical line.
pub open spec fn p_cand(t: TaskSpec) -> int {
    6 + t.text.len() as int
}

pub open spec fn p_bend(t: TaskSpec) -> int {
    p_cand(t) + 2 + t.bucket.len()
}

pub open spec fn p_due_end(t: TaskSpec) -> int {
    p_bend(t) + due_part(t.due).len()
}

pub open spec fn p_prio_end(t: TaskSpec) -> int {
    p_due_end(t) + prio_part(t.priority).len()
}

pub open spec fn p_link_end(t: TaskSpec) -> int {
    p_prio_end(t) + link_part(t.link).len()
}

/// Where each piece of a record sits in its canonical line.
#[verifier::rlimit(100)]
pub proof fn lemma_layout(t: TaskSpec)
    ensures
        serialize_spec(t).len() == p_link_end(t) + 40,
        serialize_spec(t).subrange(0, 6) == head_spec(t.completed),
        serialize_spec(t).subrange(6, p_cand(t)) == t.text,
        serialize_spec(t)[p_cand(t)] == 32 && serialize_spec(t)[p_cand(t) + 1] == 35,
        serialize_spec(t).subrange(p_cand(t) + 2, p_bend(t)) == t.bucket,
        serialize_spec(t).subrange(p_bend(t), p_due_end(t)) == due_part(t.due),
        serialize_spec(t).subrange(p_due_end(t), p_prio_end(t)) == prio_part(t.priority),
        serialize_spec(t).subrange(p_prio_end(t), p_link_end(t)) == link_part(t.link),
        serialize_spec(t)[p_link_end(t)] == 32 && serialize_spec(t)[p_link_end(t) + 1] == 105
            && serialize_spec(t)[p_link_end(t) + 2] == 100 && serialize_spec(t)[p_link_end(t) + 3]
            == 58,
        serialize_spec(t).subrange(p_link_end(t) + 4, serialize_spec(t).len() as int)
            == canon_spec(t.id),
{
    let l = serialize_spec(t);
    assert(canon_spec(t.id).len() == 36);
    assert(l.len() == p_link_end(t) + 40);
    assert(l.subrange(0, 6) =~= head_spec(t.completed));
    assert(l.subrange(6, p_cand(t)) =~= t.text);
    assert(l.subrange(p_cand(t), p_cand(t) + 2) =~= seq![32u8, 35u8]);
    assert(l[p_cand(t)] == 32 && l[p_cand(t) + 1] == 35);
    assert(l.subrange(p_cand(t) + 2, p_bend(t)) =~= t.bucket);
    assert(l.subrange(p_bend(t), p_due_end(t)) =~= due_part(t.due));
    assert(l.subrange(p_due_end(t), p_prio_end(t)) =~= prio_part(t.priority));
    assert(l.subrange(p_prio_end(t), p_link_end(t)) =~= link_part(t.link));
    assert(l.subrange(p_link_end(t), p_link_end(t) + 4) =~= seq![32u8, 105u8, 100u8, 58u8]);
    assert(l[p_link_end(t)] == 32 && l[p_link_end(t) + 1] == 105 && l[p_link_end(t) + 2] == 100
        && l[p_link_end(t) + 3] == 58);
    assert(l.subrange(p_link_end(t) + 4, l.len() as int) =~= canon_spec(t.id));
}

/// The bucket of a canonical line scans back to the record's bucket.
#[verifier::rlimit(100)]
proof fn lemma_tc_bucket(t: TaskSpec)
    requires
        shape_wf(t),
    ensures
        cand_at(serialize_spec(t), p_cand(t)),
        run_end(serialize_spec(t), p_cand(t) + 2, word_cls()) == p_bend(t),
        serialize_spec(t).subrange(p_cand(t) + 2, p_bend(t)) == t.bucket,
{
    let l = serialize_spec(t);
    let i = p_cand(t);
    lemma_layout(t);
    assert(l[i + 2] == t.bucket[0]);
    assert(cand_at(l, i));
    assert forall|k: int| i + 2 <= k < p_bend(t) implies word_cls()(#[trigger] l[k]) by {
        assert(l[k] == t.bucket[k - (i + 2)]);
    }
    assert(l[p_bend(t)] == 32) by {
        if due_part(t.due).len() > 0 {
            assert(l[p_bend(t)] == due_part(t.due)[0]);
        } else if prio_part(t.priority).len() > 0 {
            assert(l[p_bend(t)] == prio_part(t.priority)[0]);
        } else if link_part(t.link).len() > 0 {
            assert(l[p_bend(t)] == link_part(t.link)[0]);
        } else {
            assert(l[p_bend(t)] == 32);
        }
    }
    assert(!word_cls()(l[p_bend(t)]));
    lemma_run_end(l, i + 2, p_bend(t), word_cls());
}

/// The due token of a canonical line parses back to the record's due date.
#[verifier::rlimit(100)]
proof fn lemma_tc_due(t: TaskSpec)
    requires
        shape_wf(t),
    ensures
        parse_due(serialize_spec(t), p_bend(t)) == Some((t.due, p_due_end(t))),
{
    let l = serialize_spec(t);
    lemma_layout(t);
    let j0 = p_bend(t);
    match t.due {
        Some(d) => {
            assert(due_part(t.due).len() == 12);
            assert forall|k: int| 0 <= k < 2 implies l[j0 + k] == seq![32u8, 64u8][k] by {
                assert(l[j0 + k] == due_part(t.due)[k]);
            }
            assert(contains_at(l, j0, seq![32u8, 64u8]));
            assert forall|k: int| 0 <= k < 10 implies l[j0 + 2 + k] == d[k] by {
                assert(l[j0 + 2 + k] == due_part(t.due)[2 + k]);
            }
            assert(date_shape(d));
            assert(date_at(l, j0 + 1));
            assert(l.subrange(j0 + 2, j0 + 12) =~= d);
            assert(parse_due(l, j0) == Some((Some(d), j0 + 12)));
        },
        None => {
            assert(due_part(t.due).len() == 0);
            assert(l[j0 + 1] != 64) by {
                if prio_part(t.priority).len() > 0 {
                    assert(l[j0 + 1] == prio_part(t.priority)[1]);
                } else if link_part(t.link).len() > 0 {
                    assert(l[j0 + 1] == link_part(t.link)[1]);
                } else {
                    assert(l[j0 + 1] == 105);
                }
            }
            assert(!contains_at(l, j0, seq![32u8, 64u8])) by {
                if contains_at(l, j0, seq![32u8, 64u8]) {
                    assert(l[j0 + 1] == seq![32u8, 64u8][1]);
                }
            }
            assert(parse_due(l, j0) == Some((None::<Seq<u8>>, j0)));
        },
    }
}

/// The priority token of a canonical line parses back to the record's
/// priority.
#[verifier::rlimit(100)]
proof fn lemma_tc_prio(t: TaskSpec)
    requires
        shape_wf(t),
    ensures
        parse_prio(serialize_spec(t), p_due_end(t)) == Some((t.priority, p_prio_end(t))),
{
    let l = serialize_spec(t);
    lemma_layout(t);
    let j1 = p_due_end(t);
    match t.priority {
        Some(pv) => {
            lemma_dec_props(pv as int);
            let digits = dec_spec(pv as int);
            assert(prio_part(t.priority).len() == 2 + digits.len());
            assert forall|k: int| 0 <= k < 2 implies l[j1 + k] == seq![32u8, 33u8][k] by {
                assert(l[j1 + k] == prio_part(t.priority)[k]);
            }
            assert(contains_at(l, j1, seq![32u8, 33u8]));
            assert forall|k: int| j1 + 2 <= k < j1 + 2 + digits.len() implies digit_cls()(
                #[trigger] l[k],
            ) by {
                assert(l[k] == prio_part(t.priority)[k - j1]);
                assert(l[k] == digits[k - j1 - 2]);
                assert(is_digit(digits[k - j1 - 2]));
            }
            assert(l[j1 + 2 + digits.len()] == 32) by {
                if link_part(t.link).len() > 0 {
                    assert(l[j1 + 2 + digits.len() as int] == link_part(t.link)[0]);
                } else {
                    assert(l[j1 + 2 + digits.len() as int] == 32);
                }
            }
            assert(!digit_cls()(l[j1 + 2 + digits.len()]));
            lemma_run_end(l, j1 + 2, j1 + 2 + digits.len(), digit_cls());
            assert(l.subrange(j1 + 2, j1 + 2 + digits.len()) =~= digits);
            assert(digits_val(digits) == pv as int);
            assert(digits[0] == 48 ==> pv < 10);
            assert(parse_prio(l, j1) == Some((Some(pv), p_prio_end(t))));
        },
        None => {
            assert(prio_part(t.priority).len() == 0);
            assert(l[j1 + 1] != 33) by {
                if link_part(t.link).len() > 0 {
                    assert(l[j1 + 1] == link_part(t.link)[1]);
                } else {
                    assert(l[j1 + 1] == 105);
                }
            }
            assert(!contains_at(l, j1, seq![32u8, 33u8])) by {
                if contains_at(l, j1, seq![32u8, 33u8]) {
                    assert(l[j1 + 1] == seq![32u8, 33u8][1]);
                }
            }
            assert(parse_prio(l, j1) == Some((None::<u8>, j1)));
        },
    }
}

/// The link token of a canonical line parses back to the record's link.
#[verifier::rlimit(100)]
proof fn lemma_tc_link(t: TaskSpec)
    requires
        shape_wf(t),
    ensures
        parse_link(serialize_spec(t), p_prio_end(t)) == Some((t.link, p_link_end(t))),
{
    let l = serialize_spec(t);
    lemma_layout(t);
    let j2 = p_prio_end(t);
    match t.link {
        Some(k) => {
            assert(link_part(t.link).len() == 5 + k.len());
            assert forall|q: int| 0 <= q < 3 implies l[j2 + q] == seq![32u8, 91u8, 91u8][q] by {
                assert(l[j2 + q] == link_part(t.link)[q]);
            }
            assert(contains_at(l, j2, seq![32u8, 91u8, 91u8]));
            let m = j2 + 3 + k.len();
            assert forall|q: int| 0 <= q < k.len() implies l[j2 + 3 + q] == k[q] by {
                assert(l[j2 + 3 + q] == link_part(t.link)[3 + q]);
            }
            assert(l[m] == 93 && l[m + 1] == 93) by {
                assert(l[m] == link_part(t.link)[3 + k.len() as int]);
                assert(l[m + 1] == link_part(t.link)[4 + k.len() as int]);
            }
            assert(close_at(l, m));
            assert forall|q: int| j2 + 3 <= q < m implies !close_at(l, q) by {
                if close_at(l, q) {
                    let w = q - (j2 + 3);
                    assert(l[q] == k[w]);
                    if w + 1 < k.len() {
                        assert(l[q + 1] == k[w + 1]);
                        assert(k[w] == 93 && k[w + 1] == 93);
                        assert(!close_free_ext(k));
                    } else {
                        assert(k[w] == 93 && w + 1 == k.len());
                        assert(!close_free_ext(k));
                    }
                }
            }
            assert(close_pat()(l, m));
            lemma_find_found(l, j2 + 3, m, close_pat());
            assert(l.subrange(j2 + 3, m) =~= k);
            assert(parse_link(l, j2) == Some((Some(k), p_link_end(t))));
        },
        None => {
            assert(link_part(t.link).len() == 0);
            assert(l[j2 + 1] == 105);
            assert(!contains_at(l, j2, seq![32u8, 91u8, 91u8])) by {
                if contains_at(l, j2, seq![32u8, 91u8, 91u8]) {
                    assert(l[j2 + 1] == seq![32u8, 91u8, 91u8][1]);
                }
            }
            assert(parse_link(l, j2) == Some((None::<Seq<u8>>, j2)));
        },
    }
}

/// The id token of a canonical line parses back to the record's id.
#[verifier::rlimit(100)]
proof fn lemma_tc_id(t: TaskSpec)
    requires
        shape_wf(t),
    ensures
        parse_idtail(serialize_spec(t), p_link_end(t)) == Some(t.id),
{
    let l = serialize_spec(t);
    lemma_layout(t);
    let j3 = p_link_end(t);
    assert(contains_at(l, j3, seq![32u8, 105u8, 100u8, 58u8])) by {
        let idpat = seq![32u8, 105u8, 100u8, 58u8];
        assert(idpat[0] == 32 && idpat[1] == 105 && idpat[2] == 100 && idpat[3] == 58);
        assert(forall|q: int| 0 <= q < 4 ==> l[j3 + q] == #[trigger] idpat[q]);
        assert(contains_at(l, j3, idpat));
    }
    let tok = l.subrange(j3 + 4, l.len() as int);
    assert(tok == canon_spec(t.id));
    lemma_canon_roundtrip(t.id);
    assert(is_canon_id(tok));
    assert(bytes_of_hyphenated(tok) == t.id) by {
        assert(id_parse_spec(tok) == Some(t.id));
        assert(hyphenated_ok(tok));
    }
    assert(parse_idtail(l, j3) == Some(t.id));
}

/// In a canonical line of a shaped record, the tail parses from the record's
/// own split candidate back to exactly the record's fields.
pub proof fn lemma_tail_complete(t: TaskSpec)
    requires
        shape_wf(t),
    ensures
        cand_at(serialize_spec(t), p_cand(t)),
        tail_spec(serialize_spec(t), p_cand(t)) == Some(
            TailSpec {
                bucket: t.bucket,
                due: t.due,
                priority: t.priority,
                link: t.link,
                id: t.id,
            },
        ),
{
    let l = serialize_spec(t);
    let i = p_cand(t);
    lemma_tc_bucket(t);
    lemma_tc_due(t);
    lemma_tc_prio(t);
    lemma_tc_link(t);
    lemma_tc_id(t);
    assert(tail_spec(l, i) == Some(
        TailSpec { bucket: t.bucket, due: t.due, priority: t.priority, link: t.link, id: t.id },
    ));
}

/// If some candidate at or after `i` has a parsing tail, strict parsing from
/// `i` succeeds.
pub proof fn lemma_strict_rec_complete(l: Seq<u8>, i: int, p: int)
    requires
        6 <= i <= p < l.len(),
        cand_at(l, p),
        text_ok(l.subrange(6, p)),
        tail_spec(l, p) is Some,
    ensures
        strict_rec(l, i) is Some,
    decreases p - i,
{
    if i < p {
        lemma_strict_rec_complete(l, i + 1, p);
    }
}

/// If moreover no earlier candidate exists, strict parsing lands exactly on
/// that candidate.
pub proof fn lemma_strict_rec_exact(l: Seq<u8>, i: int, p: int)
    requires
        6 <= i <= p < l.len(),
        cand_at(l, p),
        text_ok(l.subrange(6, p)),
        tail_spec(l, p) is Some,
        forall|k: int| i <= k < p ==> !cand_at(l, k),
    ensures
        strict_rec(l, i) == Some(assemble(l, p, tail_spec(l, p).unwrap())),
    decreases p - i,
{
    if i < p {
        lemma_strict_rec_exact(l, i + 1, p);
    }
}

/// In the canonical line of a record with valid fields no split candidate
/// precedes the record's own bucket marker.
pub proof fn lemma_no_early_cand(t: TaskSpec)
    requires
        wf_task(t),
    ensures
        forall|k: int| 6 <= k < p_cand(t) ==> !cand_at(serialize_spec(t), k),
{
    let l = serialize_spec(t);
    lemma_layout(t);
    assert forall|k: int| 6 <= k < p_cand(t) implies !cand_at(l, k) by {
        if cand_at(l, k) {
            if k + 1 == p_cand(t) {
                assert(l[k + 1] == 32);
            } else if k + 2 == p_cand(t) {
                assert(l[k + 2] == 32);
                assert(!is_word(32u8));
            } else {
                assert(l[k] == t.text[k - 6]);
                assert(l[k + 1] == t.text[k - 5]);
                assert(l[k + 2] == t.text[k - 4]);
                assert(t.text[k - 5] == 35 && is_word(t.text[k - 4]));
                assert(tag_at(t.text, k - 5));
                assert(!marker_free(t.text));
            }
        }
    }
}

/// Round trip (the strict direction): the canonical line of any record with
/// valid fields strict-parses back to exactly that record.
pub proof fn lemma_strict_round_trip(t: TaskSpec)
    requires
        wf_task(t),
    ensures
        strict_spec(serialize_spec(t)) == Some(t),
{
    let l = serialize_spec(t);
    lemma_layout(t);
    lemma_tail_complete(t);
    assert(head_ok(l));
    assert(text_ok(l.subrange(6, p_cand(t)))) by {
        assert(l.subrange(6, p_cand(t)) == t.text);
        lemma_marker_free_text_ok(t.text);
    }
    lemma_no_early_cand(t);
    lemma_strict_rec_exact(l, 6, p_cand(t));
    let t2 = assemble(l, p_cand(t), tail_spec(l, p_cand(t)).unwrap());
    assert(t2.completed == t.completed) by {
        assert(l[3] == head_spec(t.completed)[3]);
    }
    assert(t2.text == t.text);
    assert(t2 =~= t);
}


/// The content between `from` and the first `]]` after it closes at exactly
/// one place once `]]` is appended.
pub proof fn lemma_first_close_free(l: Seq<u8>, from: int, m: int)
    requires
        0 <= from,
        find_at(l, from, close_pat()) == Some(m),
    ensures
        from <= m && m + 1 < l.len() && l[m] == 93 && l[m + 1] == 93,
        close_free_ext(l.subrange(from, m)),
{
    lemma_find_props(l, from, close_pat());
    assert(close_pat()(l, m));
    assert(close_at(l, m));
    let k = l.subrange(from, m);
    assert forall|w: int| #![trigger k[w]] 0 <= w < k.len() implies !(k[w] == 93 && (w + 1
        == k.len() || k[w + 1] == 93)) by {
        if k[w] == 93 && (w + 1 == k.len() || k[w + 1] == 93) {
            assert(l[from + w] == 93);
            if w + 1 == k.len() {
                assert(from + w == m - 1);
                assert(l[m - 1] == 93 && l[m] == 93);
                assert(close_at(l, m - 1));
                assert(close_pat()(l, m - 1));
            } else {
                assert(l[from + w + 1] == 93);
                assert(close_at(l, from + w));
                assert(close_pat()(l, from + w));
            }
        }
    }
}

/// What the due parser accepts is the print of what it returns.
#[verifier::rlimit(100)]
proof fn lemma_ts_due(l: Seq<u8>, j: int)
    requires
        0 <= j <= l.len(),
    ensures
        match parse_due(l, j) {
            Some(p) => j <= p.1 <= l.len() && l.subrange(j, p.1) == due_part(p.0) && (match p.0 {
                Some(d) => date_shape(d),
                None => true,
            }),
            None => true,
        },
{
    if contains_at(l, j, seq![32u8, 64u8]) {
        if date_at(l, j + 1) {
            let d = l.subrange(j + 2, j + 12);
            assert(date_shape(d));
            assert(l.subrange(j, j + 12) =~= seq![32u8, 64u8] + d);
        }
    } else {
        assert(l.subrange(j, j) =~= due_part(None::<Seq<u8>>));
    }
}

/// What the priority parser accepts is the print of what it returns.
#[verifier::rlimit(100)]
proof fn lemma_ts_prio(l: Seq<u8>, j: int)
    requires
        0 <= j <= l.len(),
    ensures
        match parse_prio(l, j) {
            Some(p) => j <= p.1 <= l.len() && l.subrange(j, p.1) == prio_part(p.0),
            None => true,
        },
{
    if contains_at(l, j, seq![32u8, 33u8]) {
        let e = run_end(l, j + 2, digit_cls());
        lemma_run_end_props(l, j + 2, digit_cls());
        let digits = l.subrange(j + 2, e);
        if j + 2 < e && e - (j + 2) <= 3 && (e == j + 3 || l[j + 2] != 48) && digits_val(digits)
            <= 255 {
            assert forall|q: int| 0 <= q < digits.len() implies is_digit(#[trigger] digits[q]) by {
                assert(digits[q] == l[j + 2 + q]);
                assert(digit_cls()(l[j + 2 + q]));
            }
            lemma_digits_canonical(digits);
            assert(dec_spec(digits_val(digits)) == digits);
            assert(l.subrange(j, e) =~= seq![32u8, 33u8] + digits);
        }
    } else {
        assert(l.subrange(j, j) =~= prio_part(None::<u8>));
    }
}

/// What the link parser accepts is the print of what it returns.
#[verifier::rlimit(100)]
proof fn lemma_ts_link(l: Seq<u8>, j: int)
    requires
        0 <= j <= l.len(),
    ensures
        match parse_link(l, j) {
            Some(p) => j <= p.1 <= l.len() && l.subrange(j, p.1) == link_part(p.0) && (match p.0 {
                Some(k) => close_free_ext(k),
                None => true,
            }),
            None => true,
        },
{
    if contains_at(l, j, seq![32u8, 91u8, 91u8]) {
        match find_at(l, j + 3, close_pat()) {
            Some(m) => {
                lemma_first_close_free(l, j + 3, m);
                let k = l.subrange(j + 3, m);
                assert(l.subrange(j, m + 2) =~= seq![32u8, 91u8, 91u8] + k + seq![93u8, 93u8]);
            },
            None => {},
        }
    } else {
        assert(l.subrange(j, j) =~= link_part(None::<Seq<u8>>));
    }
}

/// What the id parser accepts: the ` id:` head, then a token that parses
/// as the returned sixteen bytes.
#[verifier::spinoff_prover]
#[verifier::rlimit(100)]
proof fn lemma_ts_id(l: Seq<u8>, j: int)
    requires
        0 <= j <= l.len(),
    ensures
        match parse_idtail(l, j) {
            Some(id) => j + 4 <= l.len() && l.subrange(j, j + 4) == seq![32u8, 105u8, 100u8, 58u8]
                && id_parse_spec(l.subrange(j + 4, l.len() as int)) == Some(id) && id.len() == 16,
            None => true,
        },
{
    if contains_at(l, j, seq![32u8, 105u8, 100u8, 58u8]) {
        let tok = l.subrange(j + 4, l.len() as int);
        match id_parse_spec(tok) {
            Some(id) => {
                assert(id.len() == 16) by {
                    if hyphenated_ok(tok) {
                        assert(id == bytes_of_hyphenated(tok));
                    } else {
                        assert(id == crate::task_id::bytes_of_simple(tok));
                    }
                }
                assert(l.subrange(j, j + 4) =~= seq![32u8, 105u8, 100u8, 58u8]);
            },
            None => {},
        }
    }
}

/// Whatever the tail parser accepts decomposes the rest of the line into
/// the canonical prints of the fields it returns, followed by an id token
/// that parses to the returned id; and those fields are shaped.
#[verifier::rlimit(100)]
pub proof fn lemma_tail_sound(l: Seq<u8>, i: int)
    requires
        cand_at(l, i),
    ensures
        match tail_spec(l, i) {
            Some(f) => (exists|z: int|
                #![trigger l.subrange(z, l.len() as int)]
                i + 2 <= z <= l.len() && l.subrange(i, z) == seq![32u8, 35u8] + f.bucket
                    + due_part(f.due) + prio_part(f.priority) + link_part(f.link) + seq![
                    32u8,
                    105u8,
                    100u8,
                    58u8,
                ] && id_parse_spec(l.subrange(z, l.len() as int)) == Some(f.id)) && f.bucket.len()
                > 0 && (forall|q: int| 0 <= q < f.bucket.len() ==> is_word(#[trigger] f.bucket[q]))
                && (match f.due {
                Some(d) => date_shape(d),
                None => true,
            }) && (match f.link {
                Some(k) => close_free_ext(k),
                None => true,
            }) && f.id.len() == 16,
            None => true,
        },
{
    if tail_spec(l, i) is Some {
        let b_end = run_end(l, i + 2, word_cls());
        lemma_run_end_props(l, i + 2, word_cls());
        assert(word_cls()(l[i + 2]));
        assert(b_end > i + 2) by {
            if b_end == i + 2 {
                assert(!word_cls()(l[i + 2]));
            }
        }
        let bucket = l.subrange(i + 2, b_end);
        assert forall|q: int| 0 <= q < bucket.len() implies is_word(#[trigger] bucket[q]) by {
            assert(bucket[q] == l[i + 2 + q]);
            assert(word_cls()(l[i + 2 + q]));
        }
        let (due, j1) = parse_due(l, b_end).unwrap();
        lemma_ts_due(l, b_end);
        let (prio, j2) = parse_prio(l, j1).unwrap();
        lemma_ts_prio(l, j1);
        let (link, j3) = parse_link(l, j2).unwrap();
        lemma_ts_link(l, j2);
        let id = parse_idtail(l, j3).unwrap();
        lemma_ts_id(l, j3);
        let z = j3 + 4;
        assert(l.subrange(i, i + 2) =~= seq![32u8, 35u8]);
        assert(l.subrange(i, z) =~= l.subrange(i, i + 2) + l.subrange(i + 2, b_end) + l.subrange(
            b_end,
            j1,
        ) + l.subrange(j1, j2) + l.subrange(j2, j3) + l.subrange(j3, z));
        assert(l.subrange(i, z) == seq![32u8, 35u8] + bucket + due_part(due) + prio_part(prio)
            + link_part(link) + seq![32u8, 105u8, 100u8, 58u8]);
        assert(id_parse_spec(l.subrange(z, l.len() as int)) == Some(id));
    }
}

/// One accepted split: the record's fields are shaped, its text region is
/// acceptable, and the line is the record's print with the id token as
/// written in place of the canonical id text.
#[verifier::spinoff_prover]
#[verifier::rlimit(100)]
proof fn lemma_strict_accept_sound(l: Seq<u8>, i: int)
    requires
        head_ok(l),
        6 <= i < l.len(),
        cand_at(l, i),
        text_ok(l.subrange(6, i)),
        tail_spec(l, i) is Some,
    ensures
        ({
            let t = assemble(l, i, tail_spec(l, i).unwrap());
            shape_wf(t) && text_ok(t.text) && (exists|z: int|
                #![trigger l.subrange(z, l.len() as int)]
                0 <= z <= l.len() && id_parse_spec(l.subrange(z, l.len() as int)) == Some(t.id)
                    && serialize_spec(t) == l.subrange(0, z) + canon_spec(t.id))
        }),
{
    let f = tail_spec(l, i).unwrap();
    let t = assemble(l, i, f);
    lemma_tail_sound(l, i);
    let z = choose|z: int|
        #![trigger l.subrange(z, l.len() as int)]
        i + 2 <= z <= l.len() && l.subrange(i, z) == seq![32u8, 35u8] + f.bucket + due_part(f.due)
            + prio_part(f.priority) + link_part(f.link) + seq![32u8, 105u8, 100u8, 58u8]
            && id_parse_spec(l.subrange(z, l.len() as int)) == Some(f.id);
    assert(head_spec(t.completed) =~= l.subrange(0, 6));
    assert(l.subrange(0, z) =~= l.subrange(0, 6) + l.subrange(6, i) + l.subrange(i, z));
    assert(serialize_spec(t) =~= l.subrange(0, z) + canon_spec(t.id));
    assert(shape_wf(t));
}

/// Whatever strict parsing accepts is shaped, carries acceptable text, and
/// prints back to the line itself up to canonicalization of the id token.
pub proof fn lemma_strict_rec_sound(l: Seq<u8>, i: int)
    requires
        head_ok(l),
        6 <= i,
    ensures
        match strict_rec(l, i) {
            Some(t) => shape_wf(t) && text_ok(t.text) && (exists|z: int|
                #![trigger l.subrange(z, l.len() as int)]
                0 <= z <= l.len() && id_parse_spec(l.subrange(z, l.len() as int)) == Some(t.id)
                    && serialize_spec(t) == l.subrange(0, z) + canon_spec(t.id)),
            None => true,
        },
    decreases l.len() - i,
{
    if i >= l.len() {
    } else if cand_at(l, i) && text_ok(l.subrange(6, i)) && tail_spec(l, i) is Some {
        lemma_strict_accept_sound(l, i);
    } else {
        lemma_strict_rec_sound(l, i + 1);
    }
}

/// Strict soundness for a whole line.
pub proof fn lemma_strict_sound(l: Seq<u8>)
    ensures
        match strict_spec(l) {
            Some(t) => shape_wf(t) && text_ok(t.text) && (exists|z: int|
                #![trigger l.subrange(z, l.len() as int)]
                0 <= z <= l.len() && id_parse_spec(l.subrange(z, l.len() as int)) == Some(t.id)
                    && serialize_spec(t) == l.subrange(0, z) + canon_spec(t.id)),
            None => true,
        },
{
    if head_ok(l) {
        lemma_strict_rec_sound(l, 6);
    }
}

/// The canonical line of any shaped record with acceptable text is
/// accepted by strict parsing, and re-prints to itself: the reconciler's
/// own output is a fixed point.
#[verifier::rlimit(100)]
pub proof fn lemma_strict_fixed(t: TaskSpec)
    requires
        shape_wf(t),
        text_ok(t.text),
    ensures
        strict_spec(serialize_spec(t)) matches Some(t2) && serialize_spec(t2) == serialize_spec(t)
            && shape_wf(t2) && text_ok(t2.text),
{
    let l = serialize_spec(t);
    lemma_layout(t);
    lemma_tail_complete(t);
    assert(head_ok(l));
    assert(p_cand(t) < l.len());
    assert(text_ok(l.subrange(6, p_cand(t)))) by {
        assert(l.subrange(6, p_cand(t)) == t.text);
    }
    lemma_strict_rec_complete(l, 6, p_cand(t));
    lemma_strict_sound(l);
    let t2 = strict_spec(l).unwrap();
    let z = choose|z: int|
        #![trigger l.subrange(z, l.len() as int)]
        0 <= z <= l.len() && id_parse_spec(l.subrange(z, l.len() as int)) == Some(t2.id)
            && serialize_spec(t2) == l.subrange(0, z) + canon_spec(t2.id);
    let tok = l.subrange(z, l.len() as int);
    // the id token of a canonical line can only be the canonical id text:
    // a parseable token is 36 or 32 bytes long, and the 32-byte suffix of a
    // canonical id text holds a dash where the simple form demands hex
    assert(tok.len() == 36 || tok.len() == 32) by {
        if !hyphenated_ok(tok) && !simple_ok(tok) {
            assert(id_parse_spec(tok) is None);
        }
    }
    if tok.len() == 36 {
        assert(z == l.len() - 36);
        assert(z == p_link_end(t) + 4);
        assert(tok == canon_spec(t.id)) by {
            assert(l.subrange(p_link_end(t) + 4, l.len() as int) == canon_spec(t.id));
        }
        lemma_canon_roundtrip(t.id);
        assert(is_canon_id(tok));
        lemma_parse_canon(tok);
        assert(canon_spec(t2.id) == tok);
        assert(serialize_spec(t2) =~= l);
    } else {
        assert(z == l.len() - 32);
        assert(tok[4] == l[z + 4]);
        assert(z + 4 == p_link_end(t) + 4 + 8);
        assert(l[p_link_end(t) + 4 + 8] == canon_spec(t.id)[8]) by {
            assert(l.subrange(p_link_end(t) + 4, l.len() as int) == canon_spec(t.id));
        }
        assert(crate::task_id::is_dash_pos(8));
        assert(canon_spec(t.id)[8] == 45);
        assert(!crate::scan::is_hex(45u8));
        assert(!simple_ok(tok));
        assert(!hyphenated_ok(tok));
        assert(id_parse_spec(tok) is None);
        assert(false);
    }
}

/// Everything the lenient parser recovers is shaped.
pub proof fn lemma_lenient_shape(l: Seq<u8>, f: Seq<u8>)
    requires
        f.len() == 16,
    ensures
        match lenient_spec(l, f) {
            Some(t) => shape_wf(t),
            None => true,
        },
{
    if checkbox_prefix(l) is Some {
        let t = lenient_spec(l, f).unwrap();
        // bucket
        match find_at(l, 0, tag_pat()) {
            Some(i) => {
                lemma_find_props(l, 0, tag_pat());
                assert(tag_pat()(l, i));
                assert(tag_at(l, i));
                lemma_run_end_props(l, i + 1, word_cls());
                let e = run_end(l, i + 1, word_cls());
                assert(word_cls()(l[i + 1]));
                assert(e > i + 1) by {
                    if e == i + 1 {
                        assert(!word_cls()(l[i + 1]));
                    }
                }
                assert forall|q: int| 0 <= q < t.bucket.len() implies is_word(
                    #[trigger] t.bucket[q],
                ) by {
                    assert(t.bucket[q] == l[i + 1 + q]);
                    assert(word_cls()(l[i + 1 + q]));
                }
            },
            None => {
                assert(t.bucket == default_bucket());
                assert forall|q: int| 0 <= q < t.bucket.len() implies is_word(
                    #[trigger] t.bucket[q],
                ) by {
                    assert(default_bucket()[0] == 103 && default_bucket()[1] == 101
                        && default_bucket()[2] == 110 && default_bucket()[3] == 101
                        && default_bucket()[4] == 114 && default_bucket()[5] == 97
                        && default_bucket()[6] == 108);
                }
            },
        }
        // due
        match find_at(l, 0, date_pat()) {
            Some(i) => {
                lemma_find_props(l, 0, date_pat());
                assert(date_pat()(l, i));
                assert(date_at(l, i));
                assert(date_shape(l.subrange(i + 1, i + 11)));
            },
            None => {},
        }
        // link
        match find_at(l, 0, open_pat()) {
            Some(i) => {
                lemma_find_props(l, 0, open_pat());
                match find_at(l, i + 2, close_pat()) {
                    Some(m) => {
                        lemma_first_close_free(l, i + 2, m);
                    },
                    None => {},
                }
            },
            None => {},
        }
        // id
        match extract_id_spec(l) {
            Some(b) => {
                assert(b.len() == 16) by {
                    match find_at(l, 0, idtok_pat()) {
                        Some(i) => {
                            let tok = l.subrange(i + 3, run_end(l, i + 3, hex_dash_cls()));
                            assert(id_parse_spec(tok) == Some(b));
                        },
                        None => {},
                    }
                }
            },
            None => {},
        }
        assert(shape_wf(t));
    }
}

/// Lenient recovery is total: any line with a checkbox-like prefix yields a
/// record, its bucket defaulted when the line names none, its id taken from
/// the line's id token when one parses and minted afresh otherwise.
pub proof fn lemma_lenient_total(l: Seq<u8>, f: Seq<u8>)
    requires
        checkbox_prefix(l) is Some,
        f.len() == 16,
    ensures
        lenient_spec(l, f) matches Some(t) && {
            &&& (extract_bucket_spec(l) is None ==> t.bucket == default_bucket())
            &&& (extract_bucket_spec(l) matches Some(b) ==> t.bucket == b)
            &&& (extract_id_spec(l) is None ==> t.id == f)
            &&& (extract_id_spec(l) matches Some(b) ==> t.id == b)
            &&& t.completed == lenient_completed(l)
            &&& t.text == clean_text_spec(l)
            &&& shape_wf(t)
        },
{
    lemma_lenient_shape(l, f);
}

/// A task-like line that strict parsing rejects and whose id token (if
/// any) does not parse is not dropped: the record is recovered leniently,
/// every field the lenient extractors find, and the id is the freshly
/// minted one rather than a failure.
pub proof fn lemma_unparseable_id_recovers(l: Seq<u8>, f: Seq<u8>)
    requires
        strict_spec(l) is None,
        checkbox_prefix(l) is Some,
        extract_id_spec(l) is None,
        f.len() == 16,
    ensures
        parse_line_spec(l, f) matches Some(t) && {
            &&& t.id == f
            &&& t.completed == lenient_completed(l)
            &&& t.text == clean_text_spec(l)
            &&& t.bucket == lenient_bucket(l)
            &&& t.due == extract_due_spec(l)
            &&& t.link == extract_link_spec(l)
            &&& t.priority == extract_priority_spec(l)
        },
{
    lemma_lenient_total(l, f);
}

/// Round trip: a record with valid fields survives printing and re-parsing
/// unchanged, whatever fresh id the lenient tier would have minted — the
/// strict tier accepts the canonical line first.
pub proof fn lemma_round_trip(t: TaskSpec, f: Seq<u8>)
    requires
        wf_task(t),
    ensures
        parse_line_spec(serialize_spec(t), f) == Some(t),
{
    lemma_strict_round_trip(t);
}

/// Canonical serialization is deterministic and faithful: two records with
/// valid fields print to the same line only when they are the same record.
pub proof fn lemma_serialize_injective(a: TaskSpec, b: TaskSpec)
    requires
        wf_task(a),
        wf_task(b),
        serialize_spec(a) == serialize_spec(b),
    ensures
        a == b,
{
    lemma_strict_round_trip(a);
    lemma_strict_round_trip(b);
}

} // verus!



