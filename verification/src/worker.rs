//! The reconciler and the debounced-watch state machine.
//!
//! `normalize_content` turns whole-file content into canonical form: every
//! non-blank line is parsed (strict, then lenient) and re-printed as its
//! canonical line; blank and non-task lines are dropped.  The result is
//! written back only when it differs, which `lemma_normalize_idempotent`
//! shows can happen at most once per external change, whatever the file
//! held.
//!
//! `FileDebouncer` decides, from a clock reading and a content hash, whether
//! a file-change notification deserves a reconciliation pass; the file
//! watching itself is plain I/O and lives outside the library.

use vstd::prelude::*;

use crate::scan::{is_space, is_digit, is_word, contains_at, find_at, run_end, trim_spec,
    lemma_find_found, lemma_find_props, lemma_run_end, lemma_run_end_props, lemma_trim_id,
    lemma_trim_props, space_cls, copy_range, trim_bytes};
use crate::record::{TaskSpec, ParsedTask, serialize_spec, shape_wf, head_spec, due_part,
    prio_part, link_part, dec_spec, lemma_dec_props, date_shape, close_free_ext};
use crate::task_parser::{strict_spec, lenient_spec, parse_line_spec, checkbox_prefix,
    clean_text_spec, strip_checkbox, strip_all, marker_pat, marker_tok_at, marker_end, text_ok,
    lemma_marker_end_bounds, lemma_clean_text_ok, lemma_strict_sound, lemma_strict_fixed,
    lemma_lenient_shape, p_cand, p_bend, p_due_end, p_prio_end, p_link_end, lemma_layout};
use crate::task_id::id_parse_spec;
use crate::task_id::{canon_spec, hex_char, is_dash_pos, undash};

verus! {

// ---------------------------------------------------------------------------
// content hashing
// ---------------------------------------------------------------------------

/// One step of the running 64-bit FNV-1a hash.
pub open spec fn hash_step(h: u64, b: u8) -> u64 {
    (h ^ (b as u64)).wrapping_mul(0x100000001b3u64)
}

/// The hash of whole file content: deterministic, so that equal content
/// always collides with itself across reconciliation passes.
pub open spec fn hash_spec(s: Seq<u8>) -> u64
    decreases s.len(),
{
    if s.len() == 0 {
        0xcbf29ce484222325u64
    } else {
        hash_step(hash_spec(s.drop_last()), s.last())
    }
}

/// Hash of file content, used to recognise already-seen content.
pub fn simple_hash(content: &[u8]) -> (r: u64)
    ensures
        r == hash_spec(content@),
{
    let mut h: u64 = 0xcbf29ce484222325;
    let mut i: usize = 0;
    assert(content@.subrange(0, 0) =~= Seq::<u8>::empty());
    while i < content.len()
        invariant
            i <= content@.len(),
            h == hash_spec(content@.subrange(0, i as int)),
        decreases content@.len() - i,
    {
        proof {
            assert(content@.subrange(0, i as int + 1).drop_last() =~= content@.subrange(
                0,
                i as int,
            ));
            assert(content@.subrange(0, i as int + 1).last() == content@[i as int]);
        }
        h = (h ^ (content[i] as u64)).wrapping_mul(0x100000001b3);
        i += 1;
    }
    assert(content@.subrange(0, content@.len() as int) =~= content@);
    h
}

/// Byte equality of two slices.
pub fn eq_bytes(a: &[u8], b: &[u8]) -> (r: bool)
    ensures
        r == (a@ == b@),
{
    if a.len() != b.len() {
        return false;
    }
    let mut i: usize = 0;
    while i < a.len()
        invariant
            a@.len() == b@.len(),
            i <= a@.len(),
            forall|k: int| 0 <= k < i ==> a@[k] == b@[k],
        decreases a@.len() - i,
    {
        if a[i] != b[i] {
            assert(a@ != b@);
            return false;
        }
        i += 1;
    }
    assert(a@ =~= b@);
    true
}

// ---------------------------------------------------------------------------
// reconciliation
// ---------------------------------------------------------------------------

pub open spec fn nl_pat() -> spec_fn(Seq<u8>, int) -> bool {
    |s: Seq<u8>, i: int| s[i] == 10
}

/// What one raw line contributes to the normalized file: nothing when blank
/// or not task syntax, else the canonical print of its record.
pub open spec fn norm_line(line: Seq<u8>, f: Seq<u8>) -> Seq<Seq<u8>> {
    let t = trim_spec(line);
    if t.len() == 0 {
        Seq::empty()
    } else {
        match parse_line_spec(t, f) {
            Some(r) => seq![serialize_spec(r)],
            None => Seq::empty(),
        }
    }
}

/// The canonical lines of whole content, one raw line at a time; `fs` feeds
/// one fresh id per raw line, used only where a line has none of its own.
pub open spec fn norm_lines(c: Seq<u8>, fs: Seq<Seq<u8>>) -> Seq<Seq<u8>>
    decreases c.len(),
    via norm_lines_dec
{
    match find_at(c, 0, nl_pat()) {
        Some(k) => norm_line(c.subrange(0, k), fs[0]) + norm_lines(
            c.subrange(k + 1, c.len() as int),
            fs.drop_first(),
        ),
        None => norm_line(c, fs[0]),
    }
}

#[via_fn]
proof fn norm_lines_dec(c: Seq<u8>, fs: Seq<Seq<u8>>) {
    lemma_find_props(c, 0, nl_pat());
}

/// How many raw lines content has.
pub open spec fn line_count(c: Seq<u8>) -> int
    decreases c.len(),
    via line_count_dec
{
    match find_at(c, 0, nl_pat()) {
        Some(k) => 1 + line_count(c.subrange(k + 1, c.len() as int)),
        None => 1,
    }
}

#[via_fn]
proof fn line_count_dec(c: Seq<u8>) {
    lemma_find_props(c, 0, nl_pat());
}

/// Canonical lines joined by single newlines.
pub open spec fn join_nl(ls: Seq<Seq<u8>>) -> Seq<u8>
    decreases ls.len(),
{
    if ls.len() == 0 {
        Seq::empty()
    } else if ls.len() == 1 {
        ls[0]
    } else {
        ls[0] + seq![10u8] + join_nl(ls.drop_first())
    }
}

/// The normalized form of whole content: its canonical lines, joined and
/// newline-terminated.
pub open spec fn normalize_spec(c: Seq<u8>, fs: Seq<Seq<u8>>) -> Seq<u8> {
    join_nl(norm_lines(c, fs)) + seq![10u8]
}

pub proof fn lemma_join_snoc(ls: Seq<Seq<u8>>, x: Seq<u8>)
    ensures
        join_nl(ls.push(x)) == if ls.len() == 0 {
            x
        } else {
            join_nl(ls) + seq![10u8] + x
        },
    decreases ls.len(),
{
    if ls.len() == 0 {
        assert(ls.push(x).len() == 1);
        assert(join_nl(ls.push(x)) == ls.push(x)[0]);
        assert(ls.push(x)[0] == x);
    } else {
        assert(ls.push(x).drop_first() =~= ls.drop_first().push(x));
        lemma_join_snoc(ls.drop_first(), x);
        if ls.len() == 1 {
            assert(join_nl(ls.push(x)) == ls[0] + seq![10u8] + x);
            assert(join_nl(ls) == ls[0]);
        } else {
            assert(join_nl(ls.push(x)) == ls[0] + seq![10u8] + (join_nl(ls.drop_first())
                + seq![10u8] + x));
            assert(ls[0] + seq![10u8] + (join_nl(ls.drop_first()) + seq![10u8] + x) =~= (ls[0]
                + seq![10u8] + join_nl(ls.drop_first())) + seq![10u8] + x);
        }
    }
}

/// Reconcile whole file content: every surviving line re-printed in
/// canonical form, blank lines dropped, the result newline-terminated.
/// Returns the new content, how many records were retained, and whether the
/// new content differs from the old (only then need the caller write).
#[verifier::rlimit(100)]
pub fn normalize_content(content: &[u8]) -> (r: (Vec<u8>, usize, bool))
    ensures
        exists|fs: Seq<Seq<u8>>|
            #![trigger normalize_spec(content@, fs)]
            {
                &&& fs.len() == line_count(content@)
                &&& (forall|q: int| 0 <= q < fs.len() ==> #[trigger] fs[q].len() == 16)
                &&& r.0@ == normalize_spec(content@, fs)
                &&& r.1 as int == norm_lines(content@, fs).len()
            },
        r.2 == (r.0@ != content@),
{
    let n = content.len();
    let mut lines: Vec<Vec<u8>> = Vec::new();
    let ghost mut acc: Seq<Seq<u8>> = Seq::empty();
    let ghost mut fsa: Seq<Seq<u8>> = Seq::empty();
    let mut start: usize = 0;
    let mut done: bool = false;
    proof {
        assert(content@.subrange(0, n as int) =~= content@);
        assert forall|fr: Seq<Seq<u8>>|
            #[trigger] norm_lines(content@, fsa + fr) == acc + norm_lines(
                content@.subrange(0, n as int),
                fr,
            ) by {
            assert(fsa + fr =~= fr);
            assert(acc + norm_lines(content@, fr) =~= norm_lines(content@, fr));
        }
    }
    while !done
        invariant
            start <= n,
            n == content@.len(),
            forall|q: int| 0 <= q < fsa.len() ==> #[trigger] fsa[q].len() == 16,
            lines@.len() == acc.len(),
            forall|q: int| 0 <= q < acc.len() ==> #[trigger] lines@[q]@ == acc[q],
            !done ==> (forall|fr: Seq<Seq<u8>>|
                #[trigger] norm_lines(content@, fsa + fr) == acc + norm_lines(
                    content@.subrange(start as int, n as int),
                    fr,
                )),
            !done ==> line_count(content@) == fsa.len() + line_count(
                content@.subrange(start as int, n as int),
            ),
            done ==> norm_lines(content@, fsa) == acc && line_count(content@) == fsa.len() as int,
        decreases n - start, (if done {
            0int
        } else {
            1int
        }),
    {
        let ghost fsa0 = fsa;
        let ghost acc0 = acc;
        let ghost start0 = start as int;
        let ghost sfx = content@.subrange(start as int, n as int);
        // find the next newline
        let mut m: usize = start;
        while m < n && content[m] != 10
            invariant
                start <= m <= n,
                n == content@.len(),
                sfx == content@.subrange(start as int, n as int),
                find_at(sfx, 0, nl_pat()) == find_at(sfx, m - start, nl_pat()),
            decreases n - m,
        {
            assert(sfx[m - start] == content@[m as int]);
            assert(!nl_pat()(sfx, m - start));
            assert(find_at(sfx, m - start, nl_pat()) == find_at(sfx, m - start + 1, nl_pat()));
            m += 1;
        }
        proof {
            if m < n {
                assert(sfx[m - start] == content@[m as int]);
                assert(nl_pat()(sfx, m - start));
                assert(find_at(sfx, m - start, nl_pat()) == Some((m - start) as int));
            } else {
                assert(find_at(sfx, m - start, nl_pat()) is None);
            }
        }
        // this raw line's contribution
        let ghost raw = content@.subrange(start as int, m as int);
        let rawv = copy_range(content, start, m);
        let seg = trim_bytes(rawv.as_slice());
        let ghost mut fused: Seq<u8> = Seq::new(16, |q: int| 0u8);
        assert(fused.len() == 16);
        if seg.len() > 0 {
            match ParsedTask::from_line(seg.as_slice()) {
                Some(t) => {
                    proof {
                        let f = choose|f: Seq<u8>|
                            f.len() == 16 && parse_line_spec(seg@, f) == Some(t@);
                        fused = f;
                    }
                    let line = t.to_line();
                    lines.push(line);
                    proof {
                        acc = acc + seq![serialize_spec(t@)];
                        assert(norm_line(raw, fused) =~= seq![serialize_spec(t@)]);
                    }
                },
                None => {
                    proof {
                        assert(parse_line_spec(seg@, fused) is None);
                        assert(norm_line(raw, fused) =~= Seq::<Seq<u8>>::empty());
                        acc = acc + norm_line(raw, fused);
                        assert(acc =~= acc0);
                    }
                },
            }
        } else {
            proof {
                assert(norm_line(raw, fused) =~= Seq::<Seq<u8>>::empty());
                acc = acc + norm_line(raw, fused);
                assert(acc =~= acc0);
            }
        }
        proof {
            fsa = fsa + seq![fused];
            assert(acc =~= acc0 + norm_line(raw, fused));
        }
        if m < n {
            start = m + 1;
            proof {
                let kk = m as int - start0;
                assert(find_at(sfx, 0, nl_pat()) == Some(kk));
                assert forall|fr: Seq<Seq<u8>>|
                    #[trigger] norm_lines(content@, fsa + fr) == acc + norm_lines(
                        content@.subrange(start as int, n as int),
                        fr,
                    ) by {
                    let fr2 = seq![fused] + fr;
                    assert(norm_lines(content@, fsa0 + fr2) == acc0 + norm_lines(sfx, fr2));
                    assert(fsa0 + fr2 =~= fsa + fr);
                    assert(norm_lines(sfx, fr2) == norm_line(sfx.subrange(0, kk), fr2[0])
                        + norm_lines(sfx.subrange(kk + 1, sfx.len() as int), fr2.drop_first()));
                    assert(fr2[0] == fused);
                    assert(fr2.drop_first() =~= fr);
                    assert(sfx.subrange(0, kk) =~= raw);
                    assert(sfx.subrange(kk + 1, sfx.len() as int) =~= content@.subrange(
                        start as int,
                        n as int,
                    ));
                    assert(acc0 + (norm_line(raw, fused) + norm_lines(
                        content@.subrange(start as int, n as int),
                        fr,
                    )) =~= acc + norm_lines(content@.subrange(start as int, n as int), fr));
                }
                assert(line_count(sfx) == 1 + line_count(
                    sfx.subrange(kk + 1, sfx.len() as int),
                ));
                assert(sfx.subrange(kk + 1, sfx.len() as int) =~= content@.subrange(
                    start as int,
                    n as int,
                ));
            }
        } else {
            done = true;
            proof {
                let fr2 = seq![fused];
                assert(norm_lines(content@, fsa0 + fr2) == acc0 + norm_lines(sfx, fr2));
                assert(fsa0 + fr2 =~= fsa);
                assert(find_at(sfx, 0, nl_pat()) is None);
                assert(norm_lines(sfx, fr2) == norm_line(sfx, fr2[0]));
                assert(fr2[0] == fused);
                assert(sfx =~= raw);
                assert(acc0 + norm_line(raw, fused) =~= acc);
                assert(line_count(sfx) == 1);
            }
        }
    }
    // assemble the output
    let mut out: Vec<u8> = Vec::new();
    let mut q: usize = 0;
    assert(acc.subrange(0, 0) =~= Seq::<Seq<u8>>::empty());
    while q < lines.len()
        invariant
            q <= lines@.len(),
            lines@.len() == acc.len(),
            forall|w: int| 0 <= w < acc.len() ==> #[trigger] lines@[w]@ == acc[w],
            out@ == join_nl(acc.subrange(0, q as int)),
        decreases lines@.len() - q,
    {
        if q > 0 {
            out.push(10);
        }
        let mut w: usize = 0;
        let ghost outpre = out@;
        while w < lines[q].len()
            invariant
                q < lines@.len(),
                w <= lines@[q as int]@.len(),
                out@ == outpre + lines@[q as int]@.subrange(0, w as int),
            decreases lines@[q as int]@.len() - w,
        {
            let b = lines[q][w];
            out.push(b);
            w += 1;
            assert(out@ =~= outpre + lines@[q as int]@.subrange(0, w as int));
        }
        assert(out@ =~= outpre + lines@[q as int]@);
        proof {
            lemma_join_snoc(acc.subrange(0, q as int), acc[q as int]);
            assert(acc.subrange(0, q as int).push(acc[q as int]) =~= acc.subrange(
                0,
                q as int + 1,
            ));
            if q == 0 {
                assert(out@ =~= join_nl(acc.subrange(0, q as int + 1)));
            } else {
                assert(out@ =~= join_nl(acc.subrange(0, q as int + 1)));
            }
        }
        q += 1;
    }
    assert(acc.subrange(0, acc.len() as int) =~= acc);
    out.push(10);
    assert(out@ =~= join_nl(acc) + seq![10u8]);
    let kept = lines.len();
    let changed = !eq_bytes(out.as_slice(), content);
    assert(out@ == normalize_spec(content@, fsa));
    (out, kept, changed)
}


// ---------------------------------------------------------------------------
// idempotence
// ---------------------------------------------------------------------------

/// No byte of `s` is a newline.
pub open spec fn no_nl(s: Seq<u8>) -> bool {
    forall|q: int| 0 <= q < s.len() ==> #[trigger] s[q] != 10
}

/// A line the reconciler has already fixed: non-blank, trim-stable,
/// newline-free, and strict parsing re-prints it byte for byte.
pub open spec fn fixed_line(x: Seq<u8>) -> bool {
    &&& x.len() > 0
    &&& !is_space(x[0])
    &&& !is_space(x[x.len() - 1])
    &&& no_nl(x)
    &&& match strict_spec(x) {
        Some(t) => serialize_spec(t) == x,
        None => false,
    }
}

/// No byte of the canonical line of a shaped record with newline-free text
/// and link is a newline.
#[verifier::spinoff_prover]
#[verifier::rlimit(100)]
proof fn lemma_serialize_no_nl(t: TaskSpec)
    requires
        shape_wf(t),
        no_nl(t.text),
        match t.link {
            Some(k) => no_nl(k),
            None => true,
        },
    ensures
        no_nl(serialize_spec(t)),
{
    let l = serialize_spec(t);
    crate::task_parser::lemma_layout(t);
    assert forall|q: int| 0 <= q < l.len() implies #[trigger] l[q] != 10 by {
        if q < 6 {
            assert(l[q] == head_spec(t.completed)[q]);
        } else if q < p_cand(t) {
            assert(l[q] == t.text[q - 6]);
        } else if q < p_cand(t) + 2 {
            assert(l[p_cand(t)] == 32 && l[p_cand(t) + 1] == 35);
        } else if q < p_bend(t) {
            assert(l[q] == t.bucket[q - p_cand(t) - 2]);
            assert(is_word(t.bucket[q - p_cand(t) - 2]));
        } else if q < p_due_end(t) {
            assert(l[q] == due_part(t.due)[q - p_bend(t)]);
            match t.due {
                Some(d) => {
                    assert(date_shape(d));
                    if q - p_bend(t) >= 2 {
                        assert(due_part(t.due)[q - p_bend(t)] == d[q - p_bend(t) - 2]);
                        assert(is_digit(d[q - p_bend(t) - 2]) || d[q - p_bend(t) - 2] == 45);
                    }
                },
                None => {},
            }
        } else if q < p_prio_end(t) {
            assert(l[q] == prio_part(t.priority)[q - p_due_end(t)]);
            match t.priority {
                Some(pv) => {
                    lemma_dec_props(pv as int);
                    if q - p_due_end(t) >= 2 {
                        assert(prio_part(t.priority)[q - p_due_end(t)] == dec_spec(pv as int)[q
                            - p_due_end(t) - 2]);
                        assert(is_digit(dec_spec(pv as int)[q - p_due_end(t) - 2]));
                    }
                },
                None => {},
            }
        } else if q < p_link_end(t) {
            assert(l[q] == link_part(t.link)[q - p_prio_end(t)]);
            match t.link {
                Some(k) => {
                    if 3 <= q - p_prio_end(t) < 3 + k.len() {
                        assert(link_part(t.link)[q - p_prio_end(t)] == k[q - p_prio_end(t) - 3]);
                    } else if q - p_prio_end(t) >= 3 + k.len() {
                        assert(link_part(t.link)[q - p_prio_end(t)] == 93);
                    }
                },
                None => {},
            }
        } else if q < p_link_end(t) + 4 {
            assert(l[p_link_end(t)] == 32 && l[p_link_end(t) + 1] == 105 && l[p_link_end(t) + 2]
                == 100 && l[p_link_end(t) + 3] == 58);
        } else {
            assert(l[q] == canon_spec(t.id)[q - p_link_end(t) - 4]);
            let w = q - p_link_end(t) - 4;
            if is_dash_pos(w) {
                assert(canon_spec(t.id)[w] == 45);
            } else {
                let j = undash(w);
                if j % 2 == 0 {
                    assert(canon_spec(t.id)[w] == hex_char((t.id[j / 2] / 16) as int));
                    assert(0 <= t.id[j / 2] / 16 < 16);
                } else {
                    assert(canon_spec(t.id)[w] == hex_char((t.id[j / 2] % 16) as int));
                    assert(0 <= t.id[j / 2] % 16 < 16);
                }
            }
        }
    }
}

/// The canonical line of a shaped record with acceptable, newline-free
/// text and newline-free link is itself a fixed line.
#[verifier::spinoff_prover]
pub proof fn lemma_serialize_fixed(t: TaskSpec)
    requires
        shape_wf(t),
        text_ok(t.text),
        no_nl(t.text),
        match t.link {
            Some(k) => no_nl(k),
            None => true,
        },
    ensures
        fixed_line(serialize_spec(t)),
{
    let l = serialize_spec(t);
    crate::task_parser::lemma_layout(t);
    assert(l[0] == 45) by {
        assert(l[0] == head_spec(t.completed)[0]);
    }
    // the last byte is a hex character of the canonical id
    assert(l[l.len() - 1] == canon_spec(t.id)[35]);
    assert(!is_dash_pos(35) && undash(35) == 31);
    assert(canon_spec(t.id)[35] == hex_char((t.id[15] % 16) as int));
    assert(0 <= t.id[15] % 16 < 16);
    assert(!is_space(l[l.len() - 1]) && l[l.len() - 1] != 10);
    lemma_serialize_no_nl(t);
    crate::task_parser::lemma_strict_fixed(t);
}

/// Removing marker tokens keeps the remaining bytes, so keeps
/// newline-freedom.
proof fn lemma_strip_all_no_nl(s: Seq<u8>)
    requires
        no_nl(s),
    ensures
        no_nl(strip_all(s)),
    decreases s.len(),
{
    lemma_find_props(s, 0, marker_pat());
    match find_at(s, 0, marker_pat()) {
        Some(i) => {
            assert(marker_pat()(s, i));
            assert(marker_tok_at(s, i));
            lemma_marker_end_bounds(s, i);
            let e = marker_end(s, i);
            let z = crate::scan::remove_range(s, i, e);
            assert forall|q: int| 0 <= q < z.len() implies #[trigger] z[q] != 10 by {
                if q < i {
                    assert(z[q] == s[q]);
                } else {
                    assert(z[q] == s[q + (e - i)]);
                }
            }
            lemma_strip_all_no_nl(z);
        },
        None => {},
    }
}

/// Cleaning preserves newline-freedom: the clean text is drawn from the
/// line's own bytes.
pub proof fn lemma_clean_no_nl(l: Seq<u8>)
    requires
        no_nl(l),
    ensures
        no_nl(clean_text_spec(l)),
{
    let s0 = strip_checkbox(l);
    assert(no_nl(s0)) by {
        match checkbox_prefix(l) {
            Some(e) => {
                let a: int = if l.len() > 0 && l[0] == 45 {
                    1int
                } else {
                    0int
                };
                lemma_run_end_props(l, a, space_cls());
                let b = run_end(l, a, space_cls());
                lemma_run_end_props(l, b + 3, space_cls());
                assert(0 <= e <= l.len());
                assert forall|q: int| 0 <= q < s0.len() implies #[trigger] s0[q] != 10 by {
                    assert(s0[q] == l[e + q]);
                }
            },
            None => {},
        }
    }
    lemma_strip_all_no_nl(s0);
    let s5 = strip_all(s0);
    let a = run_end(s5, 0, space_cls());
    let b = crate::scan::skip_back(s5, s5.len() as int);
    lemma_run_end_props(s5, 0, space_cls());
    crate::scan::lemma_skip_back_props(s5, s5.len() as int);
    let t = trim_spec(s5);
    assert(no_nl(t)) by {
        if a < b {
            assert forall|q: int| 0 <= q < t.len() implies #[trigger] t[q] != 10 by {
                assert(t[q] == s5[a + q]);
            }
        }
    }
}

/// Whatever one newline-free raw line contributes is a fixed line.
#[verifier::rlimit(100)]
pub proof fn lemma_norm_line_fixed(line: Seq<u8>, f: Seq<u8>)
    requires
        no_nl(line),
        f.len() == 16,
    ensures
        forall|q: int|
            0 <= q < norm_line(line, f).len() ==> fixed_line(#[trigger] norm_line(line, f)[q]),
{
    let t = trim_spec(line);
    assert(no_nl(t)) by {
        let a = run_end(line, 0, space_cls());
        let b = crate::scan::skip_back(line, line.len() as int);
        lemma_run_end_props(line, 0, space_cls());
        crate::scan::lemma_skip_back_props(line, line.len() as int);
        if a < b {
            assert forall|q: int| 0 <= q < t.len() implies #[trigger] t[q] != 10 by {
                assert(t[q] == line[a + q]);
            }
        }
    }
    if t.len() > 0 {
        match parse_line_spec(t, f) {
            Some(r) => {
                match strict_spec(t) {
                    Some(st) => {
                        lemma_strict_sound(t);
                        let z = choose|z: int|
                            #![trigger t.subrange(z, t.len() as int)]
                            0 <= z <= t.len() && id_parse_spec(t.subrange(z, t.len() as int))
                                == Some(st.id) && serialize_spec(st) == t.subrange(0, z)
                                + canon_spec(st.id);
                        lemma_layout(st);
                        let sl = serialize_spec(st);
                        assert(sl.len() == z + 36);
                        assert(z == p_link_end(st) + 4);
                        assert(no_nl(st.text)) by {
                            assert forall|w: int|
                                0 <= w < st.text.len() implies #[trigger] st.text[w] != 10 by {
                                assert(st.text[w] == sl[6 + w]) by {
                                    assert(sl.subrange(6, p_cand(st)) == st.text);
                                }
                                assert(6 + w < z);
                                assert(sl[6 + w] == t[6 + w]);
                                assert(t[6 + w] != 10);
                            }
                        }
                        assert(match st.link {
                            Some(k) => no_nl(k),
                            None => true,
                        }) by {
                            match st.link {
                                Some(k) => {
                                    assert forall|w: int|
                                        0 <= w < k.len() implies #[trigger] k[w] != 10 by {
                                        assert(sl.subrange(p_prio_end(st), p_link_end(st))
                                            == link_part(st.link));
                                        assert(link_part(st.link)[3 + w] == k[w]);
                                        assert(sl[p_prio_end(st) + 3 + w] == link_part(st.link)[3
                                            + w]);
                                        assert(p_prio_end(st) + 3 + w < z);
                                        assert(sl[p_prio_end(st) + 3 + w] == t[p_prio_end(st) + 3
                                            + w]);
                                        assert(t[p_prio_end(st) + 3 + w] != 10);
                                    }
                                },
                                None => {},
                            }
                        }
                        lemma_serialize_fixed(st);
                        assert(fixed_line(serialize_spec(r)));
                    },
                    None => {
                        lemma_lenient_shape(t, f);
                        assert(shape_wf(r));
                        assert(r.text == clean_text_spec(t));
                        lemma_clean_no_nl(t);
                        assert(no_nl(r.text));
                        lemma_clean_text_ok(t);
                        assert(text_ok(r.text));
                        assert(match r.link {
                            Some(k) => no_nl(k),
                            None => true,
                        }) by {
                            match find_at(t, 0, crate::record::open_pat()) {
                                Some(i) => {
                                    lemma_find_props(t, 0, crate::record::open_pat());
                                    match find_at(t, i + 2, crate::record::close_pat()) {
                                        Some(m) => {
                                            lemma_find_props(t, i + 2, crate::record::close_pat());
                                            assert(crate::record::close_pat()(t, m));
                                            assert(crate::record::close_at(t, m));
                                            let k = t.subrange(i + 2, m);
                                            assert forall|q: int|
                                                0 <= q < k.len() implies #[trigger] k[q] != 10 by {
                                                assert(k[q] == t[i + 2 + q]);
                                            }
                                        },
                                        None => {},
                                    }
                                },
                                None => {},
                            }
                        }
                        lemma_serialize_fixed(r);
                    },
                }
            },
            None => {},
        }
    }
}

/// Every line the reconciler emits is a fixed line.
pub proof fn lemma_norm_lines_fixed(c: Seq<u8>, fs: Seq<Seq<u8>>)
    requires
        fs.len() >= line_count(c),
        forall|q: int| 0 <= q < fs.len() ==> #[trigger] fs[q].len() == 16,
    ensures
        forall|q: int|
            0 <= q < norm_lines(c, fs).len() ==> fixed_line(#[trigger] norm_lines(c, fs)[q]),
    decreases c.len(),
{
    lemma_find_props(c, 0, nl_pat());
    assert(line_count(c) >= 1) by {
        lemma_line_count_pos(c);
    }
    match find_at(c, 0, nl_pat()) {
        Some(k) => {
            assert(nl_pat()(c, k));
            let raw = c.subrange(0, k);
            assert(no_nl(raw)) by {
                assert forall|q: int| 0 <= q < raw.len() implies #[trigger] raw[q] != 10 by {
                    assert(raw[q] == c[q]);
                    assert(!nl_pat()(c, q));
                }
            }
            lemma_norm_line_fixed(raw, fs[0]);
            let rest = c.subrange(k + 1, c.len() as int);
            assert(fs.drop_first().len() >= line_count(rest));
            lemma_norm_lines_fixed(rest, fs.drop_first());
            assert forall|q: int|
                0 <= q < norm_lines(c, fs).len() implies fixed_line(
                #[trigger] norm_lines(c, fs)[q],
            ) by {
                let first = norm_line(raw, fs[0]);
                if q < first.len() {
                    assert(norm_lines(c, fs)[q] == first[q]);
                } else {
                    assert(norm_lines(c, fs)[q] == norm_lines(rest, fs.drop_first())[q
                        - first.len()]);
                }
            }
        },
        None => {
            assert(no_nl(c)) by {
                assert forall|q: int| 0 <= q < c.len() implies #[trigger] c[q] != 10 by {
                    assert(!nl_pat()(c, q));
                }
            }
            lemma_norm_line_fixed(c, fs[0]);
        },
    }
}

/// Content always has at least one raw line.
pub proof fn lemma_line_count_pos(c: Seq<u8>)
    ensures
        line_count(c) >= 1,
    decreases c.len(),
{
    lemma_find_props(c, 0, nl_pat());
    match find_at(c, 0, nl_pat()) {
        Some(k) => {
            lemma_line_count_pos(c.subrange(k + 1, c.len() as int));
        },
        None => {},
    }
}

/// A fixed line re-parses to itself.
proof fn lemma_norm_line_of_fixed(x: Seq<u8>, f: Seq<u8>)
    requires
        fixed_line(x),
    ensures
        norm_line(x, f) == seq![x],
{
    lemma_trim_id(x);
    assert(trim_spec(x) == x);
    match strict_spec(x) {
        Some(t) => {
            assert(parse_line_spec(x, f) == Some(t));
            assert(serialize_spec(t) == x);
            assert(norm_line(x, f) =~= seq![x]);
        },
        None => {
            assert(false);
        },
    }
}

/// In `x ++ [newline] ++ rest` with `x` newline-free, the first newline sits
/// right after `x`.
proof fn lemma_first_nl(x: Seq<u8>, dr: Seq<u8>)
    requires
        no_nl(x),
    ensures
        find_at(x + seq![10u8] + dr, 0, nl_pat()) == Some(x.len() as int),
        (x + seq![10u8] + dr).subrange(0, x.len() as int) == x,
        (x + seq![10u8] + dr).subrange(x.len() as int + 1, (x + seq![10u8] + dr).len() as int)
            == dr,
{
    let d = x + seq![10u8] + dr;
    assert(d[x.len() as int] == 10);
    assert forall|k: int| #![trigger d[k]] 0 <= k < x.len() implies !nl_pat()(d, k) by {
        assert(d[k] == x[k]);
        assert(x[k] != 10);
    }
    assert(nl_pat()(d, x.len() as int));
    lemma_find_found(d, 0, x.len() as int, nl_pat());
    assert(d.subrange(0, x.len() as int) =~= x);
    assert(d.subrange(x.len() as int + 1, d.len() as int) =~= dr);
}

/// The newline-terminated join of a list of two or more lines peels into
/// its first line followed by the join of the rest.
proof fn lemma_join_cons(acc: Seq<Seq<u8>>)
    requires
        acc.len() >= 2,
    ensures
        join_nl(acc) + seq![10u8] == acc[0] + seq![10u8] + (join_nl(acc.drop_first())
            + seq![10u8]),
{
    assert(join_nl(acc) == acc[0] + seq![10u8] + join_nl(acc.drop_first()));
    assert((acc[0] + seq![10u8] + join_nl(acc.drop_first())) + seq![10u8] =~= acc[0] + seq![10u8]
        + (join_nl(acc.drop_first()) + seq![10u8]));
}

/// Reconciling already-reconciled content reproduces it line for line,
/// whatever fresh ids stand by.
pub proof fn lemma_renorm(acc: Seq<Seq<u8>>, fs: Seq<Seq<u8>>)
    requires
        forall|q: int| 0 <= q < acc.len() ==> fixed_line(#[trigger] acc[q]),
    ensures
        norm_lines(join_nl(acc) + seq![10u8], fs) == acc,
    decreases acc.len(),
{
    let d = join_nl(acc) + seq![10u8];
    if acc.len() == 0 {
        assert(d =~= seq![10u8]);
        assert(nl_pat()(d, 0));
        assert(find_at(d, 0, nl_pat()) == Some(0int));
        assert(d.subrange(0, 0) =~= Seq::<u8>::empty());
        assert(trim_spec(Seq::<u8>::empty()).len() == 0) by {
            assert(run_end(Seq::<u8>::empty(), 0, space_cls()) == 0);
            assert(crate::scan::skip_back(Seq::<u8>::empty(), 0) == 0);
        }
        assert(norm_line(d.subrange(0, 0), fs[0]) =~= Seq::<Seq<u8>>::empty());
        let rest = d.subrange(1, 1);
        assert(rest =~= Seq::<u8>::empty());
        assert(find_at(rest, 0, nl_pat()) is None);
        assert(norm_lines(rest, fs.drop_first()) == norm_line(rest, fs.drop_first()[0]));
        assert(norm_line(rest, fs.drop_first()[0]) =~= Seq::<Seq<u8>>::empty());
        assert(norm_lines(d, fs) =~= acc);
    } else if acc.len() == 1 {
        let x = acc[0];
        assert(fixed_line(x));
        assert(join_nl(acc) == x);
        assert(d == x + seq![10u8] + Seq::<u8>::empty()) by {
            assert(x + seq![10u8] + Seq::<u8>::empty() =~= x + seq![10u8]);
        }
        lemma_first_nl(x, Seq::<u8>::empty());
        lemma_norm_line_of_fixed(x, fs[0]);
        let rest = d.subrange(x.len() as int + 1, d.len() as int);
        assert(rest =~= Seq::<u8>::empty());
        assert(find_at(rest, 0, nl_pat()) is None);
        assert(trim_spec(Seq::<u8>::empty()).len() == 0) by {
            assert(run_end(Seq::<u8>::empty(), 0, space_cls()) == 0);
            assert(crate::scan::skip_back(Seq::<u8>::empty(), 0) == 0);
        }
        assert(norm_lines(rest, fs.drop_first()) =~= Seq::<Seq<u8>>::empty());
        assert(norm_lines(d, fs) == norm_line(x, fs[0]) + norm_lines(rest, fs.drop_first()));
        assert(seq![x] + Seq::<Seq<u8>>::empty() =~= acc);
    } else {
        let x = acc[0];
        let rest = acc.drop_first();
        let dr = join_nl(rest) + seq![10u8];
        assert(fixed_line(x));
        lemma_join_cons(acc);
        assert(d == x + seq![10u8] + dr);
        lemma_first_nl(x, dr);
        lemma_norm_line_of_fixed(x, fs[0]);
        lemma_renorm(rest, fs.drop_first());
        assert(norm_lines(d, fs) == norm_line(x, fs[0]) + norm_lines(dr, fs.drop_first()));
        assert(seq![x] + rest =~= acc);
    }
}

/// Idempotent reconciliation: normalizing already-normalized content gives
/// the same bytes back, whatever the original content held, so the second
/// pass performs no write and the reconciler never re-triggers itself.
pub proof fn lemma_normalize_idempotent(c: Seq<u8>, f1: Seq<Seq<u8>>, f2: Seq<Seq<u8>>)
    requires
        f1.len() >= line_count(c),
        forall|q: int| 0 <= q < f1.len() ==> #[trigger] f1[q].len() == 16,
    ensures
        normalize_spec(normalize_spec(c, f1), f2) == normalize_spec(c, f1),
{
    lemma_norm_lines_fixed(c, f1);
    let acc = norm_lines(c, f1);
    lemma_renorm(acc, f2);
    assert(norm_lines(normalize_spec(c, f1), f2) == acc);
}


// ---------------------------------------------------------------------------
// the debounced-watch state machine
// ---------------------------------------------------------------------------

/// The mathematical state of one watched file.
pub ghost struct WatchedSpec {
    pub path: Seq<u8>,
    pub last_hash: Option<u64>,
    pub last_ms: Option<u64>,
}

/// One watched file: its path, the hash of the content last acted on, and
/// the clock reading of the last decision.
pub struct WatchedFile {
    pub path: Vec<u8>,
    pub last_content_hash: Option<u64>,
    pub last_processed: Option<u64>,
}

impl View for WatchedFile {
    type V = WatchedSpec;

    open spec fn view(&self) -> WatchedSpec {
        WatchedSpec {
            path: self.path@,
            last_hash: self.last_content_hash,
            last_ms: self.last_processed,
        }
    }
}

/// First entry watching `path`, searching from `i`.
pub open spec fn idx_from(files: Seq<WatchedSpec>, path: Seq<u8>, i: int) -> Option<int>
    decreases files.len() - i,
{
    if i < 0 || i >= files.len() {
        None
    } else if files[i].path == path {
        Some(i)
    } else {
        idx_from(files, path, i + 1)
    }
}

pub open spec fn idx_of(files: Seq<WatchedSpec>, path: Seq<u8>) -> Option<int> {
    idx_from(files, path, 0)
}

/// What one raw modify notification does to one watched file's state, and
/// whether it deserves a reconciliation pass: notifications within the
/// debounce window are ignored outright; unreadable content is ignored;
/// content hashing the same as last time refreshes the clock only; new
/// content refreshes both and fires.
pub open spec fn debounce_step(w: WatchedSpec, now_ms: u64, hash: Option<u64>, window: u64) -> (
    bool,
    WatchedSpec,
) {
    let within = match w.last_ms {
        Some(lp) => now_ms < lp + window,
        None => false,
    };
    if within {
        (false, w)
    } else {
        match hash {
            None => (false, w),
            Some(h) => if w.last_hash == Some(h) {
                (false, WatchedSpec { last_ms: Some(now_ms), ..w })
            } else {
                (true, WatchedSpec { path: w.path, last_hash: Some(h), last_ms: Some(now_ms) })
            },
        }
    }
}

/// Turns a stream of raw file-change notifications into at most one
/// reconciliation per meaningful change: a fixed debounce window plus a
/// content-hash comparison suppress event storms and the reconciler's own
/// writes.
pub struct FileDebouncer {
    pub files: Vec<WatchedFile>,
    pub debounce_ms: u64,
}

impl View for FileDebouncer {
    type V = Seq<WatchedSpec>;

    open spec fn view(&self) -> Seq<WatchedSpec> {
        self.files@.map_values(|w: WatchedFile| w@)
    }
}

impl FileDebouncer {
    /// A debouncer with the given window and nothing watched yet.
    pub fn new(debounce_ms: u64) -> (r: FileDebouncer)
        ensures
            r@ == Seq::<WatchedSpec>::empty(),
            r.debounce_ms == debounce_ms,
    {
        let r = FileDebouncer { files: Vec::new(), debounce_ms };
        assert(r@ =~= Seq::<WatchedSpec>::empty());
        r
    }

    /// Find the entry watching `path`.
    fn find_entry(&self, path: &[u8]) -> (r: Option<usize>)
        ensures
            match r {
                Some(i) => idx_of(self@, path@) == Some(i as int) && i < self@.len(),
                None => idx_of(self@, path@) is None,
            },
    {
        let n = self.files.len();
        assert(self@.len() == n);
        let mut i: usize = 0;
        while i < n
            invariant
                i <= n,
                n == self@.len(),
                n == self.files@.len(),
                idx_from(self@, path@, 0) == idx_from(self@, path@, i as int),
            decreases n - i,
        {
            assert(self@[i as int] == self.files@[i as int]@);
            if eq_bytes(self.files[i].path.as_slice(), path) {
                assert(self@[i as int].path == path@);
                assert(idx_from(self@, path@, i as int) == Some(i as int));
                return Some(i);
            }
            assert(self@[i as int].path != path@);
            assert(idx_from(self@, path@, i as int) == idx_from(self@, path@, i as int + 1));
            i += 1;
        }
        assert(idx_from(self@, path@, i as int) is None);
        None
    }

    /// Watch one more file (or reset an already watched one): no content
    /// seen yet, no decision made yet, so the first notification passes the
    /// window check.
    pub fn add_file(&mut self, path: Vec<u8>)
        ensures
            final(self).debounce_ms == old(self).debounce_ms,
            match idx_of(old(self)@, path@) {
                Some(i) => final(self)@ == old(self)@.update(
                    i,
                    WatchedSpec { path: path@, last_hash: None, last_ms: None },
                ),
                None => final(self)@ == old(self)@.push(
                    WatchedSpec { path: path@, last_hash: None, last_ms: None },
                ),
            },
    {
        let entry = WatchedFile { path, last_content_hash: None, last_processed: None };
        match self.find_entry(entry.path.as_slice()) {
            Some(i) => {
                self.files.set(i, entry);
                assert(self@ =~= old(self)@.update(
                    idx_of(old(self)@, self.files@[i as int]@.path).unwrap(),
                    self.files@[i as int]@,
                ));
            },
            None => {
                self.files.push(entry);
                assert(self@ =~= old(self)@.push(
                    self.files@[self.files@.len() - 1]@,
                ));
            },
        }
    }

    /// Decide whether a raw modify notification for `path`, seen at clock
    /// reading `now_ms` with the file's current content hash (`None` when
    /// the file could not be read), deserves a reconciliation pass; updates
    /// the file's watch state accordingly.
    pub fn should_process(&mut self, path: &[u8], now_ms: u64, content_hash: Option<u64>) -> (r:
        bool)
        ensures
            final(self).debounce_ms == old(self).debounce_ms,
            match idx_of(old(self)@, path@) {
                Some(i) => r == debounce_step(
                    old(self)@[i],
                    now_ms,
                    content_hash,
                    old(self).debounce_ms,
                ).0 && final(self)@ == old(self)@.update(
                    i,
                    debounce_step(old(self)@[i], now_ms, content_hash, old(self).debounce_ms).1,
                ),
                None => r == false && final(self)@ == old(self)@,
            },
    {
        let i = match self.find_entry(path) {
            Some(i) => i,
            None => {
                assert(self@ =~= old(self)@);
                return false;
            },
        };
        assert(self@[i as int] == self.files@[i as int]@);
        let ghost w0 = old(self)@[i as int];
        let within: bool = match self.files[i].last_processed {
            Some(lp) => now_ms < lp || now_ms - lp < self.debounce_ms,
            None => false,
        };
        assert(within == (match w0.last_ms {
            Some(lp) => now_ms < lp + old(self).debounce_ms,
            None => false,
        }));
        if within {
            assert(self@ =~= old(self)@.update(i as int, debounce_step(
                w0,
                now_ms,
                content_hash,
                old(self).debounce_ms,
            ).1)) by {
                assert(old(self)@.update(i as int, w0) =~= old(self)@);
            }
            return false;
        }
        let h = match content_hash {
            Some(h) => h,
            None => {
                assert(self@ =~= old(self)@.update(i as int, debounce_step(
                    w0,
                    now_ms,
                    content_hash,
                    old(self).debounce_ms,
                ).1)) by {
                    assert(old(self)@.update(i as int, w0) =~= old(self)@);
                }
                return false;
            },
        };
        let same: bool = match self.files[i].last_content_hash {
            Some(oldh) => oldh == h,
            None => false,
        };
        let p = copy_range(self.files[i].path.as_slice(), 0, self.files[i].path.len());
        assert(p@ == w0.path);
        if same {
            let entry = WatchedFile {
                path: p,
                last_content_hash: self.files[i].last_content_hash,
                last_processed: Some(now_ms),
            };
            assert(entry@ == debounce_step(w0, now_ms, content_hash, old(self).debounce_ms).1);
            self.files.set(i, entry);
            assert(self@ =~= old(self)@.update(i as int, debounce_step(
                w0,
                now_ms,
                content_hash,
                old(self).debounce_ms,
            ).1));
            false
        } else {
            let entry = WatchedFile {
                path: p,
                last_content_hash: Some(h),
                last_processed: Some(now_ms),
            };
            assert(entry@ == debounce_step(w0, now_ms, content_hash, old(self).debounce_ms).1);
            self.files.set(i, entry);
            assert(self@ =~= old(self)@.update(i as int, debounce_step(
                w0,
                now_ms,
                content_hash,
                old(self).debounce_ms,
            ).1));
            true
        }
    }

    /// The stored path of the watched file matching `path`, for the caller
    /// to act on; nothing for an unwatched path.
    pub fn process(&self, path: &[u8]) -> (r: Option<Vec<u8>>)
        ensures
            match idx_of(self@, path@) {
                Some(i) => r matches Some(p) && p@ == self@[i].path && p@ == path@,
                None => r is None,
            },
    {
        match self.find_entry(path) {
            Some(i) => {
                assert(self@[i as int] == self.files@[i as int]@);
                let p = copy_range(self.files[i].path.as_slice(), 0, self.files[i].path.len());
                proof {
                    lemma_idx_found(self@, path@, 0, idx_of(self@, path@).unwrap());
                }
                Some(p)
            },
            None => None,
        }
    }
}

/// A found index really matches the path.
proof fn lemma_idx_found(files: Seq<WatchedSpec>, path: Seq<u8>, i: int, j: int)
    requires
        0 <= i,
        idx_from(files, path, i) == Some(j),
    ensures
        i <= j < files.len() && files[j].path == path,
    decreases files.len() - i,
{
    if i < files.len() && files[i].path != path {
        lemma_idx_found(files, path, i + 1, j);
    }
}

} // verus!
