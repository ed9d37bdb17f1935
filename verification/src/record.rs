//! The record model: the in-memory form of one task, its well-formedness,
//! and the canonical line serialization.
//!
//! A canonical line reads
//! `- [c] text #bucket @due !priority [[link]] id:<canonical id>`
//! with `c` a space or `x`, exactly one space between tokens, and each
//! optional token omitted entirely when its field is absent.

use vstd::prelude::*;

use crate::scan::{is_digit, is_space, is_word, is_hex_dash, contains_at, copy_range};
use crate::task_id::{TaskId, canon_spec};

verus! {

// ---------------------------------------------------------------------------
// the mathematical record
// ---------------------------------------------------------------------------

/// The mathematical value of one task record.
#[verifier::ext_equal]
pub ghost struct TaskSpec {
    pub completed: bool,
    pub text: Seq<u8>,
    pub bucket: Seq<u8>,
    pub due: Option<Seq<u8>>,
    pub link: Option<Seq<u8>>,
    pub priority: Option<u8>,
    pub id: Seq<u8>,
}

// ---------------------------------------------------------------------------
// token patterns of the grammar
// ---------------------------------------------------------------------------

/// A bucket tag starts at `i`: `#` or `+` followed by a word byte.
pub open spec fn tag_at(s: Seq<u8>, i: int) -> bool {
    0 <= i && i + 1 < s.len() && (s[i] == 35 || s[i] == 43) && is_word(s[i + 1])
}

/// A due date starts at `i`: `@` followed by `dddd-dd-dd`.
pub open spec fn date_at(s: Seq<u8>, i: int) -> bool {
    0 <= i && i + 11 <= s.len() && s[i] == 64 && is_digit(s[i + 1]) && is_digit(s[i + 2])
        && is_digit(s[i + 3]) && is_digit(s[i + 4]) && s[i + 5] == 45 && is_digit(s[i + 6])
        && is_digit(s[i + 7]) && s[i + 8] == 45 && is_digit(s[i + 9]) && is_digit(s[i + 10])
}

/// A priority token starts at `i`: `!` followed by a digit.
pub open spec fn prio_at(s: Seq<u8>, i: int) -> bool {
    0 <= i && i + 1 < s.len() && s[i] == 33 && is_digit(s[i + 1])
}

/// A link opens at `i`: `[[`.
pub open spec fn open_at(s: Seq<u8>, i: int) -> bool {
    0 <= i && i + 1 < s.len() && s[i] == 91 && s[i + 1] == 91
}

/// A link closes at `i`: `]]`.
pub open spec fn close_at(s: Seq<u8>, i: int) -> bool {
    0 <= i && i + 1 < s.len() && s[i] == 93 && s[i + 1] == 93
}

/// An id token starts at `i`: `id:` followed by a hex-or-dash byte.
pub open spec fn idtok_at(s: Seq<u8>, i: int) -> bool {
    0 <= i && i + 3 < s.len() && s[i] == 105 && s[i + 1] == 100 && s[i + 2] == 58 && is_hex_dash(
        s[i + 3],
    )
}

/// A bucket split candidate for the strict parser: space, `#`, word byte.
pub open spec fn cand_at(s: Seq<u8>, i: int) -> bool {
    0 <= i && i + 2 < s.len() && s[i] == 32 && s[i + 1] == 35 && is_word(s[i + 2])
}

/// Named closures, so that every mention of a pattern denotes the same value.
pub open spec fn tag_pat() -> spec_fn(Seq<u8>, int) -> bool {
    |s: Seq<u8>, i: int| tag_at(s, i)
}

pub open spec fn date_pat() -> spec_fn(Seq<u8>, int) -> bool {
    |s: Seq<u8>, i: int| date_at(s, i)
}

pub open spec fn prio_pat() -> spec_fn(Seq<u8>, int) -> bool {
    |s: Seq<u8>, i: int| prio_at(s, i)
}

pub open spec fn open_pat() -> spec_fn(Seq<u8>, int) -> bool {
    |s: Seq<u8>, i: int| open_at(s, i)
}

pub open spec fn close_pat() -> spec_fn(Seq<u8>, int) -> bool {
    |s: Seq<u8>, i: int| close_at(s, i)
}

pub open spec fn idtok_pat() -> spec_fn(Seq<u8>, int) -> bool {
    |s: Seq<u8>, i: int| idtok_at(s, i)
}

pub open spec fn cand_pat() -> spec_fn(Seq<u8>, int) -> bool {
    |s: Seq<u8>, i: int| cand_at(s, i)
}

/// The bytes of a checked checkbox, lowercase and uppercase.
pub open spec fn xbox_lo() -> Seq<u8> {
    seq![91u8, 120u8, 93u8]
}

pub open spec fn xbox_hi() -> Seq<u8> {
    seq![91u8, 88u8, 93u8]
}

// ---------------------------------------------------------------------------
// well-formedness
// ---------------------------------------------------------------------------

/// A due value has the date shape `dddd-dd-dd`.
pub open spec fn date_shape(d: Seq<u8>) -> bool {
    d.len() == 10 && is_digit(d[0]) && is_digit(d[1]) && is_digit(d[2]) && is_digit(d[3])
        && d[4] == 45 && is_digit(d[5]) && is_digit(d[6]) && d[7] == 45 && is_digit(d[8])
        && is_digit(d[9])
}

/// No byte of `l` is a `]` that ends `l` or is followed by another `]`:
/// appending `]]` to `l` closes at exactly one place.
pub open spec fn close_free_ext(l: Seq<u8>) -> bool {
    forall|i: int| #![trigger l[i]]
        0 <= i < l.len() ==> !(l[i] == 93 && (i + 1 == l.len() || l[i + 1] == 93))
}

/// The shape every parsed record has: a non-empty word-only bucket, a
/// date-shaped due value, a link that its own `]]` terminator closes
/// unambiguously, and a 16-byte id.
pub open spec fn shape_wf(t: TaskSpec) -> bool {
    t.bucket.len() > 0 && (forall|i: int| 0 <= i < t.bucket.len() ==> is_word(#[trigger] t.bucket[i]))
        && match t.due {
        Some(d) => date_shape(d),
        None => true,
    } && match t.link {
        Some(l) => close_free_ext(l),
        None => true,
    } && t.id.len() == 16
}

/// The text contains none of the syntactic markers: no bucket tag, no date,
/// no priority token, no link bracket pair, no id token, no strict split
/// triple and no checked-checkbox bytes.
pub open spec fn marker_free(s: Seq<u8>) -> bool {
    forall|i: int| #![trigger s[i]]
        0 <= i < s.len() ==> !tag_at(s, i) && !date_at(s, i) && !prio_at(s, i) && !open_at(s, i)
            && !close_at(s, i) && !idtok_at(s, i) && !contains_at(s, i, xbox_lo())
            && !contains_at(s, i, xbox_hi())
}

/// A record with valid fields: shaped as above, with a non-empty, trimmed,
/// marker-free text.  Such a record is exactly what its canonical line says.
pub open spec fn wf_task(t: TaskSpec) -> bool {
    shape_wf(t) && t.text.len() > 0 && !is_space(t.text[0]) && !is_space(t.text[t.text.len() - 1])
        && marker_free(t.text)
}

// ---------------------------------------------------------------------------
// decimal numerals
// ---------------------------------------------------------------------------

/// The shortest decimal numeral of `n`.
pub open spec fn dec_spec(n: int) -> Seq<u8>
    decreases n,
{
    if n < 10 {
        seq![(48 + n) as u8]
    } else {
        dec_spec(n / 10) + seq![(48 + n % 10) as u8]
    }
}

/// Numeric value of a digit run, most significant first.
pub open spec fn digits_val(s: Seq<u8>) -> int
    decreases s.len(),
{
    if s.len() == 0 {
        0
    } else {
        digits_val(s.drop_last()) * 10 + (s.last() - 48)
    }
}

pub proof fn lemma_dec_props(n: int)
    requires
        0 <= n < 1000,
    ensures
        dec_spec(n).len() == (if n < 10 { 1int } else if n < 100 { 2int } else { 3int }),
        forall|k: int| 0 <= k < dec_spec(n).len() ==> is_digit(#[trigger] dec_spec(n)[k]),
        dec_spec(n)[0] == 48 ==> n < 10,
        digits_val(dec_spec(n)) == n,
    decreases n,
{
    if n < 10 {
        assert(dec_spec(n) == seq![(48 + n) as u8]);
        assert(digits_val(dec_spec(n)) == digits_val(dec_spec(n).drop_last()) * 10 + (dec_spec(
            n,
        ).last() - 48));
        assert(dec_spec(n).drop_last() =~= Seq::<u8>::empty());
        assert(digits_val(Seq::<u8>::empty()) == 0);
    } else {
        lemma_dec_props(n / 10);
        let d = dec_spec(n / 10);
        assert(dec_spec(n) == d + seq![(48 + n % 10) as u8]);
        assert((d + seq![(48 + n % 10) as u8]).drop_last() =~= d);
        assert(digits_val(dec_spec(n)) == digits_val(d) * 10 + n % 10);
    }
}

/// A digit run's value is bounded by its length.
pub proof fn lemma_digits_val_bound(s: Seq<u8>)
    requires
        forall|k: int| 0 <= k < s.len() ==> is_digit(#[trigger] s[k]),
    ensures
        0 <= digits_val(s),
        s.len() <= 1 ==> digits_val(s) < 10,
        s.len() <= 2 ==> digits_val(s) < 100,
        s.len() <= 3 ==> digits_val(s) < 1000,
    decreases s.len(),
{
    if s.len() > 0 {
        assert(forall|k: int| 0 <= k < s.drop_last().len() ==> is_digit(#[trigger] s.drop_last()[k]));
        lemma_digits_val_bound(s.drop_last());
        assert(is_digit(s.last()));
    }
}

/// A digit run of at most three digits without a leading zero is the decimal
/// numeral of its value.
pub proof fn lemma_digits_canonical(s: Seq<u8>)
    requires
        1 <= s.len() <= 3,
        forall|k: int| 0 <= k < s.len() ==> is_digit(#[trigger] s[k]),
        s.len() == 1 || s[0] != 48,
    ensures
        0 <= digits_val(s) < 1000,
        dec_spec(digits_val(s)) == s,
{
    if s.len() == 1 {
        assert(s.drop_last() =~= Seq::<u8>::empty());
        assert(digits_val(Seq::<u8>::empty()) == 0);
        let n = digits_val(s);
        assert(n == digits_val(s.drop_last()) * 10 + (s.last() - 48));
        assert(n == s[0] - 48);
        assert(dec_spec(n) =~= s);
    } else if s.len() == 2 {
        let p = s.drop_last();
        assert(p.len() == 1 && p[0] == s[0]);
        assert(p.drop_last() =~= Seq::<u8>::empty());
        assert(digits_val(Seq::<u8>::empty()) == 0);
        let n = digits_val(s);
        assert(digits_val(p) == digits_val(p.drop_last()) * 10 + (p.last() - 48));
        assert(digits_val(p) == s[0] - 48);
        assert(n == (s[0] - 48) * 10 + (s[1] - 48));
        assert(10 <= n < 100);
        assert(n / 10 == s[0] - 48 && n % 10 == s[1] - 48) by (nonlinear_arith)
            requires
                n == (s[0] - 48) * 10 + (s[1] - 48),
                48 < s[0] <= 57,
                48 <= s[1] <= 57,
        ;
        assert(dec_spec(n) == dec_spec(n / 10) + seq![(48 + n % 10) as u8]);
        assert(dec_spec(n) =~= s);
    } else {
        let p = s.drop_last();
        let pp = p.drop_last();
        assert(pp.len() == 1 && pp[0] == s[0] && p[1] == s[1]);
        assert(pp.drop_last() =~= Seq::<u8>::empty());
        assert(digits_val(Seq::<u8>::empty()) == 0);
        let n = digits_val(s);
        assert(digits_val(pp) == digits_val(pp.drop_last()) * 10 + (pp.last() - 48));
        assert(digits_val(pp) == s[0] - 48);
        assert(digits_val(p) == digits_val(pp) * 10 + (p.last() - 48));
        assert(digits_val(p) == (s[0] - 48) * 10 + (s[1] - 48));
        assert(n == digits_val(p) * 10 + (s.last() - 48));
        assert(n == ((s[0] - 48) * 10 + (s[1] - 48)) * 10 + (s[2] - 48));
        let m = digits_val(p);
        assert(10 <= m < 100);
        assert(100 <= n < 1000) by (nonlinear_arith)
            requires
                n == m * 10 + (s[2] - 48),
                10 <= m < 100,
                48 <= s[2] <= 57,
        ;
        assert(n / 10 == m && n % 10 == s[2] - 48) by (nonlinear_arith)
            requires
                n == m * 10 + (s[2] - 48),
                10 <= m < 100,
                48 <= s[2] <= 57,
        ;
        assert(m / 10 == s[0] - 48 && m % 10 == s[1] - 48) by (nonlinear_arith)
            requires
                m == (s[0] - 48) * 10 + (s[1] - 48),
                48 < s[0] <= 57,
                48 <= s[1] <= 57,
        ;
        assert(dec_spec(n) == dec_spec(m) + seq![(48 + n % 10) as u8]);
        assert(dec_spec(m) == dec_spec(m / 10) + seq![(48 + m % 10) as u8]);
        assert(dec_spec(n) =~= s);
    }
}

// ---------------------------------------------------------------------------
// canonical serialization
// ---------------------------------------------------------------------------

/// The fixed line head `- [c] `.
pub open spec fn head_spec(completed: bool) -> Seq<u8> {
    seq![45u8, 32u8, 91u8, if completed { 120u8 } else { 32u8 }, 93u8, 32u8]
}

pub open spec fn due_part(due: Option<Seq<u8>>) -> Seq<u8> {
    match due {
        Some(d) => seq![32u8, 64u8] + d,
        None => Seq::empty(),
    }
}

pub open spec fn prio_part(priority: Option<u8>) -> Seq<u8> {
    match priority {
        Some(p) => seq![32u8, 33u8] + dec_spec(p as int),
        None => Seq::empty(),
    }
}

pub open spec fn link_part(link: Option<Seq<u8>>) -> Seq<u8> {
    match link {
        Some(l) => seq![32u8, 91u8, 91u8] + l + seq![93u8, 93u8],
        None => Seq::empty(),
    }
}

/// The one canonical line of a record.
pub open spec fn serialize_spec(t: TaskSpec) -> Seq<u8> {
    head_spec(t.completed) + t.text + seq![32u8, 35u8] + t.bucket + due_part(t.due) + prio_part(
        t.priority,
    ) + link_part(t.link) + seq![32u8, 105u8, 100u8, 58u8] + canon_spec(t.id)
}

// ---------------------------------------------------------------------------
// the executable record
// ---------------------------------------------------------------------------

/// One task: checkbox state, description, one bucket tag, optional due date,
/// cross-reference link and priority, and a unique id.
#[derive(Debug, PartialEq, Eq)]
pub struct ParsedTask {
    pub completed: bool,
    pub text: Vec<u8>,
    pub bucket: Vec<u8>,
    pub due: Option<Vec<u8>>,
    pub link: Option<Vec<u8>>,
    pub priority: Option<u8>,
    pub id: TaskId,
}

/// View of an optional byte vector.
pub open spec fn opt_view(o: Option<Vec<u8>>) -> Option<Seq<u8>> {
    match o {
        Some(v) => Some(v@),
        None => None,
    }
}

impl View for ParsedTask {
    type V = TaskSpec;

    open spec fn view(&self) -> TaskSpec {
        TaskSpec {
            completed: self.completed,
            text: self.text@,
            bucket: self.bucket@,
            due: opt_view(self.due),
            link: opt_view(self.link),
            priority: self.priority,
            id: self.id@,
        }
    }
}

/// Append a copy of `s` to `r`.
pub fn append_bytes(r: &mut Vec<u8>, s: &Vec<u8>)
    ensures
        final(r)@ == old(r)@ + s@,
{
    let mut i: usize = 0;
    while i < s.len()
        invariant
            i <= s@.len(),
            r@ == old(r)@ + s@.subrange(0, i as int),
        decreases s@.len() - i,
    {
        r.push(s[i]);
        i += 1;
        assert(r@ =~= old(r)@ + s@.subrange(0, i as int));
    }
    assert(r@ =~= old(r)@ + s@);
}

/// Append the decimal numeral of `p` to `r`.
fn push_dec(r: &mut Vec<u8>, p: u8)
    ensures
        final(r)@ == old(r)@ + dec_spec(p as int),
{
    if p >= 100 {
        r.push(48 + p / 100);
        r.push(48 + (p / 10) % 10);
        r.push(48 + p % 10);
        proof {
            vstd::arithmetic::div_mod::lemma_div_denominator(p as int, 10, 10);
            assert((p as int / 10) / 10 == p as int / 100);
            assert(dec_spec(p as int) == dec_spec(p as int / 10) + seq![(48 + p as int % 10) as u8]);
            assert(dec_spec(p as int / 10) == dec_spec(p as int / 100) + seq![
                (48 + (p as int / 10) % 10) as u8,
            ]);
            assert(r@ =~= old(r)@ + dec_spec(p as int));
        }
    } else if p >= 10 {
        r.push(48 + p / 10);
        r.push(48 + p % 10);
        proof {
            assert(dec_spec(p as int) == dec_spec(p as int / 10) + seq![(48 + p as int % 10) as u8]);
            assert(r@ =~= old(r)@ + dec_spec(p as int));
        }
    } else {
        r.push(48 + p);
        assert(r@ =~= old(r)@ + dec_spec(p as int));
    }
}

impl ParsedTask {
    /// A record is well formed when its id is.
    pub open spec fn wf(&self) -> bool {
        self.id.wf()
    }

    /// A new, incomplete record with the given text and bucket, no optional
    /// fields, and a freshly minted id.
    pub fn new(text: Vec<u8>, bucket: Vec<u8>) -> (r: ParsedTask)
        ensures
            r.wf(),
            r@ == (TaskSpec {
                completed: false,
                text: text@,
                bucket: bucket@,
                due: None,
                link: None,
                priority: None,
                id: r@.id,
            }),
    {
        ParsedTask {
            completed: false,
            text,
            bucket,
            due: None,
            link: None,
            priority: None,
            id: TaskId::fresh(),
        }
    }

    /// The canonical line of this record.
    #[verifier::spinoff_prover]
    #[verifier::rlimit(100)]
    pub fn to_line(&self) -> (r: Vec<u8>)
        requires
            self.wf(),
        ensures
            r@ == serialize_spec(self@),
    {
        let mut r: Vec<u8> = Vec::new();
        r.push(45);
        r.push(32);
        r.push(91);
        if self.completed {
            r.push(120);
        } else {
            r.push(32);
        }
        r.push(93);
        r.push(32);
        assert(r@ =~= head_spec(self.completed));
        append_bytes(&mut r, &self.text);
        r.push(32);
        r.push(35);
        append_bytes(&mut r, &self.bucket);
        assert(r@ =~= head_spec(self.completed) + self.text@ + seq![32u8, 35u8] + self.bucket@);
        match &self.due {
            Some(d) => {
                r.push(32);
                r.push(64);
                append_bytes(&mut r, d);
            },
            None => {},
        }
        assert(r@ =~= head_spec(self.completed) + self.text@ + seq![32u8, 35u8] + self.bucket@
            + due_part(self@.due));
        match self.priority {
            Some(p) => {
                r.push(32);
                r.push(33);
                push_dec(&mut r, p);
            },
            None => {},
        }
        assert(r@ =~= head_spec(self.completed) + self.text@ + seq![32u8, 35u8] + self.bucket@
            + due_part(self@.due) + prio_part(self.priority));
        match &self.link {
            Some(l) => {
                r.push(32);
                r.push(91);
                r.push(91);
                append_bytes(&mut r, l);
                r.push(93);
                r.push(93);
            },
            None => {},
        }
        assert(r@ =~= head_spec(self.completed) + self.text@ + seq![32u8, 35u8] + self.bucket@
            + due_part(self@.due) + prio_part(self.priority) + link_part(self@.link));
        r.push(32);
        r.push(105);
        r.push(100);
        r.push(58);
        let c = self.id.canonical();
        append_bytes(&mut r, &c);
        assert(r@ =~= serialize_spec(self@));
        r
    }

    /// The same record with a due date.
    pub fn with_due(self, due: Vec<u8>) -> (r: ParsedTask)
        ensures
            r@ == (TaskSpec { due: Some(due@), ..self@ }),
            r.wf() == self.wf(),
    {
        ParsedTask { due: Some(due), ..self }
    }

    /// The same record with a link.
    pub fn with_link(self, link: Vec<u8>) -> (r: ParsedTask)
        ensures
            r@ == (TaskSpec { link: Some(link@), ..self@ }),
            r.wf() == self.wf(),
    {
        ParsedTask { link: Some(link), ..self }
    }

    /// The same record with a priority.
    pub fn with_priority(self, priority: u8) -> (r: ParsedTask)
        ensures
            r@ == (TaskSpec { priority: Some(priority), ..self@ }),
            r.wf() == self.wf(),
    {
        ParsedTask { priority: Some(priority), ..self }
    }

    /// The same record with the checkbox state set.
    pub fn with_completed(self, completed: bool) -> (r: ParsedTask)
        ensures
            r@ == (TaskSpec { completed: completed, ..self@ }),
            r.wf() == self.wf(),
    {
        ParsedTask { completed, ..self }
    }
}

impl Clone for ParsedTask {
    /// A clone carries the same fields.
    fn clone(&self) -> (r: ParsedTask)
        ensures
            r@ == self@,
            r.wf() == self.wf(),
    {
        let text = copy_range(self.text.as_slice(), 0, self.text.len());
        assert(text@ =~= self.text@);
        let bucket = copy_range(self.bucket.as_slice(), 0, self.bucket.len());
        assert(bucket@ =~= self.bucket@);
        let due = match &self.due {
            Some(d) => {
                let c = copy_range(d.as_slice(), 0, d.len());
                assert(c@ =~= d@);
                Some(c)
            },
            None => None,
        };
        let link = match &self.link {
            Some(l) => {
                let c = copy_range(l.as_slice(), 0, l.len());
                assert(c@ =~= l@);
                Some(c)
            },
            None => None,
        };
        let r = ParsedTask {
            completed: self.completed,
            text,
            bucket,
            due,
            link,
            priority: self.priority,
            id: self.id.clone(),
        };
        assert(opt_view(r.due) == opt_view(self.due));
        assert(opt_view(r.link) == opt_view(self.link));
        r
    }
}

} // verus!
