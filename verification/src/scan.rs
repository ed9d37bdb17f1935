//! Byte-level scanning primitives shared by the parsers: ASCII character
//! classes, first-match search, maximal runs, trimming and range removal,
//! all specified over `Seq<u8>`.

use vstd::prelude::*;

verus! {

// ---------------------------------------------------------------------------
// character classes
// ---------------------------------------------------------------------------

/// ASCII whitespace: space, tab, line feed, vertical tab, form feed, carriage
/// return.
pub open spec fn is_space(b: u8) -> bool {
    b == 32 || b == 9 || b == 10 || b == 11 || b == 12 || b == 13
}

/// ASCII decimal digit.
pub open spec fn is_digit(b: u8) -> bool {
    48 <= b <= 57
}

/// Word byte: ASCII letter, digit or underscore, or any non-ASCII byte —
/// so the bytes of a multi-byte UTF-8 letter count as word bytes and a tag
/// such as a bucket name may carry accented letters.
pub open spec fn is_word(b: u8) -> bool {
    48 <= b <= 57 || 65 <= b <= 90 || 97 <= b <= 122 || b == 95 || b >= 128
}

/// Lowercase hexadecimal digit.
pub open spec fn is_hex_lower(b: u8) -> bool {
    48 <= b <= 57 || 97 <= b <= 102
}

/// Hexadecimal digit of either case.
pub open spec fn is_hex(b: u8) -> bool {
    is_hex_lower(b) || 65 <= b <= 70
}

/// Hexadecimal digit or dash: the bytes an id token is made of.
pub open spec fn is_hex_dash(b: u8) -> bool {
    is_hex(b) || b == 45
}

pub fn byte_is_space(b: u8) -> (r: bool)
    ensures
        r == is_space(b),
{
    b == 32 || b == 9 || b == 10 || b == 11 || b == 12 || b == 13
}

pub fn byte_is_digit(b: u8) -> (r: bool)
    ensures
        r == is_digit(b),
{
    48 <= b && b <= 57
}

pub fn byte_is_word(b: u8) -> (r: bool)
    ensures
        r == is_word(b),
{
    (48 <= b && b <= 57) || (65 <= b && b <= 90) || (97 <= b && b <= 122) || b == 95 || b >= 128
}

pub fn byte_is_hex(b: u8) -> (r: bool)
    ensures
        r == is_hex(b),
{
    (48 <= b && b <= 57) || (97 <= b && b <= 102) || (65 <= b && b <= 70)
}

pub fn byte_is_hex_dash(b: u8) -> (r: bool)
    ensures
        r == is_hex_dash(b),
{
    byte_is_hex(b) || b == 45
}

// ---------------------------------------------------------------------------
// first match of a pattern
// ---------------------------------------------------------------------------

/// A fixed pattern occurs at position `i` of `s`.
pub open spec fn contains_at(s: Seq<u8>, i: int, pat: Seq<u8>) -> bool {
    0 <= i && i + pat.len() <= s.len() && (forall|k: int|
        0 <= k < pat.len() ==> s[i + k] == #[trigger] pat[k])
}

/// The first position at or after `i` where the point predicate `p` holds,
/// if any: the leftmost-match rule every extractor follows.
pub open spec fn find_at(s: Seq<u8>, i: int, p: spec_fn(Seq<u8>, int) -> bool) -> Option<int>
    decreases s.len() - i,
{
    if i < 0 || i >= s.len() {
        None
    } else if p(s, i) {
        Some(i)
    } else {
        find_at(s, i + 1, p)
    }
}

pub proof fn lemma_find_found(s: Seq<u8>, i: int, j: int, p: spec_fn(Seq<u8>, int) -> bool)
    requires
        0 <= i <= j < s.len(),
        forall|k: int| i <= k < j ==> !#[trigger] p(s, k),
        p(s, j),
    ensures
        find_at(s, i, p) == Some(j),
    decreases j - i,
{
    if i < j {
        lemma_find_found(s, i + 1, j, p);
    }
}

pub proof fn lemma_find_props(s: Seq<u8>, i: int, p: spec_fn(Seq<u8>, int) -> bool)
    requires
        0 <= i,
    ensures
        match find_at(s, i, p) {
            Some(j) => i <= j < s.len() && p(s, j) && (forall|k: int|
                i <= k < j ==> !#[trigger] p(s, k)),
            None => forall|k: int| i <= k < s.len() ==> !#[trigger] p(s, k),
        },
    decreases s.len() - i,
{
    if i < s.len() && !p(s, i) {
        lemma_find_props(s, i + 1, p);
    }
}

// ---------------------------------------------------------------------------
// maximal runs
// ---------------------------------------------------------------------------

/// End (exclusive) of the maximal run of bytes satisfying `p` that starts at
/// `i`.
pub open spec fn run_end(s: Seq<u8>, i: int, p: spec_fn(u8) -> bool) -> int
    decreases s.len() - i,
{
    if 0 <= i < s.len() && p(s[i]) {
        run_end(s, i + 1, p)
    } else {
        i
    }
}

pub proof fn lemma_run_end(s: Seq<u8>, i: int, j: int, p: spec_fn(u8) -> bool)
    requires
        0 <= i <= j <= s.len(),
        forall|k: int| i <= k < j ==> #[trigger] p(s[k]),
        j == s.len() || !p(s[j]),
    ensures
        run_end(s, i, p) == j,
    decreases j - i,
{
    if i < j {
        lemma_run_end(s, i + 1, j, p);
    }
}

pub proof fn lemma_run_end_props(s: Seq<u8>, i: int, p: spec_fn(u8) -> bool)
    requires
        0 <= i <= s.len(),
    ensures
        i <= run_end(s, i, p) <= s.len(),
        forall|k: int| i <= k < run_end(s, i, p) ==> #[trigger] p(s[k]),
        run_end(s, i, p) < s.len() ==> !p(s[run_end(s, i, p)]),
    decreases s.len() - i,
{
    if i < s.len() && p(s[i]) {
        lemma_run_end_props(s, i + 1, p);
    }
}

/// Named closures, so that every mention of a class denotes the same value.
pub open spec fn space_cls() -> spec_fn(u8) -> bool {
    |b: u8| is_space(b)
}

pub open spec fn word_cls() -> spec_fn(u8) -> bool {
    |b: u8| is_word(b)
}

pub open spec fn digit_cls() -> spec_fn(u8) -> bool {
    |b: u8| is_digit(b)
}

pub open spec fn hex_dash_cls() -> spec_fn(u8) -> bool {
    |b: u8| is_hex_dash(b)
}

// ---------------------------------------------------------------------------
// trimming and range removal
// ---------------------------------------------------------------------------

/// Start of the trailing whitespace run that ends at position `j` (exclusive).
pub open spec fn skip_back(s: Seq<u8>, j: int) -> int
    decreases j,
{
    if 0 < j <= s.len() && is_space(s[j - 1]) {
        skip_back(s, j - 1)
    } else {
        j
    }
}

/// `s` with leading and trailing ASCII whitespace removed.
pub open spec fn trim_spec(s: Seq<u8>) -> Seq<u8> {
    let a = run_end(s, 0, space_cls());
    let b = skip_back(s, s.len() as int);
    if a < b {
        s.subrange(a, b)
    } else {
        Seq::empty()
    }
}

pub proof fn lemma_skip_back_props(s: Seq<u8>, j: int)
    requires
        0 <= j <= s.len(),
    ensures
        0 <= skip_back(s, j) <= j,
        forall|k: int| skip_back(s, j) <= k < j ==> is_space(#[trigger] s[k]),
        skip_back(s, j) > 0 ==> !is_space(s[skip_back(s, j) - 1]),
    decreases j,
{
    if 0 < j && is_space(s[j - 1]) {
        lemma_skip_back_props(s, j - 1);
    }
}

/// A sequence that neither starts nor ends with whitespace trims to itself.
pub proof fn lemma_trim_id(s: Seq<u8>)
    requires
        s.len() == 0 || (!is_space(s[0]) && !is_space(s[s.len() - 1])),
    ensures
        trim_spec(s) == s,
{
    if s.len() == 0 {
        assert(run_end(s, 0, space_cls()) == 0);
        assert(skip_back(s, 0) == 0);
        assert(trim_spec(s) =~= s);
    } else {
        assert(!space_cls()(s[0]));
        assert(run_end(s, 0, space_cls()) == 0);
        assert(skip_back(s, s.len() as int) == s.len() as int);
        assert(trim_spec(s) =~= s);
    }
}

/// The trimmed form of anything is itself trim-stable and whitespace-free at
/// its ends.
pub proof fn lemma_trim_props(s: Seq<u8>)
    ensures
        trim_spec(s).len() == 0 || (!is_space(trim_spec(s)[0]) && !is_space(
            trim_spec(s)[trim_spec(s).len() - 1],
        )),
{
    lemma_run_end_props(s, 0, space_cls());
    lemma_skip_back_props(s, s.len() as int);
    let a = run_end(s, 0, space_cls());
    let b = skip_back(s, s.len() as int);
    if a < b {
        assert(!space_cls()(s[a]));
    }
}

/// `s` with the bytes of `[a, b)` removed.
pub open spec fn remove_range(s: Seq<u8>, a: int, b: int) -> Seq<u8> {
    s.subrange(0, a) + s.subrange(b, s.len() as int)
}

// ---------------------------------------------------------------------------
// executable mirrors
// ---------------------------------------------------------------------------

/// Copy of `s[a..b]`.
pub fn copy_range(s: &[u8], a: usize, b: usize) -> (r: Vec<u8>)
    requires
        a <= b <= s@.len(),
    ensures
        r@ == s@.subrange(a as int, b as int),
{
    let mut r: Vec<u8> = Vec::new();
    let mut i: usize = a;
    while i < b
        invariant
            a <= i <= b <= s@.len(),
            r@ == s@.subrange(a as int, i as int),
        decreases b - i,
    {
        r.push(s[i]);
        i += 1;
        assert(r@ =~= s@.subrange(a as int, i as int));
    }
    r
}

/// `s` with the bytes of `[a, b)` removed.
pub fn remove_bytes(s: &[u8], a: usize, b: usize) -> (r: Vec<u8>)
    requires
        a <= b <= s@.len(),
    ensures
        r@ == remove_range(s@, a as int, b as int),
{
    let mut r = copy_range(s, 0, a);
    let mut i: usize = b;
    while i < s.len()
        invariant
            b <= i <= s@.len(),
            r@ == s@.subrange(0, a as int) + s@.subrange(b as int, i as int),
        decreases s@.len() - i,
    {
        r.push(s[i]);
        i += 1;
        assert(r@ =~= s@.subrange(0, a as int) + s@.subrange(b as int, i as int));
    }
    r
}

/// End of the maximal whitespace run starting at `i`.
pub fn scan_space(s: &[u8], i: usize) -> (r: usize)
    requires
        i <= s@.len(),
    ensures
        r == run_end(s@, i as int, space_cls()),
{
    let mut j = i;
    while j < s.len() && byte_is_space(s[j])
        invariant
            i <= j <= s@.len(),
            run_end(s@, i as int, space_cls()) == run_end(s@, j as int, space_cls()),
        decreases s@.len() - j,
    {
        j += 1;
    }
    j
}

/// End of the maximal word-byte run starting at `i`.
pub fn scan_word(s: &[u8], i: usize) -> (r: usize)
    requires
        i <= s@.len(),
    ensures
        r == run_end(s@, i as int, word_cls()),
{
    let mut j = i;
    while j < s.len() && byte_is_word(s[j])
        invariant
            i <= j <= s@.len(),
            run_end(s@, i as int, word_cls()) == run_end(s@, j as int, word_cls()),
        decreases s@.len() - j,
    {
        j += 1;
    }
    j
}

/// End of the maximal digit run starting at `i`.
pub fn scan_digit(s: &[u8], i: usize) -> (r: usize)
    requires
        i <= s@.len(),
    ensures
        r == run_end(s@, i as int, digit_cls()),
{
    let mut j = i;
    while j < s.len() && byte_is_digit(s[j])
        invariant
            i <= j <= s@.len(),
            run_end(s@, i as int, digit_cls()) == run_end(s@, j as int, digit_cls()),
        decreases s@.len() - j,
    {
        j += 1;
    }
    j
}

/// End of the maximal hex-or-dash run starting at `i`.
pub fn scan_hex_dash(s: &[u8], i: usize) -> (r: usize)
    requires
        i <= s@.len(),
    ensures
        r == run_end(s@, i as int, hex_dash_cls()),
{
    let mut j = i;
    while j < s.len() && byte_is_hex_dash(s[j])
        invariant
            i <= j <= s@.len(),
            run_end(s@, i as int, hex_dash_cls()) == run_end(s@, j as int, hex_dash_cls()),
        decreases s@.len() - j,
    {
        j += 1;
    }
    j
}

/// Start of the trailing whitespace run that ends at `j`.
pub fn scan_back_space(s: &[u8], j: usize) -> (r: usize)
    requires
        j <= s@.len(),
    ensures
        r == skip_back(s@, j as int),
{
    let mut k = j;
    while k > 0 && byte_is_space(s[k - 1])
        invariant
            k <= j <= s@.len(),
            skip_back(s@, j as int) == skip_back(s@, k as int),
        decreases k,
    {
        k -= 1;
    }
    k
}

/// Copy of `s` with leading and trailing ASCII whitespace removed.
pub fn trim_bytes(s: &[u8]) -> (r: Vec<u8>)
    ensures
        r@ == trim_spec(s@),
{
    let a = scan_space(s, 0);
    let b = scan_back_space(s, s.len());
    proof {
        lemma_run_end_props(s@, 0, space_cls());
        lemma_skip_back_props(s@, s@.len() as int);
    }
    if a < b {
        copy_range(s, a, b)
    } else {
        Vec::new()
    }
}

} // verus!
