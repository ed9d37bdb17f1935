//! Task identity: a 16-byte unique id, printed and parsed in the usual
//! hyphenated hexadecimal text form.  Formatting and parsing are verified
//! here; only the minting of a fresh random id is delegated to the `uuid`
//! crate.

use vstd::prelude::*;

use crate::scan::{is_digit, is_hex, is_hex_lower, byte_is_digit, byte_is_hex};

verus! {

// ---------------------------------------------------------------------------
// the canonical text form
// ---------------------------------------------------------------------------

/// Positions of the four dashes in the canonical 36-byte text form.
pub open spec fn is_dash_pos(i: int) -> bool {
    i == 8 || i == 13 || i == 18 || i == 23
}

/// Which of the 32 hex digits sits at non-dash position `i`.
pub open spec fn undash(i: int) -> int {
    if i < 8 {
        i
    } else if i < 13 {
        i - 1
    } else if i < 18 {
        i - 2
    } else if i < 23 {
        i - 3
    } else {
        i - 4
    }
}

/// Position of hex digit number `j` in the canonical text form.
pub open spec fn dash_pos_of(j: int) -> int {
    if j < 8 {
        j
    } else if j < 12 {
        j + 1
    } else if j < 16 {
        j + 2
    } else if j < 20 {
        j + 3
    } else {
        j + 4
    }
}

/// Lowercase hex character of a nibble.
pub open spec fn hex_char(n: int) -> u8 {
    if n < 10 {
        (48 + n) as u8
    } else {
        (87 + n) as u8
    }
}

/// Value of a hex character of either case.
pub open spec fn hex_val(b: u8) -> int {
    if is_digit(b) {
        b - 48
    } else if 97 <= b <= 102 {
        b - 87
    } else {
        b - 55
    }
}

/// The canonical text of a 16-byte id: 32 lowercase hex digits with dashes
/// at positions 8, 13, 18 and 23.
pub open spec fn canon_spec(id: Seq<u8>) -> Seq<u8> {
    Seq::new(
        36,
        |i: int|
            if is_dash_pos(i) {
                45u8
            } else {
                let j = undash(i);
                if j % 2 == 0 {
                    hex_char((id[j / 2] / 16) as int)
                } else {
                    hex_char((id[j / 2] % 16) as int)
                }
            },
    )
}

/// A sequence is exactly a canonical id text.
pub open spec fn is_canon_id(s: Seq<u8>) -> bool {
    s.len() == 36 && (forall|i: int| 0 <= i < 36 && is_dash_pos(i) ==> #[trigger] s[i] == 45)
        && (forall|i: int| 0 <= i < 36 && !is_dash_pos(i) ==> is_hex_lower(#[trigger] s[i]))
}

// ---------------------------------------------------------------------------
// accepted id-token shapes
// ---------------------------------------------------------------------------

/// Hyphenated form: 36 bytes, dashes at the four fixed positions, hex digits
/// of either case elsewhere.
pub open spec fn hyphenated_ok(s: Seq<u8>) -> bool {
    s.len() == 36 && (forall|i: int| 0 <= i < 36 && is_dash_pos(i) ==> #[trigger] s[i] == 45)
        && (forall|i: int| 0 <= i < 36 && !is_dash_pos(i) ==> is_hex(#[trigger] s[i]))
}

/// Simple form: 32 hex digits of either case, no dashes.
pub open spec fn simple_ok(s: Seq<u8>) -> bool {
    s.len() == 32 && (forall|i: int| 0 <= i < 32 ==> is_hex(#[trigger] s[i]))
}

pub open spec fn bytes_of_hyphenated(s: Seq<u8>) -> Seq<u8> {
    Seq::new(
        16,
        |k: int| (hex_val(s[dash_pos_of(2 * k)]) * 16 + hex_val(s[dash_pos_of(2 * k + 1)])) as u8,
    )
}

pub open spec fn bytes_of_simple(s: Seq<u8>) -> Seq<u8> {
    Seq::new(16, |k: int| (hex_val(s[2 * k]) * 16 + hex_val(s[2 * k + 1])) as u8)
}

/// What an id token parses to: the hyphenated form, the simple form, or
/// nothing.
pub open spec fn id_parse_spec(s: Seq<u8>) -> Option<Seq<u8>> {
    if hyphenated_ok(s) {
        Some(bytes_of_hyphenated(s))
    } else if simple_ok(s) {
        Some(bytes_of_simple(s))
    } else {
        None
    }
}

// ---------------------------------------------------------------------------
// round-trip facts
// ---------------------------------------------------------------------------

pub proof fn lemma_hex_char_val(n: int)
    requires
        0 <= n < 16,
    ensures
        is_hex_lower(hex_char(n)),
        hex_val(hex_char(n)) == n,
{
}

/// The canonical text of any 16-byte id is a canonical id text and parses
/// back to the same bytes.
pub proof fn lemma_canon_roundtrip(id: Seq<u8>)
    requires
        id.len() == 16,
    ensures
        is_canon_id(canon_spec(id)),
        id_parse_spec(canon_spec(id)) == Some(id),
{
    let s = canon_spec(id);
    assert forall|i: int| 0 <= i < 36 && !is_dash_pos(i) implies is_hex_lower(#[trigger] s[i]) by {
        let j = undash(i);
        assert(0 <= j < 32);
        assert(0 <= id[j / 2] < 256);
        if j % 2 == 0 {
            lemma_hex_char_val((id[j / 2] / 16) as int);
        } else {
            lemma_hex_char_val((id[j / 2] % 16) as int);
        }
    }
    assert(is_canon_id(s));
    assert(hyphenated_ok(s));
    assert forall|k: int| 0 <= k < 16 implies bytes_of_hyphenated(s)[k] == id[k] by {
        let p0 = dash_pos_of(2 * k);
        let p1 = dash_pos_of(2 * k + 1);
        assert(!is_dash_pos(p0) && undash(p0) == 2 * k);
        assert(!is_dash_pos(p1) && undash(p1) == 2 * k + 1);
        lemma_hex_char_val((id[k] / 16) as int);
        lemma_hex_char_val((id[k] % 16) as int);
        assert(s[p0] == hex_char((id[k] / 16) as int));
        assert(s[p1] == hex_char((id[k] % 16) as int));
        assert(hex_val(s[p0]) == id[k] / 16);
        assert(hex_val(s[p1]) == id[k] % 16);
    }
    assert(bytes_of_hyphenated(s) =~= id);
}

pub proof fn lemma_hex_val_char(b: u8)
    requires
        is_hex_lower(b),
    ensures
        0 <= hex_val(b) < 16,
        hex_char(hex_val(b)) == b,
{
}

/// A canonical id text parses, and printing the parsed bytes gives the text
/// back.
pub proof fn lemma_parse_canon(s: Seq<u8>)
    requires
        is_canon_id(s),
    ensures
        id_parse_spec(s) matches Some(b) && b.len() == 16 && canon_spec(b) == s,
{
    assert(hyphenated_ok(s));
    let b = bytes_of_hyphenated(s);
    assert forall|i: int| 0 <= i < 36 implies canon_spec(b)[i] == s[i] by {
        if is_dash_pos(i) {
            assert(s[i] == 45);
        } else {
            let j = undash(i);
            assert(0 <= j < 32);
            let k = j / 2;
            let p0 = dash_pos_of(2 * k);
            let p1 = dash_pos_of(2 * k + 1);
            assert(!is_dash_pos(p0) && !is_dash_pos(p1));
            lemma_hex_val_char(s[p0]);
            lemma_hex_val_char(s[p1]);
            assert(b[k] == (hex_val(s[p0]) * 16 + hex_val(s[p1])) as u8);
            assert(b[k] / 16 == hex_val(s[p0]) && b[k] % 16 == hex_val(s[p1]));
            if j % 2 == 0 {
                assert(p0 == i);
                assert(canon_spec(b)[i] == hex_char((b[k] / 16) as int));
            } else {
                assert(p1 == i);
                assert(canon_spec(b)[i] == hex_char((b[k] % 16) as int));
            }
        }
    }
    assert(canon_spec(b) =~= s);
}

// ---------------------------------------------------------------------------
// the TaskId type
// ---------------------------------------------------------------------------

/// Unique identity of one task: sixteen opaque bytes, assigned once and kept
/// across every re-normalization.
#[derive(Debug)]
pub struct TaskId {
    bytes: Vec<u8>,
}

impl View for TaskId {
    type V = Seq<u8>;

    closed spec fn view(&self) -> Seq<u8> {
        self.bytes@
    }
}

/// Relies on `uuid::Uuid::new_v4`, which returns a freshly generated random
/// version-4 UUID; nothing is assumed of the value beyond its 16-byte size.
#[verifier::external_body]
fn random_uuid_bytes() -> (r: Vec<u8>)
    ensures
        r@.len() == 16,
{
    uuid::Uuid::new_v4().as_bytes().to_vec()
}

impl TaskId {
    /// The sixteen bytes are all there is to an id.
    pub open spec fn wf(&self) -> bool {
        self@.len() == 16
    }

    /// Mint a fresh random id.
    pub fn fresh() -> (r: TaskId)
        ensures
            r.wf(),
    {
        TaskId { bytes: random_uuid_bytes() }
    }

    /// Wrap sixteen raw bytes as an id.
    pub fn from_bytes(bytes: Vec<u8>) -> (r: Option<TaskId>)
        ensures
            match r {
                Some(id) => bytes@.len() == 16 && id@ == bytes@ && id.wf(),
                None => bytes@.len() != 16,
            },
    {
        if bytes.len() == 16 {
            Some(TaskId { bytes })
        } else {
            None
        }
    }

    /// The canonical 36-byte text of this id.
    pub fn canonical(&self) -> (r: Vec<u8>)
        requires
            self.wf(),
        ensures
            r@ == canon_spec(self@),
    {
        let mut r: Vec<u8> = Vec::new();
        let mut i: usize = 0;
        while i < 36
            invariant
                self.wf(),
                i <= 36,
                r@ == canon_spec(self@).subrange(0, i as int),
            decreases 36 - i,
        {
            if i == 8 || i == 13 || i == 18 || i == 23 {
                r.push(45);
            } else {
                let j: usize = if i < 8 {
                    i
                } else if i < 13 {
                    i - 1
                } else if i < 18 {
                    i - 2
                } else if i < 23 {
                    i - 3
                } else {
                    i - 4
                };
                let b = self.bytes[j / 2];
                let n: u8 = if j % 2 == 0 {
                    b / 16
                } else {
                    b % 16
                };
                let c: u8 = if n < 10 {
                    48 + n
                } else {
                    87 + n
                };
                r.push(c);
            }
            i += 1;
            assert(r@ =~= canon_spec(self@).subrange(0, i as int));
        }
        assert(r@ =~= canon_spec(self@));
        r
    }

    /// Parse an id token: the hyphenated or the simple hex form.
    pub fn parse_token(s: &[u8]) -> (r: Option<TaskId>)
        ensures
            match r {
                Some(id) => id_parse_spec(s@) == Some(id@) && id.wf(),
                None => id_parse_spec(s@) is None,
            },
    {
        if s.len() == 36 {
            if !(s[8] == 45 && s[13] == 45 && s[18] == 45 && s[23] == 45) {
                assert(!hyphenated_ok(s@) && !simple_ok(s@));
                return None;
            }
            let mut i: usize = 0;
            while i < 36
                invariant
                    s@.len() == 36,
                    i <= 36,
                    s@[8] == 45 && s@[13] == 45 && s@[18] == 45 && s@[23] == 45,
                    forall|k: int| 0 <= k < i && !is_dash_pos(k) ==> is_hex(#[trigger] s@[k]),
                decreases 36 - i,
            {
                if !(i == 8 || i == 13 || i == 18 || i == 23) {
                    if !byte_is_hex(s[i]) {
                        assert(!hyphenated_ok(s@) && !simple_ok(s@));
                        return None;
                    }
                }
                i += 1;
            }
            assert(hyphenated_ok(s@));
            let mut bytes: Vec<u8> = Vec::new();
            let mut k: usize = 0;
            while k < 16
                invariant
                    s@.len() == 36,
                    hyphenated_ok(s@),
                    k <= 16,
                    bytes@ == bytes_of_hyphenated(s@).subrange(0, k as int),
                decreases 16 - k,
            {
                let j: usize = 2 * k;
                let p0: usize = if j < 8 {
                    j
                } else if j < 12 {
                    j + 1
                } else if j < 16 {
                    j + 2
                } else if j < 20 {
                    j + 3
                } else {
                    j + 4
                };
                let p1: usize = if j + 1 < 8 {
                    j + 1
                } else if j + 1 < 12 {
                    j + 2
                } else if j + 1 < 16 {
                    j + 3
                } else if j + 1 < 20 {
                    j + 4
                } else {
                    j + 5
                };
                assert(!is_dash_pos(p0 as int) && !is_dash_pos(p1 as int));
                let b: u8 = hex_val_byte(s[p0]) * 16 + hex_val_byte(s[p1]);
                bytes.push(b);
                k += 1;
                assert(bytes@ =~= bytes_of_hyphenated(s@).subrange(0, k as int));
            }
            assert(bytes@ =~= bytes_of_hyphenated(s@));
            Some(TaskId { bytes })
        } else if s.len() == 32 {
            let mut i: usize = 0;
            while i < 32
                invariant
                    s@.len() == 32,
                    i <= 32,
                    forall|k: int| 0 <= k < i ==> is_hex(#[trigger] s@[k]),
                decreases 32 - i,
            {
                if !byte_is_hex(s[i]) {
                    assert(!hyphenated_ok(s@) && !simple_ok(s@));
                    return None;
                }
                i += 1;
            }
            assert(simple_ok(s@));
            let mut bytes: Vec<u8> = Vec::new();
            let mut k: usize = 0;
            while k < 16
                invariant
                    s@.len() == 32,
                    simple_ok(s@),
                    k <= 16,
                    bytes@ == bytes_of_simple(s@).subrange(0, k as int),
                decreases 16 - k,
            {
                let b: u8 = hex_val_byte(s[2 * k]) * 16 + hex_val_byte(s[2 * k + 1]);
                bytes.push(b);
                k += 1;
                assert(bytes@ =~= bytes_of_simple(s@).subrange(0, k as int));
            }
            assert(bytes@ =~= bytes_of_simple(s@));
            Some(TaskId { bytes })
        } else {
            assert(!hyphenated_ok(s@) && !simple_ok(s@));
            None
        }
    }
}

/// Value of one hex character.
fn hex_val_byte(b: u8) -> (r: u8)
    requires
        is_hex(b),
    ensures
        r == hex_val(b),
        r < 16,
{
    if byte_is_digit(b) {
        b - 48
    } else if 97 <= b && b <= 102 {
        b - 87
    } else {
        b - 55
    }
}

impl PartialEq for TaskId {
    /// Two ids are equal exactly when their bytes are.
    fn eq(&self, other: &TaskId) -> (r: bool) {
        if self.bytes.len() != other.bytes.len() {
            return false;
        }
        let mut i: usize = 0;
        while i < self.bytes.len()
            invariant
                self@.len() == other@.len(),
                i <= self@.len(),
                forall|k: int| 0 <= k < i ==> self@[k] == other@[k],
            decreases self@.len() - i,
        {
            if self.bytes[i] != other.bytes[i] {
                assert(self@ != other@);
                return false;
            }
            i += 1;
        }
        assert(self@ =~= other@);
        true
    }
}

impl Eq for TaskId {

}

impl vstd::std_specs::cmp::PartialEqSpecImpl for TaskId {
    open spec fn obeys_eq_spec() -> bool {
        true
    }

    open spec fn eq_spec(&self, other: &TaskId) -> bool {
        self@ == other@
    }
}

impl Clone for TaskId {
    /// A clone carries the same sixteen bytes.
    fn clone(&self) -> (r: TaskId)
        ensures
            r@ == self@,
    {
        let mut bytes: Vec<u8> = Vec::new();
        let mut i: usize = 0;
        while i < self.bytes.len()
            invariant
                i <= self@.len(),
                bytes@ == self@.subrange(0, i as int),
            decreases self@.len() - i,
        {
            bytes.push(self.bytes[i]);
            i += 1;
            assert(bytes@ =~= self@.subrange(0, i as int));
        }
        assert(bytes@ =~= self@);
        TaskId { bytes }
    }
}

} // verus!
