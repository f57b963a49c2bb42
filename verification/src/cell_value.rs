use vstd::prelude::*;
use vstd::string::StrSliceExecFns;

verus! {

/// A Sudoku digit: an integer in [1, 9]. A value outside that range is not
/// representable; construction is the single validation point.
#[derive(Clone, Copy, Debug, PartialEq, Eq, Structural)]
pub struct CellValue(u8);

/// The cell value holding digit `d`; meaningful for `1 <= d <= 9`.
pub closed spec fn spec_digit(d: int) -> CellValue {
    CellValue(d as u8)
}

/// The cell value a digit candidate maps to: a value in [1, 9], or nothing.
pub open spec fn spec_new(value: u8) -> Option<CellValue> {
    if 1 <= value <= 9 {
        Some(spec_digit(value as int))
    } else {
        None
    }
}

impl CellValue {
    /// Every cell value holds a digit between 1 and 9.
    #[verifier::type_invariant]
    pub open spec fn wf(self) -> bool {
        1 <= self.value() <= 9
    }

    /// The digit as a mathematical integer.
    pub closed spec fn value(self) -> int {
        self.0 as int
    }

    /// Accept a digit given as a number, rejecting zero and anything above 9.
    pub fn new(value: u8) -> (r: Option<Self>)
        ensures
            r == spec_new(value),
    {
        clamp_value(value)
    }

    /// The digit as a machine integer.
    pub fn get(self) -> (v: u8)
        ensures
            v as int == self.value(),
            1 <= v <= 9,
    {
        proof {
            use_type_invariant(&self);
        }
        self.0
    }
}

/// Build the cell value for a digit already known to be in range.
pub(crate) fn digit(value: u8) -> (r: CellValue)
    requires
        1 <= value <= 9,
    ensures
        r == spec_digit(value as int),
{
    CellValue(value)
}

/// Keep a candidate number only if it is a digit in [1, 9].
pub fn clamp_value(value: u8) -> (r: Option<CellValue>)
    ensures
        r == spec_new(value),
{
    if value >= 1 && value <= 9 {
        Some(CellValue(value))
    } else {
        None
    }
}

/// The decimal digits of a token, once an optional leading plus sign is
/// stripped; numbers are written this way for an unsigned parse.
pub open spec fn numeric_part(t: Seq<char>) -> Seq<char> {
    if t.len() > 0 && t[0] == '+' {
        t.drop_first()
    } else {
        t
    }
}

pub open spec fn all_digits(s: Seq<char>) -> bool {
    forall|i: int| 0 <= i < s.len() ==> 48 <= #[trigger] s[i] as int <= 57
}

/// Whether a token reads as a number at all: an optional leading plus
/// sign, then at least one character, all decimal digits.
pub open spec fn token_numeric(t: Seq<char>) -> bool {
    numeric_part(t).len() > 0 && all_digits(numeric_part(t))
}

/// The number a string of decimal digits denotes.
pub open spec fn digits_value(s: Seq<char>) -> int
    decreases s.len(),
{
    if s.len() == 0 {
        0
    } else {
        digits_value(s.drop_last()) * 10 + (s.last() as int - 48)
    }
}

/// The number a token denotes under a nonzero 8-bit unsigned parse: an
/// optional leading plus sign, then decimal digits whose value lies in
/// [1, 255]. Anything else (including zero) denotes nothing.
pub open spec fn token_value(t: Seq<char>) -> Option<int> {
    let d = numeric_part(t);
    if d.len() > 0 && all_digits(d) && 1 <= digits_value(d) <= 255 {
        Some(digits_value(d))
    } else {
        None
    }
}

/// The cell value a token parses to: a digit token in [1, 9] yields that
/// digit; a numeric token above 9 and a non-numeric token yield nothing.
pub open spec fn spec_from_str(t: Seq<char>) -> Option<CellValue> {
    match token_value(t) {
        Some(v) => if v <= 9 {
            Some(spec_digit(v))
        } else {
            None
        },
        None => None,
    }
}

pub proof fn lemma_digits_value_nonneg(s: Seq<char>)
    requires
        all_digits(s),
    ensures
        digits_value(s) >= 0,
    decreases s.len(),
{
    if s.len() > 0 {
        assert(all_digits(s.drop_last()));
        lemma_digits_value_nonneg(s.drop_last());
    }
}

/// A prefix of a digit string never denotes a larger number than the whole.
pub proof fn lemma_digits_prefix_le(s: Seq<char>, k: int)
    requires
        0 <= k <= s.len(),
        all_digits(s),
    ensures
        digits_value(s.take(k)) <= digits_value(s),
    decreases s.len(),
{
    if k == s.len() {
        assert(s.take(k) =~= s);
    } else {
        assert(all_digits(s.drop_last()));
        lemma_digits_prefix_le(s.drop_last(), k);
        assert(s.drop_last().take(k) =~= s.take(k));
        lemma_digits_value_nonneg(s.drop_last());
    }
}

impl CellValue {
    /// Parse a token as a cell value, the way a nonzero 8-bit number is
    /// read from text and then clamped to the digit range.
    pub fn from_str(value: &str) -> (r: Option<Self>)
        ensures
            r == spec_from_str(value@),
    {
        match parse_token(value) {
            Some(v) => clamp_value(v),
            None => None,
        }
    }
}

/// Decide whether a token reads as a number, exactly as `token_numeric`
/// says.
pub(crate) fn token_is_numeric(t: &str) -> (b: bool)
    ensures
        b == token_numeric(t@),
{
    let len: usize = t.unicode_len();
    let start: usize = if len > 0 && t.get_char(0) == '+' {
        1
    } else {
        0
    };
    let ghost d: Seq<char> = t@.subrange(start as int, len as int);
    proof {
        assert(d =~= numeric_part(t@));
    }
    if start >= len {
        return false;
    }
    let mut i: usize = start;
    while i < len
        invariant
            start <= i <= len,
            len == t@.len(),
            start <= 1,
            d == t@.subrange(start as int, len as int),
            d == numeric_part(t@),
            forall|j: int| 0 <= j < i - start ==> 48 <= #[trigger] d[j] as int <= 57,
        decreases len - i,
    {
        let c: char = t.get_char(i);
        let code: u32 = c as u32;
        if code < 48 || code > 57 {
            proof {
                assert(d[i - start] == t@[i as int]);
                assert(!all_digits(d));
            }
            return false;
        }
        i = i + 1;
    }
    proof {
        assert(all_digits(d));
    }
    true
}

/// Read a token as a nonzero 8-bit unsigned number, exactly as
/// `token_value` describes.
pub(crate) fn parse_token(t: &str) -> (r: Option<u8>)
    ensures
        r matches Some(v) ==> token_value(t@) == Some(v as int),
        r is None ==> token_value(t@) is None,
{
    let len: usize = t.unicode_len();
    let start: usize = if len > 0 && t.get_char(0) == '+' {
        1
    } else {
        0
    };
    let ghost d: Seq<char> = t@.subrange(start as int, len as int);
    proof {
        assert(d =~= numeric_part(t@));
    }
    if start >= len {
        return None;
    }
    let mut acc: u32 = 0;
    let mut i: usize = start;
    while i < len
        invariant
            start <= i <= len,
            len == t@.len(),
            start <= 1,
            d == t@.subrange(start as int, len as int),
            d == numeric_part(t@),
            forall|j: int| 0 <= j < i - start ==> 48 <= #[trigger] d[j] as int <= 57,
            acc as int == digits_value(d.take(i - start)),
            acc <= 255,
        decreases len - i,
    {
        let c: char = t.get_char(i);
        let code: u32 = c as u32;
        if code < 48 || code > 57 {
            proof {
                assert(d[i - start] == t@[i as int]);
                assert(!all_digits(d));
            }
            return None;
        }
        proof {
            assert(d.take(i - start + 1).drop_last() =~= d.take(i - start));
            assert(d.take(i - start + 1).last() == t@[i as int]);
        }
        acc = acc * 10 + (code - 48);
        i = i + 1;
        if acc > 255 {
            proof {
                if all_digits(d) {
                    lemma_digits_prefix_le(d, i - start);
                }
            }
            return None;
        }
    }
    proof {
        assert(d.take(i - start) =~= d);
    }
    if acc == 0 {
        None
    } else {
        Some(acc as u8)
    }
}

impl From<CellValue> for usize {
    /// The digit as an index-sized integer.
    fn from(value: CellValue) -> (r: usize) {
        value.get() as usize
    }
}

impl vstd::std_specs::convert::FromSpecImpl<CellValue> for usize {
    open spec fn obeys_from_spec() -> bool {
        true
    }

    open spec fn from_spec(value: CellValue) -> usize {
        value.value() as usize
    }
}

pub proof fn lemma_spec_digit_value(d: int)
    requires
        1 <= d <= 9,
    ensures
        spec_digit(d).value() == d,
        spec_digit(d).wf(),
{
}

/// Two cell values holding the same digit are the same value.
pub proof fn lemma_value_injective(a: CellValue, b: CellValue)
    requires
        a.value() == b.value(),
    ensures
        a == b,
{
}

} // verus!
