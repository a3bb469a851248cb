//! The literal value model: integers held in the narrowest fixed width that
//! loses nothing, decimal text for floating values, booleans and strings.

use vstd::prelude::*;

verus! {

/// A literal value attached to a token.
#[derive(Debug, Clone, PartialEq)]
pub enum BObject {
    Integer(BInteger),
    Float(BFloat),
    Bool(BBool),
    String(BString),
}

/// A string literal's contents.
#[derive(Debug, Clone, PartialEq)]
pub struct BString {
    inner: String,
}

/// Exactly one width/signedness pair holds a parsed integer literal.
#[derive(Debug, Clone, PartialEq, Eq)]
pub enum BIntegerVariant {
    Int8(i8),
    Int16(i16),
    Int32(i32),
    Int64(i64),
    Int128(i128),
    Uint8(u8),
    Uint16(u16),
    Uint32(u32),
    Uint64(u64),
    Uint128(u128),
}

/// An integer literal, carrying its minimal-width representation.
#[derive(Debug, Clone, PartialEq)]
pub struct BInteger {
    pub inner: BIntegerVariant,
}

/// A floating literal.  The field holds the cleaned decimal text of the
/// lexeme (separators stripped); turning that text into a machine float is
/// the consumer's concern, not the scanner's.
#[derive(Debug, Clone, PartialEq)]
pub struct BFloat {
    pub inner: String,
}

/// A boolean value.
#[derive(Debug, Clone, PartialEq)]
pub struct BBool {
    pub inner: bool,
}

/// The fatal conditions of integer literal parsing.  The scan has no
/// recovery path for them: a caller that meets one gives up the whole scan.
#[derive(Debug, Clone, Copy, PartialEq, Eq, Structural)]
pub enum LexError {
    /// The text is not an optionally signed run of decimal digits.
    MalformedNumber,
    /// The denoted value exceeds the 128-bit literal space.
    IntegerOverflow,
}

impl View for BString {
    type V = Seq<char>;

    closed spec fn view(&self) -> Seq<char> {
        self.inner@
    }
}

/// The mathematical value a variant holds.
pub open spec fn int_value(v: BIntegerVariant) -> int {
    match v {
        BIntegerVariant::Int8(n) => n as int,
        BIntegerVariant::Int16(n) => n as int,
        BIntegerVariant::Int32(n) => n as int,
        BIntegerVariant::Int64(n) => n as int,
        BIntegerVariant::Int128(n) => n as int,
        BIntegerVariant::Uint8(n) => n as int,
        BIntegerVariant::Uint16(n) => n as int,
        BIntegerVariant::Uint32(n) => n as int,
        BIntegerVariant::Uint64(n) => n as int,
        BIntegerVariant::Uint128(n) => n as int,
    }
}

/// Bits of the variant's representation.
pub open spec fn width_bits(v: BIntegerVariant) -> int {
    match v {
        BIntegerVariant::Int8(_) => 8,
        BIntegerVariant::Int16(_) => 16,
        BIntegerVariant::Int32(_) => 32,
        BIntegerVariant::Int64(_) => 64,
        BIntegerVariant::Int128(_) => 128,
        BIntegerVariant::Uint8(_) => 8,
        BIntegerVariant::Uint16(_) => 16,
        BIntegerVariant::Uint32(_) => 32,
        BIntegerVariant::Uint64(_) => 64,
        BIntegerVariant::Uint128(_) => 128,
    }
}

/// The literal space is capped at 128 bits, signed on the negative side.
pub open spec fn fits_128(v: int) -> bool {
    i128::MIN <= v <= u128::MAX
}

/// The escalation table of minimal-width selection: unsigned 8-bit first,
/// then the signed widths for a negative value, the unsigned widths for a
/// positive one, each in increasing order, stopping at the first that holds
/// the value.
pub open spec fn min_width_variant(v: int) -> BIntegerVariant {
    if 0 <= v <= u8::MAX {
        BIntegerVariant::Uint8(v as u8)
    } else if v < 0 {
        if v >= i8::MIN {
            BIntegerVariant::Int8(v as i8)
        } else if v >= i16::MIN {
            BIntegerVariant::Int16(v as i16)
        } else if v >= i32::MIN {
            BIntegerVariant::Int32(v as i32)
        } else if v >= i64::MIN {
            BIntegerVariant::Int64(v as i64)
        } else {
            BIntegerVariant::Int128(v as i128)
        }
    } else {
        if v <= u16::MAX {
            BIntegerVariant::Uint16(v as u16)
        } else if v <= u32::MAX {
            BIntegerVariant::Uint32(v as u32)
        } else if v <= u64::MAX {
            BIntegerVariant::Uint64(v as u64)
        } else {
            BIntegerVariant::Uint128(v as u128)
        }
    }
}

/// Law: the selected variant reproduces the value exactly — the choice is
/// lossless on the whole 128-bit literal space.
pub proof fn lemma_min_width_lossless(v: int)
    requires
        fits_128(v),
    ensures
        int_value(min_width_variant(v)) == v,
{
}

/// Law: no representable variant is narrower than the selected one — the
/// choice is minimal-width among every variant that holds the value.
pub proof fn lemma_min_width_minimal(v: int, other: BIntegerVariant)
    requires
        fits_128(v),
        int_value(other) == v,
    ensures
        width_bits(min_width_variant(v)) <= width_bits(other),
{
}

/// A decimal digit byte.
pub open spec fn is_digit(b: u8) -> bool {
    48 <= b <= 57
}

/// Every byte of the text is a decimal digit.
pub open spec fn all_digits(t: Seq<u8>) -> bool {
    forall|k: int| 0 <= k < t.len() ==> is_digit(#[trigger] t[k])
}

/// The number a digit text denotes, most significant digit first.
pub open spec fn digits_value(t: Seq<u8>) -> int
    decreases t.len(),
{
    if t.len() == 0 {
        0
    } else {
        10 * digits_value(t.drop_last()) + (t.last() - 48)
    }
}

/// A well-formed integer text: an optional leading minus sign, then one or
/// more decimal digits.
pub open spec fn int_text_ok(t: Seq<u8>) -> bool {
    if t.len() > 0 && t[0] == 45 {
        t.len() >= 2 && all_digits(t.skip(1))
    } else {
        t.len() >= 1 && all_digits(t)
    }
}

/// The signed value of a well-formed integer text.
pub open spec fn int_text_value(t: Seq<u8>) -> int {
    if t.len() > 0 && t[0] == 45 {
        -digits_value(t.skip(1))
    } else {
        digits_value(t)
    }
}

proof fn lemma_digits_nonneg(t: Seq<u8>)
    requires
        all_digits(t),
    ensures
        digits_value(t) >= 0,
    decreases t.len(),
{
    if t.len() > 0 {
        assert(all_digits(t.drop_last()));
        lemma_digits_nonneg(t.drop_last());
    }
}

proof fn lemma_digits_prefix_le(t: Seq<u8>, j: int)
    requires
        all_digits(t),
        0 <= j <= t.len(),
    ensures
        0 <= digits_value(t.take(j)) <= digits_value(t),
    decreases t.len() - j,
{
    assert(all_digits(t.take(j)));
    lemma_digits_nonneg(t.take(j));
    if j == t.len() {
        assert(t.take(j) =~= t);
    } else {
        assert(t.take(j + 1).drop_last() =~= t.take(j));
        assert(digits_value(t.take(j + 1)) == 10 * digits_value(t.take(j)) + (t[j] - 48));
        lemma_digits_prefix_le(t, j + 1);
    }
}

impl BInteger {
    /// Wraps an already chosen variant.
    pub fn new(intv: BIntegerVariant) -> (r: Self)
        ensures
            r.inner == intv,
    {
        Self { inner: intv }
    }

    /// Escalates a negative magnitude through the signed widths, smallest
    /// first, and returns the first that holds `-mag`.
    pub fn parse_lower(mag: u128) -> (r: BInteger)
        requires
            1 <= mag <= 0x8000_0000_0000_0000_0000_0000_0000_0000u128,
        ensures
            r.inner == min_width_variant(-(mag as int)),
    {
        if mag <= 128 {
            BInteger { inner: BIntegerVariant::Int8((-(mag as i16)) as i8) }
        } else if mag <= 32768 {
            BInteger { inner: BIntegerVariant::Int16((-(mag as i32)) as i16) }
        } else if mag <= 0x8000_0000 {
            BInteger { inner: BIntegerVariant::Int32((-(mag as i64)) as i32) }
        } else if mag <= 0x8000_0000_0000_0000 {
            BInteger { inner: BIntegerVariant::Int64((-(mag as i128)) as i64) }
        } else if mag == 0x8000_0000_0000_0000_0000_0000_0000_0000u128 {
            BInteger { inner: BIntegerVariant::Int128(i128::MIN) }
        } else {
            BInteger { inner: BIntegerVariant::Int128(-(mag as i128)) }
        }
    }

    /// Escalates a positive magnitude too large for eight bits through the
    /// unsigned widths, smallest first, and returns the first that holds it.
    pub fn parse_higher(mag: u128) -> (r: BInteger)
        requires
            mag > 255,
        ensures
            r.inner == min_width_variant(mag as int),
    {
        if mag <= 65535 {
            BInteger { inner: BIntegerVariant::Uint16(mag as u16) }
        } else if mag <= 0xFFFF_FFFF {
            BInteger { inner: BIntegerVariant::Uint32(mag as u32) }
        } else if mag <= 0xFFFF_FFFF_FFFF_FFFF {
            BInteger { inner: BIntegerVariant::Uint64(mag as u64) }
        } else {
            BInteger { inner: BIntegerVariant::Uint128(mag) }
        }
    }

    /// Reads an optional sign and a run of decimal digit bytes, and selects
    /// the minimal-width variant for the denoted value.  Total: a text that
    /// is not a signed digit run, or one past the 128-bit cap, is reported,
    /// never swallowed.
    pub fn parse_digit_bytes(t: &[u8]) -> (r: Result<BInteger, LexError>)
        ensures
            !int_text_ok(t@) ==> r == Err::<BInteger, LexError>(LexError::MalformedNumber),
            int_text_ok(t@) && !fits_128(int_text_value(t@)) ==> r == Err::<
                BInteger,
                LexError,
            >(LexError::IntegerOverflow),
            int_text_ok(t@) && fits_128(int_text_value(t@)) ==> r is Ok && r->Ok_0.inner
                == min_width_variant(int_text_value(t@)),
    {
        if t.len() == 0 {
            return Err(LexError::MalformedNumber);
        }
        let neg = t[0] == 45;
        let start: usize = if neg { 1 } else { 0 };
        if t.len() <= start {
            return Err(LexError::MalformedNumber);
        }
        let mut k = start;
        while k < t.len()
            invariant
                start <= k <= t@.len(),
                start < t@.len(),
                neg == (t@[0] == 45),
                start == if neg { 1int } else { 0int },
                forall|j: int| start <= j < k ==> is_digit(#[trigger] t@[j]),
            decreases t@.len() - k,
        {
            let b = t[k];
            if b < 48 || b > 57 {
                proof {
                    if neg {
                        assert(!is_digit(t@.skip(1)[k - 1]));
                    } else {
                        assert(!is_digit(t@[k as int]));
                    }
                }
                return Err(LexError::MalformedNumber);
            }
            k += 1;
        }
        let ghost digits = t@.skip(start as int);
        proof {
            assert forall|j: int| 0 <= j < digits.len() implies is_digit(#[trigger] digits[j]) by {
                assert(digits[j] == t@[j + start]);
            }
            assert(all_digits(digits));
            if neg {
                assert(int_text_ok(t@));
                assert(int_text_value(t@) == -digits_value(digits));
            } else {
                assert(t@.skip(0) =~= t@);
                assert(int_text_ok(t@));
                assert(int_text_value(t@) == digits_value(digits));
            }
            assert(t@.subrange(start as int, start as int) =~= digits.take(0));
        }
        let mut mag: u128 = 0;
        k = start;
        while k < t.len()
            invariant
                start <= k <= t@.len(),
                start < t@.len(),
                neg == (t@[0] == 45),
                start == if neg { 1int } else { 0int },
                digits == t@.skip(start as int),
                all_digits(digits),
                int_text_ok(t@),
                int_text_value(t@) == if neg { -digits_value(digits) } else {
                    digits_value(digits)
                },
                mag == digits_value(digits.take(k - start)),
            decreases t@.len() - k,
        {
            proof {
                lemma_digits_prefix_le(digits, k - start + 1);
                assert(digits.take(k - start + 1).drop_last() =~= digits.take(k - start));
                assert(digits.take(k - start + 1).last() == t@[k as int]);
                assert(digits_value(digits.take(k - start + 1)) == 10 * mag + (t@[k as int] - 48));
            }
            let d = (t[k] - 48) as u128;
            let m10 = match mag.checked_mul(10) {
                Some(v) => v,
                None => {
                    return Err(LexError::IntegerOverflow);
                },
            };
            let nm = match m10.checked_add(d) {
                Some(v) => v,
                None => {
                    return Err(LexError::IntegerOverflow);
                },
            };
            mag = nm;
            k += 1;
        }
        proof {
            assert(digits.take(k - start) =~= digits);
        }
        if neg && mag > 0x8000_0000_0000_0000_0000_0000_0000_0000u128 {
            return Err(LexError::IntegerOverflow);
        }
        if mag == 0 || (!neg && mag <= 255) {
            Ok(BInteger { inner: BIntegerVariant::Uint8(mag as u8) })
        } else if neg {
            Ok(BInteger::parse_lower(mag))
        } else {
            Ok(BInteger::parse_higher(mag))
        }
    }

    /// Parses an optionally signed decimal string into the minimal-width
    /// variant, as `parse_digit_bytes` does.  The 128-bit cap is a fatal
    /// condition of the language, so texts past it are left outside this
    /// function's domain; `parse_digit_bytes` reports them instead.
    pub fn parse_from_string(string: &str) -> (r: BInteger)
        requires
            str_int_text_ok(string@),
            fits_128(str_int_value(string@)),
        ensures
            r.inner == min_width_variant(str_int_value(string@)),
    {
        let bytes = string.as_bytes();
        proof {
            vstd::string::is_ascii_spec_bytes(string);
            assert(bytes@ =~= char_bytes(string@));
        }
        match BInteger::parse_digit_bytes(bytes) {
            Ok(b) => b,
            Err(_) => {
                proof {
                    assert(false);
                }
                BInteger { inner: BIntegerVariant::Uint8(0) }
            },
        }
    }
}

/// The bytes a run of ASCII characters stands for, one byte per character.
pub open spec fn char_bytes(s: Seq<char>) -> Seq<u8> {
    s.map(|_i, c: char| c as u8)
}

/// A well-formed integer text, given as characters: ASCII, an optional
/// leading minus sign, then one or more decimal digits.
pub open spec fn str_int_text_ok(s: Seq<char>) -> bool {
    vstd::utf8::is_ascii_chars(s) && int_text_ok(char_bytes(s))
}

/// The signed value of a well-formed integer text given as characters.
pub open spec fn str_int_value(s: Seq<char>) -> int {
    int_text_value(char_bytes(s))
}

impl BString {
    /// Wraps the captured contents of a string literal.
    pub fn new(val: String) -> (r: Self)
        ensures
            r@ == val@,
    {
        Self { inner: val }
    }
}

impl BFloat {
    /// Wraps the cleaned decimal text of a floating literal.
    pub fn new(val: String) -> (r: Self)
        ensures
            r.inner@ == val@,
    {
        Self { inner: val }
    }
}

} // verus!
