//! Byte-count literals: a mantissa scaled by a named magnitude.
//!
//! A literal is either hexadecimal (`0x100`, `0XFAcBd`) or decimal with an
//! optional scale suffix (`45K`, `12Ki`, `209Gi`). The absolute value of an
//! offset is its mantissa times the magnitude's factor; products beyond the
//! unsigned 64-bit range saturate rather than wrap, and mantissas beyond that
//! range are rejected at parse time.

use vstd::prelude::*;
use vstd::string::{StringExecFns, StringSliceAdditionalSpecFns};

use crate::errors::ScalpelError;

verus! {

/// A named scale factor for byte counts: powers of 1000 (`K`, `M`, `G`) and
/// powers of 1024 (`Ki`, `Mi`, `Gi`).
#[derive(Debug, PartialEq, Eq, Structural, Clone, Copy)]
pub enum Magnitude {
    Unit,
    K,
    Ki,
    M,
    Mi,
    G,
    Gi,
}

impl Magnitude {
    /// The multiplier this magnitude stands for.
    pub open spec fn factor(self) -> int {
        match self {
            Magnitude::Unit => 1int,
            Magnitude::K => 1000int,
            Magnitude::Ki => 1024int,
            Magnitude::M => 1000int * 1000,
            Magnitude::Mi => 1024int * 1024,
            Magnitude::G => 1000int * 1000 * 1000,
            Magnitude::Gi => 1024int * 1024 * 1024,
        }
    }

    /// Parses a suffix string: the empty string is `Unit`, otherwise one of
    /// `K`, `Ki`, `M`, `Mi`, `G`, `Gi`, case-sensitive.
    pub fn parse(mag_str: &str) -> (res: Result<Self, ScalpelError>)
        ensures
            match suffix_magnitude(mag_str.spec_bytes()) {
                Some(m) => res == Ok::<Magnitude, ScalpelError>(m),
                None => (res matches Err(ScalpelError::ParsingError { r: t }) && t@
                    == mag_str@),
            },
    {
        match suffix_to_magnitude(mag_str.as_bytes()) {
            Some(m) => Ok(m),
            None => Err(parse_error(mag_str)),
        }
    }

    /// The factor as an unsigned 64-bit count.
    pub fn as_u64(&self) -> (res: u64)
        ensures
            res == self.factor(),
    {
        match self {
            Magnitude::Unit => 1u64,
            Magnitude::K => 1000u64,
            Magnitude::Ki => 1024u64,
            Magnitude::M => 1000u64 * 1000u64,
            Magnitude::Mi => 1024u64 * 1024u64,
            Magnitude::G => 1000u64 * 1000u64 * 1000u64,
            Magnitude::Gi => 1024u64 * 1024u64 * 1024u64,
        }
    }

    /// The factor as a `usize` count; every factor fits.
    pub fn as_usize(&self) -> (res: usize)
        ensures
            res == self.factor(),
    {
        match self {
            Magnitude::Unit => 1usize,
            Magnitude::K => 1000usize,
            Magnitude::Ki => 1024usize,
            Magnitude::M => 1000usize * 1000usize,
            Magnitude::Mi => 1024usize * 1024usize,
            Magnitude::G => 1000usize * 1000usize * 1000usize,
            Magnitude::Gi => 1024usize * 1024usize * 1024usize,
        }
    }

    /// The human label used when rendering an offset for diagnostics.
    pub fn label(&self) -> (res: &'static str)
        ensures
            res@ == self.spec_label(),
    {
        proof {
            reveal_strlit("");
            reveal_strlit("KB");
            reveal_strlit("KiB");
            reveal_strlit("MB");
            reveal_strlit("MiB");
            reveal_strlit("GB");
            reveal_strlit("GiB");
        }
        match self {
            Magnitude::Unit => "",
            Magnitude::K => "KB",
            Magnitude::Ki => "KiB",
            Magnitude::M => "MB",
            Magnitude::Mi => "MiB",
            Magnitude::G => "GB",
            Magnitude::Gi => "GiB",
        }
    }

    /// The label each magnitude renders as.
    pub open spec fn spec_label(self) -> Seq<char> {
        match self {
            Magnitude::Unit => Seq::<char>::empty(),
            Magnitude::K => seq!['K', 'B'],
            Magnitude::Ki => seq!['K', 'i', 'B'],
            Magnitude::M => seq!['M', 'B'],
            Magnitude::Mi => seq!['M', 'i', 'B'],
            Magnitude::G => seq!['G', 'B'],
            Magnitude::Gi => seq!['G', 'i', 'B'],
        }
    }
}

impl PartialOrd for Magnitude {
    /// Magnitudes are totally ordered by their factor.
    fn partial_cmp(&self, other: &Self) -> (res: Option<core::cmp::Ordering>) {
        let a = self.as_u64();
        let b = other.as_u64();
        if a < b {
            Some(core::cmp::Ordering::Less)
        } else if a == b {
            Some(core::cmp::Ordering::Equal)
        } else {
            Some(core::cmp::Ordering::Greater)
        }
    }
}

impl vstd::std_specs::cmp::PartialOrdSpecImpl for Magnitude {
    open spec fn obeys_partial_cmp_spec() -> bool {
        true
    }

    open spec fn partial_cmp_spec(&self, other: &Self) -> Option<core::cmp::Ordering> {
        if self.factor() < other.factor() {
            Some(core::cmp::Ordering::Less)
        } else if self.factor() == other.factor() {
            Some(core::cmp::Ordering::Equal)
        } else {
            Some(core::cmp::Ordering::Greater)
        }
    }
}

impl Default for Magnitude {
    fn default() -> (res: Self)
        ensures
            res == Magnitude::Unit,
    {
        Magnitude::Unit
    }
}

/// An exact byte count: a mantissa and the magnitude scaling it.
#[derive(Debug, Clone, Copy)]
pub struct ByteOffset {
    pub num: u64,
    pub magnitude: Magnitude,
}

impl ByteOffset {
    /// The exact absolute value, unbounded.
    pub open spec fn abs(self) -> int {
        self.num * self.magnitude.factor()
    }

    /// The absolute value clamped to the unsigned 64-bit range; this is what
    /// every executable computation uses.
    pub open spec fn abs_u64(self) -> int {
        if self.abs() <= u64::MAX {
            self.abs()
        } else {
            u64::MAX as int
        }
    }

    /// The absolute value clamped to the `usize` range: what the offset
    /// denotes as a buffer position.
    pub open spec fn abs_usize(self) -> int {
        if self.abs() <= usize::MAX {
            self.abs()
        } else {
            usize::MAX as int
        }
    }

    pub fn new(num: u64, magnitude: Magnitude) -> (res: Self)
        ensures
            res.num == num,
            res.magnitude == magnitude,
    {
        Self { num, magnitude }
    }

    /// The absolute byte count; saturates at `u64::MAX` instead of wrapping.
    pub fn as_u64(&self) -> (res: u64)
        ensures
            res == self.abs_u64(),
    {
        match self.num.checked_mul(self.magnitude.as_u64()) {
            Some(v) => v,
            None => u64::MAX,
        }
    }

    /// The absolute byte count as `usize`; saturates at `usize::MAX`.
    pub fn as_usize(&self) -> (res: usize)
        ensures
            res == self.abs_usize(),
    {
        let v = self.as_u64();
        if v > usize::MAX as u64 {
            usize::MAX
        } else {
            v as usize
        }
    }

    /// Sum of the absolute values, expressed in `Magnitude::Unit`; saturates
    /// at `u64::MAX`.
    pub fn add(self, rhs: Self) -> (res: Self)
        ensures
            res.magnitude == Magnitude::Unit,
            res.num == if self.abs_u64() + rhs.abs_u64() <= u64::MAX {
                self.abs_u64() + rhs.abs_u64()
            } else {
                u64::MAX as int
            },
    {
        let num = self.as_u64().saturating_add(rhs.as_u64());
        ByteOffset { num, magnitude: Magnitude::Unit }
    }

    /// Difference of the absolute values, expressed in `Magnitude::Unit`.
    pub fn sub(self, rhs: Self) -> (res: Self)
        requires
            rhs.abs_u64() <= self.abs_u64(),
        ensures
            res.magnitude == Magnitude::Unit,
            res.num == self.abs_u64() - rhs.abs_u64(),
    {
        let num = self.as_u64() - rhs.as_u64();
        ByteOffset { num, magnitude: Magnitude::Unit }
    }

    /// Renders the offset for diagnostics: the mantissa in decimal followed by
    /// the magnitude's label.
    pub fn render(&self) -> (res: String)
        ensures
            res@ == dec_string_of(self.num as nat) + self.magnitude.spec_label(),
    {
        let mut out = u64_to_string(self.num);
        out.append(self.magnitude.label());
        out
    }
}

impl PartialEq for ByteOffset {
    /// Offsets compare by absolute value, not by the literal mantissa and
    /// magnitude pair.
    fn eq(&self, other: &Self) -> (res: bool) {
        self.as_u64() == other.as_u64()
    }
}

impl vstd::std_specs::cmp::PartialEqSpecImpl for ByteOffset {
    open spec fn obeys_eq_spec() -> bool {
        true
    }

    open spec fn eq_spec(&self, other: &Self) -> bool {
        self.abs_u64() == other.abs_u64()
    }
}

impl PartialOrd for ByteOffset {
    /// Offsets are ordered by absolute value.
    fn partial_cmp(&self, other: &Self) -> (res: Option<core::cmp::Ordering>) {
        let a = self.as_u64();
        let b = other.as_u64();
        if a < b {
            Some(core::cmp::Ordering::Less)
        } else if a == b {
            Some(core::cmp::Ordering::Equal)
        } else {
            Some(core::cmp::Ordering::Greater)
        }
    }
}

impl vstd::std_specs::cmp::PartialOrdSpecImpl for ByteOffset {
    open spec fn obeys_partial_cmp_spec() -> bool {
        true
    }

    open spec fn partial_cmp_spec(&self, other: &Self) -> Option<core::cmp::Ordering> {
        if self.abs_u64() < other.abs_u64() {
            Some(core::cmp::Ordering::Less)
        } else if self.abs_u64() == other.abs_u64() {
            Some(core::cmp::Ordering::Equal)
        } else {
            Some(core::cmp::Ordering::Greater)
        }
    }
}

impl Default for ByteOffset {
    fn default() -> (res: Self)
        ensures
            res.num == 0,
            res.magnitude == Magnitude::Unit,
    {
        ByteOffset { num: 0, magnitude: Magnitude::Unit }
    }
}

// ---------------------------------------------------------------------------
// The literal grammar, stated over the UTF-8 bytes of the input text.
// ---------------------------------------------------------------------------

pub open spec fn is_dec_digit(c: u8) -> bool {
    0x30 <= c <= 0x39
}

pub open spec fn is_hex_digit(c: u8) -> bool {
    is_dec_digit(c) || (0x41 <= c <= 0x46) || (0x61 <= c <= 0x66)
}

pub open spec fn hex_digit_val(c: u8) -> int {
    if is_dec_digit(c) {
        c - 0x30
    } else if 0x41 <= c <= 0x46 {
        c - 0x41 + 10
    } else if 0x61 <= c <= 0x66 {
        c - 0x61 + 10
    } else {
        0int
    }
}

/// The number denoted by a sequence of hexadecimal digit characters.
pub open spec fn hex_val_of(b: Seq<u8>) -> int
    decreases b.len(),
{
    if b.len() == 0 {
        0
    } else {
        16 * hex_val_of(b.drop_last()) + hex_digit_val(b.last())
    }
}

/// The number denoted by a sequence of decimal digit characters.
pub open spec fn dec_val_of(b: Seq<u8>) -> int
    decreases b.len(),
{
    if b.len() == 0 {
        0
    } else {
        10 * dec_val_of(b.drop_last()) + hex_digit_val(b.last())
    }
}

pub open spec fn all_hex(b: Seq<u8>) -> bool {
    forall|i: int| 0 <= i < b.len() ==> is_hex_digit(#[trigger] b[i])
}

pub open spec fn all_dec(b: Seq<u8>) -> bool {
    forall|i: int| 0 <= i < b.len() ==> is_dec_digit(#[trigger] b[i])
}

/// How many decimal digits the text starts with.
pub open spec fn dec_digit_count(b: Seq<u8>) -> int
    decreases b.len(),
{
    if b.len() == 0 || !is_dec_digit(b[0]) {
        0
    } else {
        1 + dec_digit_count(b.skip(1))
    }
}

/// The magnitude a suffix string denotes, if any.
pub open spec fn suffix_magnitude(b: Seq<u8>) -> Option<Magnitude> {
    if b.len() == 0 {
        Some(Magnitude::Unit)
    } else if b.len() == 1 && b[0] == 0x4B {
        Some(Magnitude::K)
    } else if b.len() == 1 && b[0] == 0x4D {
        Some(Magnitude::M)
    } else if b.len() == 1 && b[0] == 0x47 {
        Some(Magnitude::G)
    } else if b.len() == 2 && b[0] == 0x4B && b[1] == 0x69 {
        Some(Magnitude::Ki)
    } else if b.len() == 2 && b[0] == 0x4D && b[1] == 0x69 {
        Some(Magnitude::Mi)
    } else if b.len() == 2 && b[0] == 0x47 && b[1] == 0x69 {
        Some(Magnitude::Gi)
    } else {
        None
    }
}

/// Whether the text starts with `0x` or `0X`.
pub open spec fn is_hex_form(b: Seq<u8>) -> bool {
    b.len() >= 2 && b[0] == 0x30 && (b[1] == 0x78 || b[1] == 0x58)
}

/// Whether the text matches the offset grammar:
/// `0x`/`0X` then one or more hex digits, or one or more decimal digits
/// followed by an optional magnitude suffix.
pub open spec fn offset_shape_ok(b: Seq<u8>) -> bool {
    if is_hex_form(b) {
        b.len() > 2 && all_hex(b.skip(2))
    } else {
        dec_digit_count(b) >= 1 && suffix_magnitude(b.skip(dec_digit_count(b))) is Some
    }
}

/// Whether the mantissa the text denotes fits in an unsigned 64-bit count.
pub open spec fn offset_fits(b: Seq<u8>) -> bool {
    if is_hex_form(b) {
        hex_val_of(b.skip(2)) <= u64::MAX
    } else {
        dec_val_of(b.take(dec_digit_count(b))) <= u64::MAX
    }
}

/// The offset a well-formed literal denotes.
pub open spec fn offset_value(b: Seq<u8>) -> ByteOffset {
    if is_hex_form(b) {
        ByteOffset { num: hex_val_of(b.skip(2)) as u64, magnitude: Magnitude::Unit }
    } else {
        ByteOffset {
            num: dec_val_of(b.take(dec_digit_count(b))) as u64,
            magnitude: suffix_magnitude(b.skip(dec_digit_count(b))).unwrap(),
        }
    }
}

/// A value of a digit prefix never exceeds the value of a longer prefix.
proof fn lemma_hex_prefix_le(b: Seq<u8>, i: int, j: int)
    requires
        0 <= i <= j <= b.len(),
    ensures
        hex_val_of(b.take(i)) <= hex_val_of(b.take(j)),
    decreases j - i,
{
    if i < j {
        lemma_hex_prefix_le(b, i, j - 1);
        assert(b.take(j).drop_last() =~= b.take(j - 1));
        assert(hex_val_of(b.take(j)) == 16 * hex_val_of(b.take(j - 1)) + hex_digit_val(
            b.take(j).last(),
        ));
        assert(hex_val_of(b.take(j - 1)) >= 0) by {
            lemma_hex_val_nonneg(b.take(j - 1));
        }
        assert(hex_digit_val(b.take(j).last()) >= 0);
    } else {
        assert(i == j);
    }
}

proof fn lemma_hex_val_nonneg(b: Seq<u8>)
    ensures
        hex_val_of(b) >= 0,
        dec_val_of(b) >= 0,
    decreases b.len(),
{
    if b.len() > 0 {
        lemma_hex_val_nonneg(b.drop_last());
    }
}

proof fn lemma_dec_prefix_le(b: Seq<u8>, i: int, j: int)
    requires
        0 <= i <= j <= b.len(),
    ensures
        dec_val_of(b.take(i)) <= dec_val_of(b.take(j)),
    decreases j - i,
{
    if i < j {
        lemma_dec_prefix_le(b, i, j - 1);
        assert(b.take(j).drop_last() =~= b.take(j - 1));
        assert(hex_digit_val(b.take(j).last()) >= 0);
        assert(dec_val_of(b.take(j - 1)) >= 0) by {
            lemma_hex_val_nonneg(b.take(j - 1));
        }
    }
}

/// A digit scan that saw digits up to `i` and a non-digit (or the end) at `i`
/// has found the digit prefix.
proof fn lemma_dec_count_is(b: Seq<u8>, i: int)
    requires
        0 <= i <= b.len(),
        forall|j: int| 0 <= j < i ==> is_dec_digit(#[trigger] b[j]),
        i == b.len() || !is_dec_digit(b[i]),
    ensures
        dec_digit_count(b) == i,
    decreases i,
{
    if b.len() == 0 {
    } else if i == 0 {
    } else {
        lemma_dec_count_is(b.skip(1), i - 1);
        assert(forall|j: int|
            0 <= j < i - 1 ==> is_dec_digit(#[trigger] b.skip(1)[j]) == is_dec_digit(b[j + 1]));
    }
}

/// Converts hex digit text to its value; `None` exactly when a character is
/// not a hex digit or the value exceeds `u64::MAX`.
fn hex_digits_to_u64(d: &[u8]) -> (res: Option<u64>)
    ensures
        res is Some <==> (all_hex(d@) && hex_val_of(d@) <= u64::MAX),
        res is Some ==> res->0 == hex_val_of(d@),
{
    let mut acc: u64 = 0;
    let mut i: usize = 0;
    while i < d.len()
        invariant
            0 <= i <= d@.len(),
            all_hex(d@.take(i as int)),
            acc == hex_val_of(d@.take(i as int)),
        decreases d@.len() - i,
    {
        let c = d[i];
        let v: u64 = if 0x30 <= c && c <= 0x39 {
            (c - 0x30) as u64
        } else if 0x41 <= c && c <= 0x46 {
            (c - 0x41 + 10) as u64
        } else if 0x61 <= c && c <= 0x66 {
            (c - 0x61 + 10) as u64
        } else {
            proof {
                assert(!is_hex_digit(d@[i as int]));
            }
            return None;
        };
        proof {
            assert(d@.take(i + 1).drop_last() =~= d@.take(i as int));
            assert(d@.take(i + 1).last() == d@[i as int]);
        }
        let next = match acc.checked_mul(16) {
            Some(m) => m.checked_add(v),
            None => None,
        };
        match next {
            Some(n) => {
                acc = n;
            },
            None => {
                proof {
                    assert(hex_val_of(d@.take(i + 1)) > u64::MAX);
                    lemma_hex_prefix_le(d@, i + 1, d@.len() as int);
                    assert(d@.take(d@.len() as int) =~= d@);
                }
                return None;
            },
        }
        i = i + 1;
    }
    proof {
        assert(d@.take(d@.len() as int) =~= d@);
    }
    Some(acc)
}

/// Converts decimal digit text to its value; all characters must already be
/// digits; `None` exactly when the value exceeds `u64::MAX`.
fn dec_digits_to_u64(d: &[u8]) -> (res: Option<u64>)
    requires
        all_dec(d@),
    ensures
        res is Some <==> dec_val_of(d@) <= u64::MAX,
        res is Some ==> res->0 == dec_val_of(d@),
{
    let mut acc: u64 = 0;
    let mut i: usize = 0;
    while i < d.len()
        invariant
            all_dec(d@),
            0 <= i <= d@.len(),
            acc == dec_val_of(d@.take(i as int)),
        decreases d@.len() - i,
    {
        let c = d[i];
        let v: u64 = (c - 0x30) as u64;
        proof {
            assert(d@.take(i + 1).drop_last() =~= d@.take(i as int));
            assert(d@.take(i + 1).last() == d@[i as int]);
        }
        let next = match acc.checked_mul(10) {
            Some(m) => m.checked_add(v),
            None => None,
        };
        match next {
            Some(n) => {
                acc = n;
            },
            None => {
                proof {
                    assert(dec_val_of(d@.take(i + 1)) > u64::MAX);
                    lemma_dec_prefix_le(d@, i + 1, d@.len() as int);
                    assert(d@.take(d@.len() as int) =~= d@);
                }
                return None;
            },
        }
        i = i + 1;
    }
    proof {
        assert(d@.take(d@.len() as int) =~= d@);
    }
    Some(acc)
}

/// Maps a suffix to its magnitude, mirroring `suffix_magnitude`.
fn suffix_to_magnitude(b: &[u8]) -> (res: Option<Magnitude>)
    ensures
        res == suffix_magnitude(b@),
{
    if b.len() == 0 {
        Some(Magnitude::Unit)
    } else if b.len() == 1 {
        if b[0] == 0x4B {
            Some(Magnitude::K)
        } else if b[0] == 0x4D {
            Some(Magnitude::M)
        } else if b[0] == 0x47 {
            Some(Magnitude::G)
        } else {
            None
        }
    } else if b.len() == 2 && b[1] == 0x69 {
        if b[0] == 0x4B {
            Some(Magnitude::Ki)
        } else if b[0] == 0x4D {
            Some(Magnitude::Mi)
        } else if b[0] == 0x47 {
            Some(Magnitude::Gi)
        } else {
            None
        }
    } else {
        None
    }
}

/// The parse error naming the offending text.
pub(crate) fn parse_error(s: &str) -> (res: ScalpelError)
    ensures
        res matches ScalpelError::ParsingError { r: t } && t@ == s@,
{
    ScalpelError::ParsingError { r: s.to_owned() }
}

/// Parses an offset literal given as raw text bytes; `None` exactly when the
/// text does not match the grammar or its mantissa does not fit.
pub(crate) fn offset_from_bytes(b: &[u8]) -> (res: Option<ByteOffset>)
    ensures
        res is Some <==> (offset_shape_ok(b@) && offset_fits(b@)),
        res is Some ==> res->0 == offset_value(b@),
{
    if b.len() >= 2 && b[0] == 0x30 && (b[1] == 0x78 || b[1] == 0x58) {
        if b.len() == 2 {
            return None;
        }
        let digits = &b[2..b.len()];
        proof {
            assert(digits@ =~= b@.skip(2));
        }
        match hex_digits_to_u64(digits) {
            Some(v) => Some(ByteOffset { num: v, magnitude: Magnitude::Unit }),
            None => None,
        }
    } else {
        proof {
            assert(!is_hex_form(b@));
        }
        let mut i: usize = 0;
        while i < b.len() && 0x30 <= b[i] && b[i] <= 0x39
            invariant
                0 <= i <= b@.len(),
                forall|j: int| 0 <= j < i ==> is_dec_digit(#[trigger] b@[j]),
            decreases b@.len() - i,
        {
            i = i + 1;
        }
        proof {
            lemma_dec_count_is(b@, i as int);
        }
        if i == 0 {
            return None;
        }
        let digits = &b[0..i];
        let suffix = &b[i..b.len()];
        proof {
            assert(digits@ =~= b@.take(i as int));
            assert(suffix@ =~= b@.skip(i as int));
        }
        let m = match suffix_to_magnitude(suffix) {
            Some(m) => m,
            None => {
                return None;
            },
        };
        match dec_digits_to_u64(digits) {
            Some(v) => Some(ByteOffset { num: v, magnitude: m }),
            None => None,
        }
    }
}

/// Parses a byte-count literal: `0x`/`0X` followed by hex digits, or decimal
/// digits with an optional magnitude suffix (`K`, `Ki`, `M`, `Mi`, `G`, `Gi`).
///
/// Succeeds exactly on text matching that grammar whose mantissa fits in an
/// unsigned 64-bit count; every failure names the offending text.
pub fn parse_offset(s: &str) -> (res: Result<ByteOffset, ScalpelError>)
    ensures
        res is Ok <==> (offset_shape_ok(s.spec_bytes()) && offset_fits(s.spec_bytes())),
        res matches Ok(bo) ==> bo == offset_value(s.spec_bytes()),
        res is Err ==> (res matches Err(ScalpelError::ParsingError { r: t }) && t@ == s@),
{
    match offset_from_bytes(s.as_bytes()) {
        Some(bo) => Ok(bo),
        None => Err(parse_error(s)),
    }
}

// ---------------------------------------------------------------------------
// Decimal rendering, for diagnostics.
// ---------------------------------------------------------------------------

/// The shortest decimal digit string for `n`.
pub open spec fn dec_string_of(n: nat) -> Seq<char>
    decreases n,
{
    if n < 10 {
        seq![dec_digit_char(n)]
    } else {
        dec_string_of(n / 10).push(dec_digit_char(n % 10))
    }
}

pub open spec fn dec_digit_char(n: nat) -> char {
    if n == 0 {
        '0'
    } else if n == 1 {
        '1'
    } else if n == 2 {
        '2'
    } else if n == 3 {
        '3'
    } else if n == 4 {
        '4'
    } else if n == 5 {
        '5'
    } else if n == 6 {
        '6'
    } else if n == 7 {
        '7'
    } else if n == 8 {
        '8'
    } else {
        '9'
    }
}

fn dec_digit_to_str(n: u64) -> (res: &'static str)
    requires
        n < 10,
    ensures
        res@ == seq![dec_digit_char(n as nat)],
{
    proof {
        reveal_strlit("0");
        reveal_strlit("1");
        reveal_strlit("2");
        reveal_strlit("3");
        reveal_strlit("4");
        reveal_strlit("5");
        reveal_strlit("6");
        reveal_strlit("7");
        reveal_strlit("8");
        reveal_strlit("9");
    }
    let res: &'static str = if n == 0 {
        "0"
    } else if n == 1 {
        "1"
    } else if n == 2 {
        "2"
    } else if n == 3 {
        "3"
    } else if n == 4 {
        "4"
    } else if n == 5 {
        "5"
    } else if n == 6 {
        "6"
    } else if n == 7 {
        "7"
    } else if n == 8 {
        "8"
    } else {
        "9"
    };
    proof {
        assert(res@ =~= seq![dec_digit_char(n as nat)]);
    }
    res
}

/// Renders a number in decimal.
pub fn u64_to_string(n: u64) -> (res: String)
    ensures
        res@ == dec_string_of(n as nat),
    decreases n,
{
    let mut out: String;
    if n < 10 {
        out = String::new();
        out.append(dec_digit_to_str(n));
        proof {
            assert(out@ =~= dec_string_of(n as nat));
        }
    } else {
        out = u64_to_string(n / 10);
        out.append(dec_digit_to_str(n % 10));
        proof {
            assert(out@ =~= dec_string_of(n as nat));
        }
    }
    out
}

} // verus!
