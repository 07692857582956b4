//! Range literals: a start offset with either an exclusive end or a size.
//!
//! A range literal is two offset literals joined by `..` (the second offset
//! is an exclusive end, which must not lie before the start) or by `+` (the
//! second offset is a size). The two offsets of one literal may mix
//! encodings, as in `0xFF..1K`.

use vstd::prelude::*;
use vstd::string::StringSliceAdditionalSpecFns;

use crate::byte_offset::{
    offset_fits,
    offset_shape_ok,
    offset_from_bytes,
    offset_value,
    parse_error,
    ByteOffset,
    Magnitude,
};
use crate::errors::ScalpelError;

verus! {

/// A resolved range: where it starts and how many bytes it covers.
#[derive(Debug, Clone, Copy, PartialEq)]
pub struct Range {
    pub start: ByteOffset,
    pub size: ByteOffset,
}

impl Range {
    pub fn new(start: ByteOffset, size: ByteOffset) -> (res: Self)
        ensures
            res.start == start,
            res.size == size,
    {
        Range { start, size }
    }
}

/// A well-formed offset literal: it matches the grammar and its mantissa fits.
pub open spec fn valid_offset(b: Seq<u8>) -> bool {
    offset_shape_ok(b) && offset_fits(b)
}

/// The position of the first separator character (`.` or `+`), or the length
/// of the text when there is none. Offset literals contain neither character,
/// so this is where a well-formed range literal splits.
pub open spec fn sep_pos(b: Seq<u8>) -> int
    decreases b.len(),
{
    if b.len() == 0 {
        0
    } else if b[0] == 0x2E || b[0] == 0x2B {
        0
    } else {
        1 + sep_pos(b.skip(1))
    }
}

/// Whether the text matches the range grammar: an offset, then `..` or `+`,
/// then an offset.
pub open spec fn range_shape_ok(b: Seq<u8>) -> bool {
    let i = sep_pos(b);
    &&& i < b.len()
    &&& if b[i] == 0x2B {
        valid_offset(b.take(i)) && valid_offset(b.skip(i + 1))
    } else {
        i + 1 < b.len() && b[i + 1] == 0x2E && valid_offset(b.take(i)) && valid_offset(
            b.skip(i + 2),
        )
    }
}

/// In the `..` form the end must not lie before the start; the `+` form has
/// no ordering constraint.
pub open spec fn range_order_ok(b: Seq<u8>) -> bool {
    let i = sep_pos(b);
    b[i] == 0x2B || offset_value(b.skip(i + 2)).abs_u64() >= offset_value(b.take(i)).abs_u64()
}

/// The range a well-formed literal denotes: in the `+` form the size is the
/// second offset as written; in the `..` form it is end minus start,
/// expressed in `Magnitude::Unit`.
pub open spec fn range_value(b: Seq<u8>) -> Range {
    let i = sep_pos(b);
    let start = offset_value(b.take(i));
    if b[i] == 0x2B {
        Range { start, size: offset_value(b.skip(i + 1)) }
    } else {
        Range {
            start,
            size: ByteOffset {
                num: (offset_value(b.skip(i + 2)).abs_u64() - start.abs_u64()) as u64,
                magnitude: Magnitude::Unit,
            },
        }
    }
}

/// A scan that saw no separator before `i` and a separator (or the end) at
/// `i` has found the first separator.
proof fn lemma_sep_pos_is(b: Seq<u8>, i: int)
    requires
        0 <= i <= b.len(),
        forall|j: int| 0 <= j < i ==> (#[trigger] b[j]) != 0x2E && b[j] != 0x2B,
        i == b.len() || b[i] == 0x2E || b[i] == 0x2B,
    ensures
        sep_pos(b) == i,
    decreases i,
{
    if b.len() == 0 {
    } else if i == 0 {
    } else {
        lemma_sep_pos_is(b.skip(1), i - 1);
        assert(forall|j: int| 0 <= j < i - 1 ==> #[trigger] b.skip(1)[j] == b[j + 1]);
    }
}

/// Parses a range literal: `<offset>..<offset>` (exclusive end, end not
/// before start) or `<offset>+<offset>` (explicit size).
///
/// Succeeds exactly on text matching that grammar with the ordering
/// constraint met; every failure names the offending text.
pub fn parse_range(s: &str) -> (res: Result<Range, ScalpelError>)
    ensures
        res is Ok <==> (range_shape_ok(s.spec_bytes()) && range_order_ok(s.spec_bytes())),
        res matches Ok(rg) ==> rg == range_value(s.spec_bytes()),
        res is Err ==> (res matches Err(ScalpelError::ParsingError { r: t }) && t@ == s@),
{
    let b = s.as_bytes();
    let mut i: usize = 0;
    while i < b.len() && b[i] != 0x2E && b[i] != 0x2B
        invariant
            0 <= i <= b@.len(),
            forall|j: int| 0 <= j < i ==> (#[trigger] b@[j]) != 0x2E && b@[j] != 0x2B,
        decreases b@.len() - i,
    {
        i = i + 1;
    }
    proof {
        lemma_sep_pos_is(b@, i as int);
    }
    if i == b.len() {
        return Err(parse_error(s));
    }
    let left = &b[0..i];
    proof {
        assert(left@ =~= b@.take(i as int));
    }
    let start = match offset_from_bytes(left) {
        Some(bo) => bo,
        None => {
            return Err(parse_error(s));
        },
    };
    if b[i] == 0x2B {
        let right = &b[i + 1..b.len()];
        proof {
            assert(right@ =~= b@.skip(i + 1));
        }
        match offset_from_bytes(right) {
            Some(size) => Ok(Range { start, size }),
            None => Err(parse_error(s)),
        }
    } else {
        if i + 1 >= b.len() || b[i + 1] != 0x2E {
            return Err(parse_error(s));
        }
        let right = &b[i + 2..b.len()];
        proof {
            assert(right@ =~= b@.skip(i + 2));
        }
        let end = match offset_from_bytes(right) {
            Some(bo) => bo,
            None => {
                return Err(parse_error(s));
            },
        };
        if end.as_u64() < start.as_u64() {
            return Err(parse_error(s));
        }
        let size = end.sub(start);
        Ok(Range { start, size })
    }
}

} // verus!
