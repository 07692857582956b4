//! The region engine: extracting, stitching and grafting byte buffers.
//!
//! Every operation is a pure function from owned byte sequences to an owned
//! byte sequence; gaps are bridged according to a fill pattern. The only
//! non-determinism is the random fill pattern, whose bytes are drawn through
//! an outside generator; everything stated of a result holds for every
//! drawing.

use vstd::prelude::*;
use vstd::string::StringSliceAdditionalSpecFns;

use crate::byte_offset::ByteOffset;
use crate::errors::ScalpelError;
use crate::stitch::{concat_overlaps, concat_result_ok, sorted_pairs, strictly_sorted_pairs};

verus! {

/// The rule for bytes that bridge a gap: zeroes, ones (`0xFF`), or
/// independently drawn random bytes.
#[derive(Debug, Clone, Copy, PartialEq, Eq, Structural)]
pub enum FillPattern {
    Random,
    Zero,
    One,
}

impl Default for FillPattern {
    fn default() -> (res: Self)
        ensures
            res == FillPattern::Zero,
    {
        FillPattern::Zero
    }
}

/// What a fill pattern promises of a padding sequence: zeroes or ones are
/// pinned byte for byte; of random padding only the length is known.
pub open spec fn fill_matches(fill: FillPattern, s: Seq<u8>) -> bool {
    match fill {
        FillPattern::Zero => forall|i: int| 0 <= i < s.len() ==> #[trigger] s[i] == 0x00,
        FillPattern::One => forall|i: int| 0 <= i < s.len() ==> #[trigger] s[i] == 0xFF,
        FillPattern::Random => true,
    }
}

/// Relies on `rand::fill`: fills a buffer with bytes from the thread-local
/// generator. Nothing can be promised of the values, so only the length is
/// stated.
#[verifier::external_body]
fn random_bytes(n: usize) -> (res: Vec<u8>)
    ensures
        res@.len() == n,
{
    let mut buf = vec![0u8; n];
    rand::fill(&mut buf[..]);
    buf
}

/// A padding buffer of `n` bytes obeying the fill pattern.
pub fn fill_vec(fill: &FillPattern, n: usize) -> (res: Vec<u8>)
    ensures
        res@.len() == n,
        fill_matches(*fill, res@),
{
    match fill {
        FillPattern::Zero => vec![0x00u8; n],
        FillPattern::One => vec![0xFFu8; n],
        FillPattern::Random => random_bytes(n),
    }
}

/// The format a buffer is stored in on disk: raw bytes or Intel HEX text.
#[derive(Debug, Clone, Copy, PartialEq, Eq, Structural)]
pub enum MetaInfo {
    IntelHex,
    Bin,
}

impl Default for MetaInfo {
    fn default() -> (res: Self)
        ensures
            res == MetaInfo::Bin,
    {
        MetaInfo::Bin
    }
}

// ---------------------------------------------------------------------------
// File-name extensions, stated over the UTF-8 bytes of the path text.
// ---------------------------------------------------------------------------

/// The index just after the last `/`, or `0` when there is none: where the
/// path's final component starts.
pub open spec fn last_slash_end(b: Seq<u8>) -> int
    decreases b.len(),
{
    if b.len() == 0 {
        0
    } else if b.last() == 0x2F {
        b.len() as int
    } else {
        last_slash_end(b.drop_last())
    }
}

/// The index of the last `.`, or `-1` when there is none.
pub open spec fn last_dot(c: Seq<u8>) -> int
    decreases c.len(),
{
    if c.len() == 0 {
        -1
    } else if c.last() == 0x2E {
        c.len() - 1
    } else {
        last_dot(c.drop_last())
    }
}

/// A file name has an extension when its final component has a `.` that is
/// neither its first character nor absent.
pub open spec fn has_extension(b: Seq<u8>) -> bool {
    last_dot(b.skip(last_slash_end(b))) >= 1
}

/// The extension: what follows the last `.` of the final component.
pub open spec fn extension_of(b: Seq<u8>) -> Seq<u8> {
    let c = b.skip(last_slash_end(b));
    c.skip(last_dot(c) + 1)
}

proof fn lemma_last_slash_end_is(b: Seq<u8>, ls: int)
    requires
        0 <= ls <= b.len(),
        ls == 0 || b[ls - 1] == 0x2F,
        forall|j: int| ls <= j < b.len() ==> (#[trigger] b[j]) != 0x2F,
    ensures
        last_slash_end(b) == ls,
    decreases b.len(),
{
    if b.len() == 0 {
    } else if b.last() == 0x2F {
        assert(ls == b.len());
    } else {
        assert(ls < b.len());
        lemma_last_slash_end_is(b.drop_last(), ls);
    }
}

proof fn lemma_last_dot_is(c: Seq<u8>, d: int)
    requires
        -1 <= d < c.len(),
        d == -1 || c[d] == 0x2E,
        forall|j: int| d < j < c.len() ==> (#[trigger] c[j]) != 0x2E,
    ensures
        last_dot(c) == d,
    decreases c.len(),
{
    if c.len() == 0 {
    } else if c.last() == 0x2E {
        assert(d == c.len() - 1);
    } else {
        assert(d < c.len() - 1);
        lemma_last_dot_is(c.drop_last(), d);
    }
}

/// The extension of a file name, if it has one.
pub(crate) fn file_extension<'a>(name: &'a [u8]) -> (res: Option<&'a [u8]>)
    ensures
        res is Some <==> has_extension(name@),
        res matches Some(e) ==> e@ == extension_of(name@),
{
    let mut ls: usize = 0;
    let mut ld: usize = 0;
    let mut seen_dot: bool = false;
    let mut i: usize = 0;
    while i < name.len()
        invariant
            0 <= i <= name@.len(),
            0 <= ls <= i,
            ls == 0 || name@[ls - 1] == 0x2F,
            forall|j: int| ls <= j < i ==> (#[trigger] name@[j]) != 0x2F,
            seen_dot ==> ld < i && name@[ld as int] == 0x2E,
            forall|j: int|
                (if seen_dot {
                    ld < j < i
                } else {
                    0 <= j < i
                }) ==> (#[trigger] name@[j]) != 0x2E,
        decreases name@.len() - i,
    {
        let c = name[i];
        if c == 0x2F {
            ls = i + 1;
        }
        if c == 0x2E {
            ld = i;
            seen_dot = true;
        }
        i = i + 1;
    }
    proof {
        lemma_last_slash_end_is(name@, ls as int);
        let comp = name@.skip(ls as int);
        if seen_dot && ld >= ls {
            assert(forall|j: int|
                ld - ls < j < comp.len() ==> (#[trigger] comp[j]) == name@[j + ls]);
            lemma_last_dot_is(comp, ld - ls);
        } else {
            assert(forall|j: int| 0 <= j < comp.len() ==> (#[trigger] comp[j]) == name@[j + ls]);
            lemma_last_dot_is(comp, -1);
        }
    }
    if seen_dot && ld > ls {
        let e = &name[ld + 1..name.len()];
        proof {
            assert(e@ =~= extension_of(name@));
        }
        Some(e)
    } else {
        None
    }
}

impl MetaInfo {
    /// The storage format a file-name extension denotes: `bin` is raw,
    /// `hex` is Intel HEX text, anything else is unknown.
    pub open spec fn spec_from_extension(b: Seq<u8>) -> Result<MetaInfo, ScalpelError> {
        if !has_extension(b) {
            Err(ScalpelError::UnknownFileFormat)
        } else if extension_of(b) == seq![0x62u8, 0x69u8, 0x6Eu8] {
            Ok(MetaInfo::Bin)
        } else if extension_of(b) == seq![0x68u8, 0x65u8, 0x78u8] {
            Ok(MetaInfo::IntelHex)
        } else {
            Err(ScalpelError::UnknownFileFormat)
        }
    }

    /// Resolves the storage format from a path's extension alone.
    pub fn from_file_extension(path: &str) -> (res: Result<MetaInfo, ScalpelError>)
        ensures
            res == MetaInfo::spec_from_extension(path.spec_bytes()),
    {
        match file_extension(path.as_bytes()) {
            Some(e) => {
                if e.len() == 3 && e[0] == 0x62 && e[1] == 0x69 && e[2] == 0x6E {
                    proof {
                        assert(extension_of(path.spec_bytes()) =~= seq![0x62u8, 0x69u8, 0x6Eu8]);
                    }
                    Ok(MetaInfo::Bin)
                } else if e.len() == 3 && e[0] == 0x68 && e[1] == 0x65 && e[2] == 0x78 {
                    proof {
                        assert(extension_of(path.spec_bytes()) =~= seq![0x68u8, 0x65u8, 0x78u8]);
                    }
                    Ok(MetaInfo::IntelHex)
                } else {
                    proof {
                        let ext = extension_of(path.spec_bytes());
                        assert(ext != seq![0x62u8, 0x69u8, 0x6Eu8] && ext != seq![
                            0x68u8,
                            0x65u8,
                            0x78u8,
                        ]) by {
                            if ext == seq![0x62u8, 0x69u8, 0x6Eu8] || ext == seq![
                                0x68u8,
                                0x65u8,
                                0x78u8,
                            ] {
                                assert(e@.len() == 3);
                            }
                        }
                    }
                    Err(ScalpelError::UnknownFileFormat)
                }
            },
            None => Err(ScalpelError::UnknownFileFormat),
        }
    }
}

// ---------------------------------------------------------------------------
// The engine's operations.
// ---------------------------------------------------------------------------

/// Returns the bytes of the half-open window `[start, start + size)`.
///
/// A start beyond the end of the buffer is an error; a window that runs past
/// the end is clamped to the bytes that exist, which the caller can detect by
/// comparing the result's length to `size`.
pub fn extract(buffer: Vec<u8>, start: usize, size: usize) -> (res: Result<
    Vec<u8>,
    ScalpelError,
>)
    ensures
        res is Ok <==> start <= buffer@.len(),
        res matches Ok(out) ==> out@ == buffer@.subrange(
            start as int,
            if start + size <= buffer@.len() {
                start + size
            } else {
                buffer@.len() as int
            },
        ),
        res is Err ==> res == Err::<Vec<u8>, ScalpelError>(ScalpelError::RangeError),
{
    if start > buffer.len() {
        return Err(ScalpelError::RangeError);
    }
    let end: usize = if size <= buffer.len() - start {
        start + size
    } else {
        buffer.len()
    };
    let window = vstd::slice::slice_subrange(buffer.as_slice(), start, end);
    Ok(vstd::slice::slice_to_vec(window))
}

/// Builds `target` with the window `[start, start + size)` replaced: the
/// replacement bytes, then fill bytes up to the window's size. Everything
/// outside the window is kept byte for byte.
///
/// A replacement longer than the window is an error, as is a window that does
/// not lie inside the target.
pub fn splice(
    target: Vec<u8>,
    replacement: Vec<u8>,
    start: usize,
    size: usize,
    fill: &FillPattern,
) -> (res: Result<Vec<u8>, ScalpelError>)
    ensures
        replacement@.len() > size ==> res == Err::<Vec<u8>, ScalpelError>(
            ScalpelError::ReplaceError,
        ),
        replacement@.len() <= size && start + size > target@.len() ==> res == Err::<
            Vec<u8>,
            ScalpelError,
        >(ScalpelError::RangeError),
        res is Ok <==> (replacement@.len() <= size && start + size <= target@.len()),
        res matches Ok(out) ==> {
            &&& out@.len() == target@.len()
            &&& out@.subrange(0, start as int) == target@.subrange(0, start as int)
            &&& out@.subrange(start as int, start + replacement@.len()) == replacement@
            &&& fill_matches(*fill, out@.subrange(start + replacement@.len(), start + size))
            &&& out@.subrange(start + size, out@.len() as int) == target@.subrange(
                start + size,
                target@.len() as int,
            )
        },
{
    if replacement.len() > size {
        return Err(ScalpelError::ReplaceError);
    }
    if start > target.len() || size > target.len() - start {
        return Err(ScalpelError::RangeError);
    }
    let mut out: Vec<u8> = Vec::new();
    let before = vstd::slice::slice_subrange(target.as_slice(), 0, start);
    out.extend_from_slice(before);
    proof {
        assert(out@ =~= target@.subrange(0, start as int));
    }
    out.extend_from_slice(replacement.as_slice());
    proof {
        assert(out@ =~= target@.subrange(0, start as int) + replacement@);
    }
    let pad = fill_vec(fill, size - replacement.len());
    out.extend_from_slice(pad.as_slice());
    proof {
        assert(out@ =~= target@.subrange(0, start as int) + replacement@ + pad@);
    }
    let after = vstd::slice::slice_subrange(target.as_slice(), start + size, target.len());
    out.extend_from_slice(after);
    proof {
        assert(out@ =~= target@.subrange(0, start as int) + replacement@ + pad@ + target@.subrange(
            start + size,
            target@.len() as int,
        ));
        assert(out@.subrange(0, start as int) =~= target@.subrange(0, start as int));
        assert(out@.subrange(start as int, start + replacement@.len()) =~= replacement@);
        assert(out@.subrange(start + replacement@.len(), start + size) =~= pad@);
        assert(out@.subrange(start + size, out@.len() as int) =~= target@.subrange(
            start + size,
            target@.len() as int,
        ));
    }
    Ok(out)
}

/// A byte buffer together with the operations that edit it; the in-memory
/// representation is always raw bytes, whatever format it was loaded from.
#[derive(Debug, Clone)]
pub struct AnnotatedBytes {
    pub bytes: Vec<u8>,
}

/// The buffers to stitch with their offsets, read as plain entries.
pub open spec fn input_entries(files: Seq<(AnnotatedBytes, ByteOffset)>) -> Seq<(Vec<u8>, usize)> {
    Seq::new(files.len(), |i: int| (files[i].0.bytes, files[i].1.abs_usize() as usize))
}

/// What stitching promises, stated over some ascending arrangement `es` of
/// the input entries: either no entry's offset was already covered and the
/// result is their concatenation, or one was and stitching failed with an
/// overlap error.
pub open spec fn stitch_post(
    es: Seq<(Vec<u8>, usize)>,
    input: Seq<(AnnotatedBytes, ByteOffset)>,
    fill: FillPattern,
    res: Result<AnnotatedBytes, ScalpelError>,
) -> bool {
    &&& sorted_pairs(es)
    &&& es.to_multiset() == input_entries(input).to_multiset()
    &&& match res {
        Ok(ab) => !concat_overlaps(es) && concat_result_ok(es, fill, ab.bytes@),
        Err(e) => concat_overlaps(es) && e == ScalpelError::OverlapError,
    }
}

/// The law for stitching entries handed over already in strictly ascending
/// offset order: the arrangement stitching works on is the input itself, so
/// stitching succeeds exactly when no entry's offset is covered by the entry
/// before it, and then the result is their concatenation — every entry at
/// its offset, every gap obeying the fill pattern, and the whole buffer
/// ending where the last entry ends.
pub proof fn lemma_stitch_strictly_sorted(
    es: Seq<(Vec<u8>, usize)>,
    input: Seq<(AnnotatedBytes, ByteOffset)>,
    fill: FillPattern,
    res: Result<AnnotatedBytes, ScalpelError>,
)
    requires
        stitch_post(es, input, fill, res),
        strictly_sorted_pairs(input_entries(input)),
    ensures
        es == input_entries(input),
        res is Ok <==> !concat_overlaps(input_entries(input)),
        res matches Ok(ab) ==> concat_result_ok(input_entries(input), fill, ab.bytes@),
        res matches Err(e) ==> e == ScalpelError::OverlapError,
{
    crate::stitch::lemma_sorted_arrangement_unique(es, input_entries(input));
}

impl AnnotatedBytes {
    pub fn new() -> (res: Self)
        ensures
            res.bytes@.len() == 0,
    {
        AnnotatedBytes { bytes: Vec::new() }
    }

    /// Keeps only the window `[start, start + size)` of the buffer, clamped
    /// to the bytes that exist; a start beyond the end is an error and leaves
    /// the buffer unchanged.
    pub fn stance(&mut self, start: ByteOffset, size: ByteOffset) -> (res: Result<
        (),
        ScalpelError,
    >)
        ensures
            res is Ok <==> start.abs_usize() <= old(self).bytes@.len(),
            res is Ok ==> final(self).bytes@ == old(self).bytes@.subrange(
                start.abs_usize(),
                if start.abs_usize() + size.abs_usize() <= old(self).bytes@.len() {
                    start.abs_usize() + size.abs_usize()
                } else {
                    old(self).bytes@.len() as int
                },
            ),
            res is Err ==> final(self).bytes@ == old(self).bytes@ && res == Err::<(), ScalpelError>(
                ScalpelError::RangeError,
            ),
    {
        let cur = vstd::slice::slice_to_vec(self.bytes.as_slice());
        match extract(cur, start.as_usize(), size.as_usize()) {
            Ok(v) => {
                self.bytes = v;
                Ok(())
            },
            Err(e) => Err(e),
        }
    }

    /// Stitches several buffers into one: entries are sorted ascending by
    /// offset, then each is laid down at its offset with the gap before it
    /// bridged by the fill pattern. An offset already covered by the bytes
    /// laid down before it is an overlap error.
    #[verifier::rlimit(50)]
    #[verifier::loop_isolation(false)]
    pub fn stitch(files: Vec<(AnnotatedBytes, ByteOffset)>, fill_pattern: FillPattern) -> (res:
        Result<AnnotatedBytes, ScalpelError>)
        ensures
            exists|es: Seq<(Vec<u8>, usize)>|
                #[trigger] stitch_post(es, files@, fill_pattern, res),
    {
        let ghost files0 = files@;
        let mut fs = files;
        let mut entries: Vec<(Vec<u8>, usize)> = Vec::new();
        while fs.len() > 0
            invariant
                entries@.len() + fs@.len() == files0.len(),
                fs@ == files0.skip(entries@.len() as int),
                entries@ == input_entries(files0).take(entries@.len() as int),
            decreases fs@.len(),
        {
            let ghost n = entries@.len() as int;
            let (ab, off) = fs.remove(0);
            entries.push((ab.bytes, off.as_usize()));
            proof {
                assert(fs@ =~= files0.skip(n + 1));
                assert(entries@ =~= input_entries(files0).take(n + 1));
            }
        }
        proof {
            assert(entries@ =~= input_entries(files0));
        }
        let sorted = crate::stitch::sort_pairs(entries);
        let ghost es = sorted@;
        let mut rest = sorted;
        let mut out: Vec<u8> = Vec::new();
        proof {
            assert(es.take(0) =~= Seq::<(Vec<u8>, usize)>::empty());
        }
        while rest.len() > 0
            invariant
                rest@.len() <= es.len(),
                rest@ == es.skip(es.len() - rest@.len()),
                sorted_pairs(es),
                es.to_multiset() == input_entries(files0).to_multiset(),
                !concat_overlaps(es.take(es.len() - rest@.len())),
                concat_result_ok(es.take(es.len() - rest@.len()), fill_pattern, out@),
            decreases rest@.len(),
        {
            let ghost k = es.len() - rest@.len();
            let ghost out_old = out@;
            let (buf, off) = rest.remove(0);
            proof {
                assert(rest@ =~= es.skip(k + 1));
                assert(es.skip(k)[0] == es[k]);
                assert(buf == es[k].0 && off == es[k].1);
                assert(forall|i: int| 0 <= i < k ==> es.take(k)[i] == es[i]);
                assert(forall|i: int| 0 <= i < k + 1 ==> es.take(k + 1)[i] == es[i]);
            }
            match crate::stitch::stitch(out, buf, off, &fill_pattern) {
                Ok(next) => {
                    out = next;
                    proof {
                        crate::stitch::lemma_concat_step(es, k, fill_pattern, out_old, out@);
                    }
                },
                Err(_) => {
                    proof {
                        crate::stitch::lemma_concat_fail(es, k, fill_pattern, out@);
                        assert(stitch_post(
                            es,
                            files0,
                            fill_pattern,
                            Err::<AnnotatedBytes, ScalpelError>(ScalpelError::OverlapError),
                        ));
                        assert(exists|es2: Seq<(Vec<u8>, usize)>|
                            #[trigger] stitch_post(
                                es2,
                                files0,
                                fill_pattern,
                                Err::<AnnotatedBytes, ScalpelError>(ScalpelError::OverlapError),
                            ));
                    }
                    return Err(ScalpelError::OverlapError);
                },
            }
        }
        proof {
            assert(es.take(es.len() as int) =~= es);
            assert(stitch_post(
                es,
                files0,
                fill_pattern,
                Ok(AnnotatedBytes { bytes: out }),
            ));
        }
        Ok(AnnotatedBytes { bytes: out })
    }

    /// Grafts a replacement block into the window `[start, start + size)`,
    /// padding the rest of the window with the fill pattern; the buffer
    /// outside the window is kept byte for byte. A replacement longer than
    /// the window, or a window not inside the buffer, is an error and leaves
    /// the buffer unchanged.
    pub fn graft(
        &mut self,
        replace: AnnotatedBytes,
        start: ByteOffset,
        size: ByteOffset,
        fill_pattern: FillPattern,
    ) -> (res: Result<(), ScalpelError>)
        ensures
            res is Ok <==> (replace.bytes@.len() <= size.abs_usize() && start.abs_usize()
                + size.abs_usize() <= old(self).bytes@.len()),
            replace.bytes@.len() > size.abs_usize() ==> res == Err::<(), ScalpelError>(
                ScalpelError::ReplaceError,
            ),
            replace.bytes@.len() <= size.abs_usize() && start.abs_usize() + size.abs_usize() > old(
                self,
            ).bytes@.len() ==> res == Err::<(), ScalpelError>(ScalpelError::RangeError),
            res is Err ==> final(self).bytes@ == old(self).bytes@,
            res is Ok ==> {
                &&& final(self).bytes@.len() == old(self).bytes@.len()
                &&& final(self).bytes@.subrange(0, start.abs_usize()) == old(
                    self,
                ).bytes@.subrange(0, start.abs_usize())
                &&& final(self).bytes@.subrange(
                    start.abs_usize(),
                    start.abs_usize() + replace.bytes@.len(),
                ) == replace.bytes@
                &&& fill_matches(
                    fill_pattern,
                    final(self).bytes@.subrange(
                        start.abs_usize() + replace.bytes@.len(),
                        start.abs_usize() + size.abs_usize(),
                    ),
                )
                &&& final(self).bytes@.subrange(
                    start.abs_usize() + size.abs_usize(),
                    final(self).bytes@.len() as int,
                ) == old(self).bytes@.subrange(
                    start.abs_usize() + size.abs_usize(),
                    old(self).bytes@.len() as int,
                )
            },
    {
        let cur = vstd::slice::slice_to_vec(self.bytes.as_slice());
        match splice(cur, replace.bytes, start.as_usize(), size.as_usize(), &fill_pattern) {
            Ok(v) => {
                self.bytes = v;
                Ok(())
            },
            Err(e) => Err(e),
        }
    }
}

} // verus!
