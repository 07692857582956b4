//! Stitching buffers together at offsets, and the file-format tag that the
//! stitching pipeline resolves from a file name.

use vstd::prelude::*;
use vstd::multiset::Multiset;
use vstd::string::StringSliceAdditionalSpecFns;

use crate::errors::ScalpelError;
use crate::ops::{extension_of, file_extension, fill_matches, fill_vec, has_extension, FillPattern};

verus! {

/// The format a file name's extension announces: raw binary, Intel HEX text,
/// ELF, or no extension at all.
#[derive(Debug, Clone, Copy, PartialEq, Eq, Structural)]
pub enum FileFormat {
    Bin,
    Hex,
    Elf,
    NoEnd,
}

impl Default for FileFormat {
    fn default() -> (res: Self)
        ensures
            res == FileFormat::Bin,
    {
        FileFormat::Bin
    }
}

/// The format a file name denotes: no extension is `NoEnd`; `hex`, `bin` and
/// `elf` name their formats; any other extension is unknown.
pub open spec fn spec_file_format(b: Seq<u8>) -> Result<FileFormat, ScalpelError> {
    if !has_extension(b) {
        Ok(FileFormat::NoEnd)
    } else if extension_of(b) == seq![0x68u8, 0x65u8, 0x78u8] {
        Ok(FileFormat::Hex)
    } else if extension_of(b) == seq![0x62u8, 0x69u8, 0x6Eu8] {
        Ok(FileFormat::Bin)
    } else if extension_of(b) == seq![0x65u8, 0x6Cu8, 0x66u8] {
        Ok(FileFormat::Elf)
    } else {
        Err(ScalpelError::UnknownFileFormat)
    }
}

/// Resolves the file format from a file name's extension.
pub fn check_file_format(name: &str) -> (res: Result<FileFormat, ScalpelError>)
    ensures
        res == spec_file_format(name.spec_bytes()),
{
    match file_extension(name.as_bytes()) {
        Some(e) => {
            if e.len() == 3 && e[0] == 0x68 && e[1] == 0x65 && e[2] == 0x78 {
                proof {
                    assert(extension_of(name.spec_bytes()) =~= seq![0x68u8, 0x65u8, 0x78u8]);
                }
                Ok(FileFormat::Hex)
            } else if e.len() == 3 && e[0] == 0x62 && e[1] == 0x69 && e[2] == 0x6E {
                proof {
                    assert(extension_of(name.spec_bytes()) =~= seq![0x62u8, 0x69u8, 0x6Eu8]);
                }
                Ok(FileFormat::Bin)
            } else if e.len() == 3 && e[0] == 0x65 && e[1] == 0x6C && e[2] == 0x66 {
                proof {
                    assert(extension_of(name.spec_bytes()) =~= seq![0x65u8, 0x6Cu8, 0x66u8]);
                }
                Ok(FileFormat::Elf)
            } else {
                proof {
                    let ext = extension_of(name.spec_bytes());
                    assert(ext != seq![0x68u8, 0x65u8, 0x78u8] && ext != seq![
                        0x62u8,
                        0x69u8,
                        0x6Eu8,
                    ] && ext != seq![0x65u8, 0x6Cu8, 0x66u8]) by {
                        if ext == seq![0x68u8, 0x65u8, 0x78u8] || ext == seq![
                            0x62u8,
                            0x69u8,
                            0x6Eu8,
                        ] || ext == seq![0x65u8, 0x6Cu8, 0x66u8] {
                            assert(e@.len() == 3);
                        }
                    }
                }
                Err(ScalpelError::UnknownFileFormat)
            }
        },
        None => Ok(FileFormat::NoEnd),
    }
}

/// One stitching step: pads `bytes` with the fill pattern up to `offset`,
/// then appends `new` there.
///
/// An offset already covered by `bytes` is an overlap error.
pub fn stitch(bytes: Vec<u8>, new: Vec<u8>, offset: usize, fill_pattern: &FillPattern) -> (res:
    Result<Vec<u8>, ScalpelError>)
    ensures
        res is Ok <==> bytes@.len() <= offset,
        bytes@.len() > offset ==> res == Err::<Vec<u8>, ScalpelError>(ScalpelError::OverlapError),
        res matches Ok(out) ==> {
            &&& out@.len() == offset + new@.len()
            &&& out@.subrange(0, bytes@.len() as int) == bytes@
            &&& fill_matches(*fill_pattern, out@.subrange(bytes@.len() as int, offset as int))
            &&& out@.subrange(offset as int, out@.len() as int) == new@
        },
{
    if bytes.len() > offset {
        return Err(ScalpelError::OverlapError);
    }
    let mut out = bytes;
    let ghost prefix = out@;
    let pad = fill_vec(fill_pattern, offset - out.len());
    out.extend_from_slice(pad.as_slice());
    proof {
        assert(out@ =~= prefix + pad@);
    }
    out.extend_from_slice(new.as_slice());
    proof {
        assert(out@ =~= prefix + pad@ + new@);
        assert(out@.subrange(0, prefix.len() as int) =~= prefix);
        assert(out@.subrange(prefix.len() as int, offset as int) =~= pad@);
        assert(out@.subrange(offset as int, out@.len() as int) =~= new@);
    }
    Ok(out)
}

// ---------------------------------------------------------------------------
// Sorting entries by offset.
// ---------------------------------------------------------------------------

/// Offsets in ascending order.
pub open spec fn sorted_offsets(o: Seq<usize>) -> bool {
    forall|i: int, j: int| 0 <= i < j < o.len() ==> #[trigger] o[i] <= #[trigger] o[j]
}

/// Pairs in ascending order of their offset.
pub open spec fn sorted_pairs<T>(s: Seq<(T, usize)>) -> bool {
    forall|i: int, j: int| 0 <= i < j < s.len() ==> (#[trigger] s[i]).1 <= (#[trigger] s[j]).1
}

/// Pairs in strictly ascending order of their offset.
pub open spec fn strictly_sorted_pairs<T>(s: Seq<(T, usize)>) -> bool {
    forall|i: int, j: int| 0 <= i < j < s.len() ==> (#[trigger] s[i]).1 < (#[trigger] s[j]).1
}

/// The two parallel sequences read as one sequence of pairs.
pub open spec fn zip_pairs<T>(v: Seq<T>, o: Seq<usize>) -> Seq<(T, usize)> {
    Seq::new(v.len(), |i: int| (v[i], o[i]))
}

/// A multiset of pairs with pairwise distinct offsets has exactly one
/// ascending arrangement; so a sorted arrangement of strictly ascending
/// entries is those entries themselves.
pub proof fn lemma_sorted_arrangement_unique<T>(a: Seq<(T, usize)>, b: Seq<(T, usize)>)
    requires
        sorted_pairs(a),
        strictly_sorted_pairs(b),
        a.to_multiset() == b.to_multiset(),
    ensures
        a == b,
    decreases a.len(),
{
    vstd::seq_lib::to_multiset_len(a);
    vstd::seq_lib::to_multiset_len(b);
    assert(a.len() == b.len());
    if a.len() == 0 {
        assert(a =~= b);
    } else {
        assert(a.contains(a[0]));
        vstd::seq_lib::to_multiset_contains(a, a[0]);
        vstd::seq_lib::to_multiset_contains(b, a[0]);
        assert(b.contains(a[0]));
        let j = choose|j: int| 0 <= j < b.len() && b[j] == a[0];
        assert(b.contains(b[0]));
        vstd::seq_lib::to_multiset_contains(b, b[0]);
        vstd::seq_lib::to_multiset_contains(a, b[0]);
        assert(a.contains(b[0]));
        let k = choose|k: int| 0 <= k < a.len() && a[k] == b[0];
        if j > 0 {
            assert(b[0].1 < b[j].1);
            assert(a[0].1 <= a[k].1);
            assert(false);
        }
        assert(b[0] == a[0]);
        let a1 = a.drop_first();
        let b1 = b.drop_first();
        assert(a1 =~= a.remove(0));
        assert(b1 =~= b.remove(0));
        vstd::seq_lib::to_multiset_remove(a, 0);
        vstd::seq_lib::to_multiset_remove(b, 0);
        assert(a1.to_multiset() == b1.to_multiset());
        assert(forall|i: int| 0 <= i < a1.len() ==> #[trigger] a1[i] == a[i + 1]);
        assert(forall|i: int| 0 <= i < b1.len() ==> #[trigger] b1[i] == b[i + 1]);
        lemma_sorted_arrangement_unique(a1, b1);
        assert forall|i: int| 0 <= i < a.len() implies a[i] == b[i] by {
            if i > 0 {
                assert(a[i] == a1[i - 1]);
                assert(b[i] == b1[i - 1]);
            }
        }
        assert(a =~= b);
    }
}

/// Sorts pairs ascending by offset; the result holds exactly the input
/// pairs, as a multiset.
pub(crate) fn sort_pairs<T>(pairs: Vec<(T, usize)>) -> (res: Vec<(T, usize)>)
    ensures
        sorted_pairs(res@),
        res@.to_multiset() == pairs@.to_multiset(),
        res@.len() == pairs@.len(),
{
    broadcast use vstd::seq_lib::group_to_multiset_ensures;

    let mut rem = pairs;
    let mut out: Vec<(T, usize)> = Vec::new();
    let ghost orig = rem@;
    proof {
        assert(out@.to_multiset().add(rem@.to_multiset()) =~= orig.to_multiset());
    }
    while rem.len() > 0
        invariant
            out@.len() + rem@.len() == orig.len(),
            sorted_pairs(out@),
            out@.to_multiset().add(rem@.to_multiset()) == orig.to_multiset(),
            forall|i: int, j: int|
                0 <= i < out@.len() && 0 <= j < rem@.len() ==> (#[trigger] out@[i]).1
                    <= (#[trigger] rem@[j]).1,
        decreases rem@.len(),
    {
        let mut k: usize = 0;
        let mut t: usize = 1;
        while t < rem.len()
            invariant
                0 <= k < t <= rem@.len(),
                forall|j: int| 0 <= j < t ==> rem@[k as int].1 <= (#[trigger] rem@[j]).1,
            decreases rem@.len() - t,
        {
            if rem[t].1 < rem[k].1 {
                k = t;
            }
            t = t + 1;
        }
        let ghost rem_before = rem@;
        let e = rem.remove(k);
        let ghost out_before = out@;
        out.push(e);
        proof {
            broadcast use vstd::multiset::group_multiset_axioms;

            assert(e == rem_before[k as int]);
            assert(rem@ == rem_before.remove(k as int));
            vstd::seq_lib::to_multiset_remove::<(T, usize)>(rem_before, k as int);
            assert(out@ == out_before.push(e));
            vstd::seq_lib::to_multiset_build::<(T, usize)>(out_before, e);
            assert(rem_before.contains(e));
            vstd::seq_lib::to_multiset_contains::<(T, usize)>(rem_before, e);
            assert(rem_before.to_multiset().count(e) > 0);
            assert(out@.to_multiset().add(rem@.to_multiset()) =~= orig.to_multiset());
            assert(forall|j: int|
                0 <= j < rem@.len() ==> rem@[j] == (if j < k {
                    rem_before[j]
                } else {
                    rem_before[j + 1]
                }));
            assert(forall|j: int| 0 <= j < rem@.len() ==> e.1 <= (#[trigger] rem@[j]).1);
            assert(forall|i: int| 0 <= i < out_before.len() ==> out@[i] == out_before[i]);
        }
    }
    proof {
        assert(rem@.to_multiset() =~= Multiset::<(T, usize)>::empty());
        assert(out@.to_multiset() =~= orig.to_multiset());
    }
    out
}

// ---------------------------------------------------------------------------
// What a finished concatenation looks like.
// ---------------------------------------------------------------------------

/// Where an entry's bytes end in the result: its offset plus its length.
pub open spec fn entry_end(es: Seq<(Vec<u8>, usize)>, j: int) -> int {
    es[j].1 + es[j].0@.len()
}

/// Where the gap before entry `j` starts: the end of the previous entry, or
/// the start of the buffer.
pub open spec fn prev_end(es: Seq<(Vec<u8>, usize)>, j: int) -> int {
    if j == 0 {
        0int
    } else {
        entry_end(es, j - 1)
    }
}

/// Whether some entry's offset is already covered by the entries before it.
pub open spec fn concat_overlaps(es: Seq<(Vec<u8>, usize)>) -> bool {
    exists|j: int| 1 <= j < es.len() && entry_end(es, j - 1) > (#[trigger] es[j]).1
}

/// The length of the concatenation: where the last entry ends.
pub open spec fn concat_len(es: Seq<(Vec<u8>, usize)>) -> int {
    if es.len() == 0 {
        0int
    } else {
        entry_end(es, es.len() - 1)
    }
}

/// The result of concatenating sorted, non-overlapping entries: every
/// entry's bytes sit at its offset, every gap obeys the fill pattern, and
/// the buffer ends where the last entry ends.
pub open spec fn concat_result_ok(
    es: Seq<(Vec<u8>, usize)>,
    fill: FillPattern,
    out: Seq<u8>,
) -> bool {
    &&& out.len() == concat_len(es)
    &&& forall|j: int|
        0 <= j < es.len() ==> out.subrange((#[trigger] es[j]).1 as int, entry_end(es, j))
            == es[j].0@
    &&& forall|j: int|
        0 <= j < es.len() ==> fill_matches(
            fill,
            out.subrange(prev_end(es, j), (#[trigger] es[j]).1 as int),
        )
}

/// In sorted, non-overlapping entries, every entry ends at or before the end
/// of the concatenation.
pub proof fn lemma_entry_end_bounded(es: Seq<(Vec<u8>, usize)>, j: int, k: int)
    requires
        0 <= j < k <= es.len(),
        !concat_overlaps(es.take(k)),
    ensures
        entry_end(es, j) <= concat_len(es.take(k)),
    decreases k - j,
{
    assert(forall|i: int| 0 <= i < k ==> es.take(k)[i] == es[i]);
    if j == k - 1 {
        assert(concat_len(es.take(k)) == entry_end(es, k - 1));
    } else {
        assert(!(entry_end(es.take(k), (j + 1) - 1) > es.take(k)[j + 1].1));
        assert(entry_end(es, j) <= es[j + 1].1);
        lemma_entry_end_bounded(es, j + 1, k);
    }
}

/// A window that lies inside the preserved prefix reads the same in the
/// extended buffer.
proof fn lemma_prefix_preserved(out_old: Seq<u8>, out_new: Seq<u8>, a: int, b: int)
    requires
        out_new.len() >= out_old.len(),
        out_new.subrange(0, out_old.len() as int) == out_old,
        0 <= a <= b <= out_old.len(),
    ensures
        out_new.subrange(a, b) == out_old.subrange(a, b),
{
    assert forall|i: int|
        0 <= i < b - a implies out_new.subrange(a, b)[i] == out_old.subrange(a, b)[i] by {
        assert(out_new.subrange(0, out_old.len() as int)[a + i] == out_old[a + i]);
    }
    assert(out_new.subrange(a, b) =~= out_old.subrange(a, b));
}

/// A correctly laid prefix extended by one step — padding to the next
/// entry's offset, then that entry's bytes — is a correctly laid longer
/// prefix.
#[verifier::rlimit(100)]
pub proof fn lemma_concat_step(
    es: Seq<(Vec<u8>, usize)>,
    k: int,
    fill: FillPattern,
    out_old: Seq<u8>,
    out_new: Seq<u8>,
)
    requires
        0 <= k < es.len(),
        !concat_overlaps(es.take(k)),
        concat_result_ok(es.take(k), fill, out_old),
        out_old.len() <= es[k].1,
        out_new.len() == es[k].1 + es[k].0@.len(),
        out_new.subrange(0, out_old.len() as int) == out_old,
        fill_matches(fill, out_new.subrange(out_old.len() as int, es[k].1 as int)),
        out_new.subrange(es[k].1 as int, out_new.len() as int) == es[k].0@,
    ensures
        !concat_overlaps(es.take(k + 1)),
        concat_result_ok(es.take(k + 1), fill, out_new),
{
    let esk = es.take(k);
    let esk1 = es.take(k + 1);
    assert(forall|i: int| 0 <= i < k ==> esk[i] == es[i]);
    assert(forall|i: int| 0 <= i < k + 1 ==> esk1[i] == es[i]);
    assert(out_old.len() == concat_len(esk));
    assert(concat_len(esk) == prev_end(esk1, k));
    assert(!concat_overlaps(esk1)) by {
        if concat_overlaps(esk1) {
            let j = choose|j: int|
                1 <= j < esk1.len() && entry_end(esk1, j - 1) > (#[trigger] esk1[j]).1;
            if j < k {
                assert(entry_end(esk, j - 1) > esk[j].1);
                assert(concat_overlaps(esk));
            } else {
                assert(j == k);
                assert(entry_end(esk1, k - 1) == concat_len(esk));
            }
        }
    }
    assert(out_new.len() == concat_len(esk1));
    assert forall|j: int|
        0 <= j < esk1.len() implies out_new.subrange(
        (#[trigger] esk1[j]).1 as int,
        entry_end(esk1, j),
    ) == esk1[j].0@ by {
        if j < k {
            lemma_entry_end_bounded(es, j, k);
            assert(entry_end(esk1, j) == entry_end(esk, j));
            lemma_prefix_preserved(out_old, out_new, esk1[j].1 as int, entry_end(esk1, j));
            assert(out_old.subrange(esk[j].1 as int, entry_end(esk, j)) == esk[j].0@);
        } else {
            assert(j == k);
            assert(entry_end(esk1, k) == out_new.len());
            assert(out_new.subrange(es[k].1 as int, out_new.len() as int) == es[k].0@);
        }
    }
    assert forall|j: int|
        0 <= j < esk1.len() implies fill_matches(
        fill,
        out_new.subrange(prev_end(esk1, j), (#[trigger] esk1[j]).1 as int),
    ) by {
        if j < k {
            assert(prev_end(esk1, j) == prev_end(esk, j));
            lemma_entry_end_bounded(es, j, k);
            if j > 0 {
                assert(!(entry_end(esk, j - 1) > esk[j].1));
            }
            assert(0 <= prev_end(esk, j) <= esk[j].1);
            lemma_prefix_preserved(out_old, out_new, prev_end(esk, j), esk[j].1 as int);
            assert(fill_matches(fill, out_old.subrange(prev_end(esk, j), esk[j].1 as int)));
        } else {
            assert(j == k);
            assert(prev_end(esk1, k) == out_old.len());
            assert(fill_matches(
                fill,
                out_new.subrange(out_old.len() as int, es[k].1 as int),
            ));
        }
    }
    assert(concat_result_ok(esk1, fill, out_new));
}

/// When the bytes already laid down run past the next entry's offset, the
/// whole arrangement overlaps.
pub proof fn lemma_concat_fail(
    es: Seq<(Vec<u8>, usize)>,
    k: int,
    fill: FillPattern,
    out: Seq<u8>,
)
    requires
        0 <= k < es.len(),
        concat_result_ok(es.take(k), fill, out),
        out.len() > es[k].1,
    ensures
        concat_overlaps(es),
{
    let esk = es.take(k);
    assert(forall|i: int| 0 <= i < k ==> esk[i] == es[i]);
    assert(out.len() == concat_len(esk));
    assert(k >= 1) by {
        if k == 0 {
            assert(concat_len(esk) == 0);
        }
    }
    assert(entry_end(es, k - 1) == concat_len(esk));
    assert(1 <= k < es.len() && entry_end(es, k - 1) > es[k].1);
    assert(concat_overlaps(es));
}

/// Sorts a vector of values and its parallel vector of offsets so that the
/// offsets ascend, keeping each value beside its offset.
///
/// Vectors of unequal length are an argument error.
pub fn sort_vec_by_offset<T>(vec: Vec<T>, offset: Vec<usize>) -> (res: Result<
    (Vec<T>, Vec<usize>),
    ScalpelError,
>)
    ensures
        res is Ok <==> vec@.len() == offset@.len(),
        res is Err ==> res == Err::<(Vec<T>, Vec<usize>), ScalpelError>(
            ScalpelError::ArgumentError,
        ),
        res matches Ok(p) ==> {
            &&& p.0@.len() == vec@.len()
            &&& p.1@.len() == vec@.len()
            &&& sorted_offsets(p.1@)
            &&& zip_pairs(p.0@, p.1@).to_multiset() == zip_pairs(vec@, offset@).to_multiset()
        },
{
    if vec.len() != offset.len() {
        return Err(ScalpelError::ArgumentError);
    }
    let ghost vec0 = vec@;
    let ghost off0 = offset@;
    let mut v = vec;
    let mut o = offset;
    let mut pairs: Vec<(T, usize)> = Vec::new();
    while v.len() > 0
        invariant
            v@.len() == o@.len(),
            pairs@.len() + v@.len() == vec0.len(),
            off0.len() == vec0.len(),
            v@ == vec0.skip(pairs@.len() as int),
            o@ == off0.skip(pairs@.len() as int),
            pairs@ == zip_pairs(vec0, off0).take(pairs@.len() as int),
        decreases v@.len(),
    {
        let ghost n = pairs@.len() as int;
        let t = v.remove(0);
        let f = o.remove(0);
        pairs.push((t, f));
        proof {
            assert(v@ =~= vec0.skip(n + 1));
            assert(o@ =~= off0.skip(n + 1));
            assert(pairs@ =~= zip_pairs(vec0, off0).take(n + 1));
        }
    }
    proof {
        assert(pairs@ =~= zip_pairs(vec0, off0));
    }
    let sorted = sort_pairs(pairs);
    let ghost sorted_view = sorted@;
    let mut s = sorted;
    let mut rv: Vec<T> = Vec::new();
    let mut ro: Vec<usize> = Vec::new();
    while s.len() > 0
        invariant
            rv@.len() == ro@.len(),
            rv@.len() + s@.len() == sorted_view.len(),
            s@ == sorted_view.skip(rv@.len() as int),
            zip_pairs(rv@, ro@) == sorted_view.take(rv@.len() as int),
        decreases s@.len(),
    {
        let ghost n = rv@.len() as int;
        let (t, f) = s.remove(0);
        rv.push(t);
        ro.push(f);
        proof {
            assert(s@ =~= sorted_view.skip(n + 1));
            assert(zip_pairs(rv@, ro@) =~= sorted_view.take(n + 1));
        }
    }
    proof {
        assert(zip_pairs(rv@, ro@) =~= sorted_view);
        assert(sorted_pairs(sorted_view));
        assert(forall|i: int, j: int|
            0 <= i < j < ro@.len() ==> #[trigger] ro@[i] <= #[trigger] ro@[j]) by {
            assert(forall|i: int|
                0 <= i < ro@.len() ==> (#[trigger] ro@[i]) == zip_pairs(rv@, ro@)[i].1);
        }
    }
    Ok((rv, ro))
}

} // verus!
