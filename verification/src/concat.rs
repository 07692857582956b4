//! Naming the output of the signing collaborator: a copy of a file with a
//! signature appended gets `-signed` spliced into its name.

use vstd::prelude::*;
use vstd::string::{StringExecFns, StrSliceExecFns};

verus! {

/// The marker spliced into the file name.
pub open spec fn signed_marker() -> Seq<char> {
    seq!['-', 's', 'i', 'g', 'n', 'e', 'd']
}

/// The index of the last `.` in the name, or `-1` when there is none.
pub open spec fn last_dot_char(cs: Seq<char>) -> int
    decreases cs.len(),
{
    if cs.len() == 0 {
        -1
    } else if cs.last() == '.' {
        cs.len() - 1
    } else {
        last_dot_char(cs.drop_last())
    }
}

/// The derived name: `-signed` goes before the last `.`, or at the end of a
/// name without one.
pub open spec fn spec_output_filename(cs: Seq<char>) -> Seq<char> {
    let d = last_dot_char(cs);
    if d >= 0 {
        cs.take(d) + signed_marker() + seq!['.'] + cs.skip(d + 1)
    } else {
        cs + signed_marker()
    }
}

proof fn lemma_last_dot_char_is(cs: Seq<char>, d: int)
    requires
        -1 <= d < cs.len(),
        d == -1 || cs[d] == '.',
        forall|j: int| d < j < cs.len() ==> (#[trigger] cs[j]) != '.',
    ensures
        last_dot_char(cs) == d,
    decreases cs.len(),
{
    if cs.len() == 0 {
    } else if cs.last() == '.' {
        assert(d == cs.len() - 1);
    } else {
        assert(d < cs.len() - 1);
        lemma_last_dot_char_is(cs.drop_last(), d);
    }
}

/// Derives the name for a signed copy of a file: `name.ext` becomes
/// `name-signed.ext`, and a name without a `.` gets `-signed` appended.
pub fn derive_output_filename(path: &str) -> (res: String)
    ensures
        res@ == spec_output_filename(path@),
{
    proof {
        reveal_strlit("-signed.");
        reveal_strlit("-signed");
    }
    let n = path.unicode_len();
    let mut d: usize = 0;
    let mut seen_dot: bool = false;
    let mut i: usize = 0;
    while i < n
        invariant
            n == path@.len(),
            0 <= i <= n,
            seen_dot ==> d < i && path@[d as int] == '.',
            forall|j: int|
                (if seen_dot {
                    d < j < i
                } else {
                    0 <= j < i
                }) ==> (#[trigger] path@[j]) != '.',
        decreases n - i,
    {
        if path.get_char(i) == '.' {
            d = i;
            seen_dot = true;
        }
        i = i + 1;
    }
    let mut out = String::new();
    if seen_dot {
        proof {
            lemma_last_dot_char_is(path@, d as int);
        }
        let before = path.substring_char(0, d);
        let after = path.substring_char(d + 1, n);
        out.append(before);
        out.append("-signed.");
        out.append(after);
        proof {
            assert(out@ =~= spec_output_filename(path@));
        }
    } else {
        proof {
            lemma_last_dot_char_is(path@, -1);
        }
        out.append(path);
        out.append("-signed");
        proof {
            assert(out@ =~= spec_output_filename(path@));
        }
    }
    out
}

} // verus!
