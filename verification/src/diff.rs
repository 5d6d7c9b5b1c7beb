//! Line-by-line comparison of two texts, position by position.
use vstd::prelude::*;
use vstd::utf8::*;
use vstd::string::*;
use crate::text::{lines, split_lines, str_eq};

verus! {

broadcast use group_utf8_lib;

/// What happened at one line position.
#[derive(Debug, Clone, Copy, PartialEq, Eq, Structural)]
pub enum Line {
    /// Both texts hold the same line here.
    Same(usize),
    /// Only the first text has a line here.
    Removed(usize),
    /// Only the second text has a line here.
    Added(usize),
    /// Both have a line here and they differ.
    Changed(usize),
}

/// Whether two texts differ at all.
#[derive(Debug, Clone, Copy, PartialEq, Eq, Structural)]
pub enum Outcome {
    Same,
    Changed,
}

/// The verdict for position `i`, given the lines of both texts.
pub open spec fn line_at(a: Seq<Seq<u8>>, b: Seq<Seq<u8>>, i: int) -> Line {
    if i >= a.len() {
        Line::Added(i as usize)
    } else if i >= b.len() {
        Line::Removed(i as usize)
    } else if a[i] == b[i] {
        Line::Same(i as usize)
    } else {
        Line::Changed(i as usize)
    }
}

/// The number of positions compared: the longer text's line count.
pub open spec fn positions(a: Seq<Seq<u8>>, b: Seq<Seq<u8>>) -> nat {
    if a.len() >= b.len() {
        a.len()
    } else {
        b.len()
    }
}

/// The position a verdict is about.
pub open spec fn position_of(l: Line) -> usize {
    match l {
        Line::Same(i) => i,
        Line::Removed(i) => i,
        Line::Added(i) => i,
        Line::Changed(i) => i,
    }
}

/// What each verdict means: `Same` when both texts have the line at that
/// position and the two are equal, `Changed` when both have one and they
/// differ, `Removed` when only the first has one, `Added` when only the
/// second has one; and each verdict names its own position.
pub proof fn lemma_verdicts(a: Seq<Seq<u8>>, b: Seq<Seq<u8>>, i: int)
    requires
        0 <= i < positions(a, b),
        i <= usize::MAX,
    ensures
        (line_at(a, b, i) is Same) <==> (i < a.len() && i < b.len() && a[i] == b[i]),
        (line_at(a, b, i) is Changed) <==> (i < a.len() && i < b.len() && a[i] != b[i]),
        (line_at(a, b, i) is Removed) <==> (i < a.len() && i >= b.len()),
        (line_at(a, b, i) is Added) <==> (i >= a.len() && i < b.len()),
        position_of(line_at(a, b, i)) as int == i,
{
}

/// Compares two texts line by line, position by position: one verdict per
/// position up to the longer text's line count, and `Outcome::Same` exactly
/// when the texts have the same lines.
pub fn compare_files(file_1: &str, file_2: &str) -> (r: (Vec<Line>, Outcome))
    ensures
        r.0@.len() == positions(split_lines(file_1.spec_bytes()), split_lines(file_2.spec_bytes())),
        forall|i: int|
            0 <= i < r.0@.len() ==> #[trigger] r.0@[i] == line_at(
                split_lines(file_1.spec_bytes()),
                split_lines(file_2.spec_bytes()),
                i,
            ),
        (r.1 == Outcome::Same) <==> (split_lines(file_1.spec_bytes()) == split_lines(
            file_2.spec_bytes(),
        )),
        forall|i: int|
            0 <= i < r.0@.len() ==> ((#[trigger] r.0@[i] is Same) <==> (i < split_lines(
                file_1.spec_bytes(),
            ).len() && i < split_lines(file_2.spec_bytes()).len() && split_lines(
                file_1.spec_bytes(),
            )[i] == split_lines(file_2.spec_bytes())[i])),
        forall|i: int| 0 <= i < r.0@.len() ==> position_of(#[trigger] r.0@[i]) as int == i,
{
    let ghost a = split_lines(file_1.spec_bytes());
    let ghost b = split_lines(file_2.spec_bytes());
    let v1 = lines(file_1);
    let v2 = lines(file_2);
    let n = if v1.len() >= v2.len() {
        v1.len()
    } else {
        v2.len()
    };
    let mut diffs: Vec<Line> = Vec::with_capacity(n);
    let mut outcome = Outcome::Same;
    let mut i: usize = 0;
    while i < n
        invariant
            i <= n,
            n == positions(a, b),
            v1@.len() == a.len(),
            v2@.len() == b.len(),
            forall|k: int| 0 <= k < v1@.len() ==> #[trigger] v1@[k].spec_bytes() == a[k],
            forall|k: int| 0 <= k < v2@.len() ==> #[trigger] v2@[k].spec_bytes() == b[k],
            diffs@.len() == i,
            forall|k: int| 0 <= k < i ==> #[trigger] diffs@[k] == line_at(a, b, k),
            (outcome == Outcome::Same) <==> (forall|k: int|
                0 <= k < i ==> #[trigger] line_at(a, b, k) is Same),
        decreases n - i,
    {
        let ghost old_diffs = diffs@;
        if i >= v1.len() {
            diffs.push(Line::Added(i));
            outcome = Outcome::Changed;
        } else if i >= v2.len() {
            diffs.push(Line::Removed(i));
            outcome = Outcome::Changed;
        } else {
            let x = v1[i];
            let y = v2[i];
            proof {
                encode_utf8_decode_utf8(x@);
                encode_utf8_decode_utf8(y@);
                assert(x.spec_bytes() == a[i as int]);
                assert(y.spec_bytes() == b[i as int]);
                assert((x@ == y@) <==> (a[i as int] == b[i as int]));
            }
            if str_eq(x, y) {
                diffs.push(Line::Same(i));
            } else {
                diffs.push(Line::Changed(i));
                outcome = Outcome::Changed;
            }
        }
        assert(diffs@[i as int] == line_at(a, b, i as int));
        proof {
            assert(forall|k: int| 0 <= k < i ==> diffs@[k] == old_diffs[k]);
        }
        i += 1;
    }
    proof {
        if outcome == Outcome::Same {
            assert(a.len() == b.len()) by {
                if a.len() < b.len() {
                    assert(line_at(a, b, a.len() as int) is Added);
                } else if b.len() < a.len() {
                    assert(line_at(a, b, b.len() as int) is Removed);
                }
            }
            assert forall|k: int| 0 <= k < a.len() implies a[k] == b[k] by {
                assert(line_at(a, b, k) is Same);
            }
            assert(a =~= b);
        } else {
            let k = choose|k: int| 0 <= k < n && !(#[trigger] line_at(a, b, k) is Same);
            if a == b {
                assert(line_at(a, b, k) is Same);
            }
        }
    }
    proof {
        assert forall|i: int| 0 <= i < diffs@.len() implies ((#[trigger] diffs@[i] is Same) <==> (
        i < a.len() && i < b.len() && a[i] == b[i])) && position_of(diffs@[i]) as int == i by {
            lemma_verdicts(a, b, i);
        }
    }
    (diffs, outcome)
}

} // verus!
