//! The arithmetic of a parallel sum: how a slice is cut into (at most
//! eight) chunks, the checked sum of each chunk, and the fact that adding
//! up the chunks' sums gives the sum of the whole slice.
use vstd::prelude::*;

verus! {

/// The sum of a sequence of numbers, as an unbounded integer.
pub open spec fn total(s: Seq<u64>) -> int
    decreases s.len(),
{
    if s.len() == 0 {
        0
    } else {
        total(s.drop_last()) + s.last() as int
    }
}

/// The chunk length used for `n` values: `n` divided by eight, rounded up,
/// and never less than one.
pub open spec fn chunk_size(n: nat) -> nat {
    if n == 0 {
        1
    } else {
        ((n + 7) / 8) as nat
    }
}

/// The half-open index ranges of the chunks of length `c` that cover
/// `start..n`, in order; the last one may be shorter.
pub open spec fn chunks_from(start: int, n: int, c: int) -> Seq<(int, int)>
    decreases n - start,
{
    if start >= n || c <= 0 {
        Seq::empty()
    } else {
        let end = if start + c <= n {
            start + c
        } else {
            n
        };
        seq![(start, end)] + chunks_from(end, n, c)
    }
}

/// The chunks that cover `0..n` for a slice of `n` values.
pub open spec fn chunk_ranges_of(n: nat) -> Seq<(int, int)> {
    chunks_from(0, n as int, chunk_size(n) as int)
}

/// The sum, over the given ranges, of the totals of those pieces of `s`.
pub open spec fn sum_of_pieces(s: Seq<u64>, ranges: Seq<(int, int)>) -> int
    decreases ranges.len(),
{
    if ranges.len() == 0 {
        0
    } else {
        total(s.subrange(ranges[0].0, ranges[0].1)) + sum_of_pieces(s, ranges.drop_first())
    }
}

/// The chunk length for a slice of `n` values: `n.div_ceil(8).max(1)`.
pub fn chunk_len(n: usize) -> (c: usize)
    ensures
        c == chunk_size(n as nat),
{
    let q = n / 8;
    let c = if n % 8 == 0 {
        q
    } else {
        q + 1
    };
    if c == 0 {
        1
    } else {
        c
    }
}

proof fn lemma_chunks_from_bounds(start: int, n: int, c: int)
    requires
        0 <= start,
        c > 0,
    ensures
        forall|i: int|
            0 <= i < chunks_from(start, n, c).len() ==> {
                let r = #[trigger] chunks_from(start, n, c)[i];
                start <= r.0 < r.1 <= n
            },
    decreases n - start,
{
    if start < n {
        let end = if start + c <= n {
            start + c
        } else {
            n
        };
        lemma_chunks_from_bounds(end, n, c);
        let tail = chunks_from(end, n, c);
        assert forall|i: int| 0 <= i < chunks_from(start, n, c).len() implies {
            let r = #[trigger] chunks_from(start, n, c)[i];
            start <= r.0 < r.1 <= n
        } by {
            if i > 0 {
                assert(chunks_from(start, n, c)[i] == tail[i - 1]);
            }
        }
    }
}

/// The ranges of the chunks of a slice of `n` values, in order: chunk `i`
/// starts at `i * chunk_len(n)` and the last one ends at `n`. No range is
/// empty, and there are none for an empty slice.
pub fn chunk_ranges(n: usize) -> (r: Vec<(usize, usize)>)
    ensures
        r@.len() == chunk_ranges_of(n as nat).len(),
        forall|i: int|
            0 <= i < r@.len() ==> (#[trigger] r@[i]).0 as int == chunk_ranges_of(n as nat)[i].0
                && r@[i].1 as int == chunk_ranges_of(n as nat)[i].1,
        forall|i: int| 0 <= i < r@.len() ==> (#[trigger] r@[i]).0 < r@[i].1 <= n,
{
    let c = chunk_len(n);
    let ghost full = chunk_ranges_of(n as nat);
    let mut r: Vec<(usize, usize)> = Vec::new();
    let mut start: usize = 0;
    proof {
        lemma_chunks_from_bounds(0, n as int, c as int);
    }
    while start < n
        invariant
            c == chunk_size(n as nat),
            c > 0,
            full == chunk_ranges_of(n as nat),
            full == r@.map_values(|p: (usize, usize)| (p.0 as int, p.1 as int)) + chunks_from(
                start as int,
                n as int,
                c as int,
            ),
            forall|i: int| 0 <= i < r@.len() ==> (#[trigger] r@[i]).0 < r@[i].1 <= n,
            start <= n,
        decreases n - start,
    {
        let end = if c <= n - start {
            start + c
        } else {
            n
        };
        let ghost before = r@;
        r.push((start, end));
        proof {
            let f = |p: (usize, usize)| (p.0 as int, p.1 as int);
            assert(r@.map_values(f) =~= before.map_values(f) + seq![(start as int, end as int)]);
            assert(chunks_from(start as int, n as int, c as int) == seq![
                (start as int, end as int),
            ] + chunks_from(end as int, n as int, c as int));
            assert(full =~= r@.map_values(f) + chunks_from(end as int, n as int, c as int));
        }
        start = end;
    }
    proof {
        let f = |p: (usize, usize)| (p.0 as int, p.1 as int);
        assert(chunks_from(start as int, n as int, c as int) =~= Seq::empty());
        assert(full =~= r@.map_values(f));
        assert forall|i: int| 0 <= i < r@.len() implies (#[trigger] r@[i]).0 as int == full[i].0
            && r@[i].1 as int == full[i].1 by {
            assert(full[i] == r@.map_values(f)[i]);
        }
    }
    r
}

/// The sum of the values, or `None` where it would not fit in a `u64`
/// (which is where a plain `iter().sum()` overflows).
pub fn checked_sum(vals: &[u64]) -> (r: Option<u64>)
    ensures
        r matches Some(v) ==> v == total(vals@),
        r is None <==> total(vals@) > u64::MAX,
{
    let mut acc: u64 = 0;
    let mut i: usize = 0;
    while i < vals.len()
        invariant
            i <= vals@.len(),
            acc == total(vals@.subrange(0, i as int)),
        decreases vals@.len() - i,
    {
        proof {
            assert(vals@.subrange(0, i + 1).drop_last() =~= vals@.subrange(0, i as int));
        }
        match acc.checked_add(vals[i]) {
            Some(v) => {
                acc = v;
                i += 1;
            },
            None => {
                proof {
                    lemma_total_prefix_monotone(vals@, i as int + 1);
                }
                return None;
            },
        }
    }
    proof {
        assert(vals@.subrange(0, i as int) =~= vals@);
    }
    Some(acc)
}

/// The total of a prefix is at most the total of the whole sequence.
proof fn lemma_total_prefix_monotone(s: Seq<u64>, k: int)
    requires
        0 <= k <= s.len(),
    ensures
        total(s.subrange(0, k)) <= total(s),
    decreases s.len() - k,
{
    if k < s.len() {
        lemma_total_prefix_monotone(s, k + 1);
        assert(s.subrange(0, k + 1).drop_last() =~= s.subrange(0, k));
    } else {
        assert(s.subrange(0, k) =~= s);
    }
}

/// The total of a concatenation is the sum of the totals.
pub proof fn lemma_total_concat(a: Seq<u64>, b: Seq<u64>)
    ensures
        total(a + b) == total(a) + total(b),
    decreases b.len(),
{
    if b.len() == 0 {
        assert(a + b =~= a);
    } else {
        lemma_total_concat(a, b.drop_last());
        assert((a + b).drop_last() =~= a + b.drop_last());
    }
}

proof fn lemma_pieces_from(s: Seq<u64>, start: int, c: int)
    requires
        0 <= start <= s.len(),
        c > 0,
    ensures
        sum_of_pieces(s, chunks_from(start, s.len() as int, c)) == total(
            s.subrange(start, s.len() as int),
        ),
    decreases s.len() - start,
{
    let n = s.len() as int;
    if start >= n {
        assert(s.subrange(start, n) =~= Seq::<u64>::empty());
    } else {
        let end = if start + c <= n {
            start + c
        } else {
            n
        };
        let ranges = chunks_from(start, n, c);
        assert(ranges[0] == (start, end));
        assert(ranges.drop_first() =~= chunks_from(end, n, c));
        lemma_pieces_from(s, end, c);
        assert(s.subrange(start, n) =~= s.subrange(start, end) + s.subrange(end, n));
        lemma_total_concat(s.subrange(start, end), s.subrange(end, n));
    }
}

/// Adding up the sums of the chunks gives the sum of the whole slice,
/// whatever the slice's length: the parallel sum equals the serial one.
pub proof fn lemma_chunked_sum(s: Seq<u64>)
    ensures
        sum_of_pieces(s, chunk_ranges_of(s.len())) == total(s),
{
    lemma_pieces_from(s, 0, chunk_size(s.len()) as int);
    assert(s.subrange(0, s.len() as int) =~= s);
}

proof fn lemma_chunk_count(start: int, n: int, c: int)
    requires
        0 <= start <= n,
        c > 0,
    ensures
        chunks_from(start, n, c).len() == 0 <==> start == n,
        chunks_from(start, n, c).len() > 0 ==> (chunks_from(start, n, c).len() - 1) * c < n
            - start,
    decreases n - start,
{
    if start < n {
        let end = if start + c <= n {
            start + c
        } else {
            n
        };
        lemma_chunk_count(end, n, c);
        let l = chunks_from(end, n, c).len() as int;
        assert(chunks_from(start, n, c).len() == l + 1);
        if l > 0 {
            assert(end == start + c);
            assert((l - 1) * c + c == l * c) by (nonlinear_arith);
        } else {
            assert(l * c == 0) by (nonlinear_arith)
                requires
                    l == 0,
            ;
        }
    }
}

/// A slice is cut into at most eight chunks, whatever its length, and into
/// none only when it is empty; the chunks together are never too short for
/// it: eight chunks of the chunk length hold every value.
pub proof fn lemma_at_most_eight_chunks(n: nat)
    ensures
        chunk_ranges_of(n).len() <= 8,
        chunk_ranges_of(n).len() == 0 <==> n == 0,
        8 * chunk_size(n) >= n,
{
    let c = chunk_size(n) as int;
    lemma_chunk_count(0, n as int, c);
    let l = chunk_ranges_of(n).len() as int;
    assert(8 * c >= n);
    if l > 0 {
        assert((l - 1) * c < n);
        assert(l <= 8) by (nonlinear_arith)
            requires
                (l - 1) * c < n,
                8 * c >= n,
                c > 0,
        ;
    }
}

} // verus!
