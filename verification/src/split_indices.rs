use vstd::prelude::*;
use vstd::arithmetic::div_mod::{
    lemma_basic_div, lemma_div_by_self, lemma_div_is_ordered, lemma_fundamental_div_mod,
    lemma_fundamental_div_mod_converse, lemma_mod_bound,
};
use vstd::arithmetic::mul::lemma_mul_basics;

verus! {

/// The number of entry indices each range is given: `num_entries` divided by
/// `num_ranges`, rounded up.
pub open spec fn chunk_size(num_entries: int, num_ranges: int) -> int
    recommends
        num_ranges >= 1,
{
    (num_entries + num_ranges - 1) / num_ranges
}

/// The start of range `i`: `i` whole chunks in.
pub open spec fn range_start(num_entries: int, num_ranges: int, i: int) -> int {
    i * chunk_size(num_entries, num_ranges)
}

/// The end of range `i`: one chunk past its start, capped at `num_entries`.
pub open spec fn range_end(num_entries: int, num_ranges: int, i: int) -> int {
    if range_start(num_entries, num_ranges, i) + chunk_size(num_entries, num_ranges)
        > num_entries {
        num_entries
    } else {
        range_start(num_entries, num_ranges, i) + chunk_size(num_entries, num_ranges)
    }
}

/// `ranges` is exactly what the partitioner emits for `num_entries` entries
/// over `num_ranges` workers: range `j` runs from `j` chunks to one more
/// chunk or to `num_entries`, every emitted range starts below
/// `num_entries`, and the ranges reach `num_entries` exactly.
pub open spec fn is_partition(
    num_entries: int,
    num_ranges: int,
    ranges: Seq<(usize, usize)>,
) -> bool {
    &&& (num_entries == 0 ==> ranges.len() == 0)
    &&& (num_entries > 0 ==> ranges.len() >= 1 && ranges.last().1 as int == num_entries)
    &&& forall|j: int|
        #![trigger ranges[j]]
        0 <= j < ranges.len() ==> {
            &&& ranges[j].0 as int == range_start(num_entries, num_ranges, j)
            &&& ranges[j].1 as int == range_end(num_entries, num_ranges, j)
            &&& range_start(num_entries, num_ranges, j) < num_entries
        }
}

/// The range an entry index falls in: how many whole chunks precede it.
pub open spec fn range_index_of(num_entries: int, num_ranges: int, idx: int) -> int {
    idx / chunk_size(num_entries, num_ranges)
}

/// Partitioning covers the space: the ranges of a partition lie inside
/// `[0, num_entries)`, are each nonempty, never overlap, and together they
/// reach every index of `[0, num_entries)`; there are never more ranges
/// than workers.
pub proof fn lemma_partition_covers(
    num_entries: int,
    num_ranges: int,
    ranges: Seq<(usize, usize)>,
)
    requires
        num_ranges >= 1,
        num_entries >= 0,
        is_partition(num_entries, num_ranges, ranges),
    ensures
        forall|j: int|
            #![trigger ranges[j]]
            0 <= j < ranges.len() ==> 0 <= ranges[j].0 < ranges[j].1 <= num_entries,
        forall|j1: int, j2: int|
            0 <= j1 < j2 < ranges.len() ==> (#[trigger] ranges[j1]).1
                <= (#[trigger] ranges[j2]).0,
        forall|idx: int|
            0 <= idx < num_entries ==> {
                let j = #[trigger] range_index_of(num_entries, num_ranges, idx);
                &&& 0 <= j < ranges.len()
                &&& ranges[j].0 <= idx < ranges[j].1
            },
        ranges.len() <= num_ranges,
{
    let c = chunk_size(num_entries, num_ranges);
    let a = num_entries;
    let b = num_ranges;
    let n = ranges.len() as int;
    lemma_fundamental_div_mod(a + b - 1, b);
    lemma_mod_bound(a + b - 1, b);
    assert forall|j: int| 0 <= j < n implies 0 <= (#[trigger] ranges[j]).0 < ranges[j].1
        <= num_entries by {
        assert(0 <= j * c) by (nonlinear_arith)
            requires
                j >= 0,
                c >= 0,
        ;
    }
    assert forall|j1: int, j2: int| 0 <= j1 < j2 < n implies (#[trigger] ranges[j1]).1
        <= (#[trigger] ranges[j2]).0 by {
        assert(j1 * c + c <= j2 * c) by (nonlinear_arith)
            requires
                j1 + 1 <= j2,
                c >= 0,
        ;
    }
    if a > 0 {
        // The last range starts below `a` and ends at `a`, so `n` chunks
        // reach `a`, and `b` chunks reach it too.
        assert(ranges[n - 1].0 as int == (n - 1) * c);
        assert(n * c == (n - 1) * c + c) by (nonlinear_arith);
        assert(a <= n * c);
        assert(n <= b) by (nonlinear_arith)
            requires
                (n - 1) * c < a,
                a <= b * c,
                c >= 1,
                n >= 1,
        ;
        assert forall|idx: int| 0 <= idx < num_entries implies {
            let j = #[trigger] range_index_of(num_entries, num_ranges, idx);
            &&& 0 <= j < ranges.len()
            &&& ranges[j].0 <= idx < ranges[j].1
        } by {
            let j = range_index_of(a, b, idx);
            lemma_fundamental_div_mod(idx, c);
            lemma_mod_bound(idx, c);
            assert(j * c <= idx < j * c + c);
            assert(0 <= j) by (nonlinear_arith)
                requires
                    j * c + c > 0,
                    c >= 1,
                    j == idx / c,
                    idx >= 0,
            ;
            assert(j < n) by (nonlinear_arith)
                requires
                    j * c <= idx,
                    idx < a,
                    a <= n * c,
                    c >= 1,
            ;
        }
    }
}

/// Partitioning balances load: every range except the last is exactly one
/// ceiling-division chunk long, and the last holds between one index and
/// one chunk.
pub proof fn lemma_partition_balanced(
    num_entries: int,
    num_ranges: int,
    ranges: Seq<(usize, usize)>,
)
    requires
        num_ranges >= 1,
        num_entries >= 0,
        is_partition(num_entries, num_ranges, ranges),
    ensures
        forall|j: int|
            #![trigger ranges[j]]
            0 <= j < ranges.len() ==> 1 <= ranges[j].1 - ranges[j].0
                <= chunk_size(num_entries, num_ranges),
        forall|j: int|
            #![trigger ranges[j]]
            0 <= j < ranges.len() - 1 ==> ranges[j].1 - ranges[j].0
                == chunk_size(num_entries, num_ranges),
{
    let c = chunk_size(num_entries, num_ranges);
    let a = num_entries;
    let b = num_ranges;
    let n = ranges.len() as int;
    if a > 0 {
        lemma_div_is_ordered(b, a + b - 1, b);
        lemma_div_by_self(b);
    }
    assert forall|j: int| 0 <= j < n implies 1 <= (#[trigger] ranges[j]).1 - ranges[j].0
        <= c by {
    }
    assert forall|j: int| 0 <= j < n - 1 implies (#[trigger] ranges[j]).1 - ranges[j].0
        == c by {
        assert(ranges[j + 1].0 as int == (j + 1) * c);
        assert((j + 1) * c == j * c + c) by (nonlinear_arith);
    }
}

/// Ceiling division; the chunk size the partitioner uses.
fn div_ceil(num_entries: usize, num_ranges: usize) -> (r: usize)
    requires
        num_ranges >= 1,
    ensures
        r as int == chunk_size(num_entries as int, num_ranges as int),
{
    let q = num_entries / num_ranges;
    let rem = num_entries % num_ranges;
    proof {
        let a = num_entries as int;
        let b = num_ranges as int;
        lemma_fundamental_div_mod(a, b);
        lemma_mod_bound(a, b);
        if rem == 0 {
            lemma_fundamental_div_mod_converse(a + b - 1, b, q as int, b - 1);
        } else {
            assert(b * (q as int + 1) == b * (q as int) + b) by (nonlinear_arith);
            lemma_fundamental_div_mod_converse(a + b - 1, b, q as int + 1, rem - 1);
            assert(b * (q as int) >= q as int) by (nonlinear_arith)
                requires
                    b >= 1,
                    q as int >= 0,
            ;
        }
    }
    if rem == 0 {
        q
    } else {
        q + 1
    }
}

/// Work partitioning for one worker: the half-open entry index range of
/// worker `thread_id` among `num_threads` workers over `num_entries`
/// entries, or `None` when that worker's start index would already be past
/// the entry count.
pub fn calculate_entries_for_thread(
    thread_id: usize,
    num_threads: usize,
    num_entries: usize,
) -> (r: Option<(usize, usize)>)
    requires
        num_threads >= 1,
    ensures
        r is Some <==> range_start(
            num_entries as int,
            num_threads as int,
            thread_id as int,
        ) < num_entries,
        r matches Some(range) ==> {
            &&& range.0 as int == range_start(
                num_entries as int,
                num_threads as int,
                thread_id as int,
            )
            &&& range.1 as int == range_end(
                num_entries as int,
                num_threads as int,
                thread_id as int,
            )
        },
{
    let ghost a = num_entries as int;
    let ghost b = num_threads as int;
    let ghost t = thread_id as int;
    if num_entries == 0 {
        proof {
            lemma_basic_div(b - 1, b);
            lemma_mul_basics(t);
        }
        return None;
    }
    let chunk = div_ceil(num_entries, num_threads);
    let ghost c = chunk_size(a, b);
    proof {
        lemma_div_is_ordered(b, a + b - 1, b);
        lemma_div_by_self(b);
    }
    let last_start = (num_entries - 1) / chunk;
    proof {
        lemma_fundamental_div_mod(a - 1, c);
        lemma_mod_bound(a - 1, c);
    }
    if thread_id > last_start {
        proof {
            assert(t * c >= a) by (nonlinear_arith)
                requires
                    t >= last_start as int + 1,
                    a - 1 == c * (last_start as int) + (a - 1) % c,
                    0 <= (a - 1) % c < c,
            ;
        }
        return None;
    }
    proof {
        assert(t * c <= a - 1) by (nonlinear_arith)
            requires
                t <= last_start as int,
                t >= 0,
                c >= 1,
                a - 1 == c * (last_start as int) + (a - 1) % c,
                0 <= (a - 1) % c,
        ;
    }
    let start = thread_id * chunk;
    let end = if chunk > num_entries - start {
        num_entries
    } else {
        start + chunk
    };
    Some((start, end))
}

/// Divides `[0, num_entries)` into contiguous half-open ranges, one per
/// worker that has work: each range is one ceiling-division chunk long,
/// except the last, which stops at `num_entries`. Workers whose start index
/// would pass the entry count get no range; zero entries give no ranges.
pub fn split_indices_into_ranges(num_entries: usize, num_ranges: usize) -> (r: Vec<(
    usize,
    usize,
)>)
    requires
        num_ranges >= 1,
    ensures
        is_partition(num_entries as int, num_ranges as int, r@),
{
    let mut ranges: Vec<(usize, usize)> = Vec::new();
    if num_entries == 0 {
        return ranges;
    }
    let chunk = div_ceil(num_entries, num_ranges);
    let ghost a = num_entries as int;
    let ghost b = num_ranges as int;
    let ghost c = chunk_size(a, b);
    proof {
        lemma_div_is_ordered(b, a + b - 1, b);
        lemma_div_by_self(b);
        lemma_mul_basics(c);
    }
    let mut covered: usize = 0;
    loop
        invariant_except_break
            covered < num_entries,
            covered as int == ranges@.len() * c,
        invariant
            num_ranges >= 1,
            num_entries >= 1,
            chunk as int == c,
            c == chunk_size(a, b),
            a == num_entries as int,
            b == num_ranges as int,
            chunk >= 1,
            forall|j: int|
                #![trigger ranges@[j]]
                0 <= j < ranges@.len() ==> {
                    &&& ranges@[j].0 as int == range_start(a, b, j)
                    &&& ranges@[j].1 as int == range_end(a, b, j)
                    &&& range_start(a, b, j) < a
                },
        ensures
            is_partition(a, b, ranges@),
        decreases num_entries - covered,
    {
        let ghost n = ranges@.len() as int;
        proof {
            assert((n + 1) * c == n * c + c) by (nonlinear_arith);
        }
        if num_entries - covered > chunk {
            ranges.push((covered, covered + chunk));
            covered = covered + chunk;
        } else {
            ranges.push((covered, num_entries));
            break;
        }
    }
    ranges
}

} // verus!
