use vstd::multiset::Multiset;
use vstd::prelude::*;

use crate::counts::SequenceCounts;
use crate::window::{chunk_dates, dates_upto, is_ascii_bytes, lemma_ascii_chunk, scan_chunk, scan_ok};

verus! {

broadcast use vstd::seq_lib::group_to_multiset_ensures;

/// The size of the chunks that the input is cut into: 10 MiB.
pub const BUFFER_SIZE: usize = 10 * 1024 * 1024;

/// The `k`-th chunk of `data` for chunks of `size` bytes.
pub open spec fn chunk(data: Seq<u8>, size: nat, k: nat) -> Seq<u8> {
    data.subrange((k * size) as int, (k * size + size) as int)
}

/// The number of whole chunks of `size` bytes in `data`; a shorter tail is
/// not a chunk.
pub open spec fn spec_chunk_count(len: nat, size: nat) -> nat {
    len / size
}

/// The date candidates met in the first `k` chunks, chunk after chunk.
pub open spec fn dates_in_chunks(data: Seq<u8>, size: nat, k: nat) -> Seq<Seq<char>>
    decreases k,
{
    if k == 0 {
        seq![]
    } else {
        dates_in_chunks(data, size, (k - 1) as nat) + chunk_dates(chunk(data, size, (k - 1) as nat))
    }
}

/// The date candidates met in all whole chunks of `data`.
pub open spec fn data_dates(data: Seq<u8>, size: nat) -> Seq<Seq<char>> {
    dates_in_chunks(data, size, spec_chunk_count(data.len(), size))
}

/// Every whole chunk of `data` can be read without a fault.
pub open spec fn data_ok(data: Seq<u8>, size: nat) -> bool {
    forall|k: nat| k < spec_chunk_count(data.len(), size) ==> #[trigger] scan_ok(chunk(data, size, k))
}

/// The number of whole chunks of `buffer_size` bytes in an input of `len`
/// bytes.
pub fn chunk_count(len: usize, buffer_size: usize) -> (n: usize)
    requires
        buffer_size > 0,
    ensures
        n == spec_chunk_count(len as nat, buffer_size as nat),
{
    len / buffer_size
}

proof fn lemma_chunk_fits(index: nat, size: nat, len: nat)
    requires
        size > 0,
        index < len / size,
    ensures
        index * size + size <= len,
{
    assert(index * size + size <= (len / size) * size) by (nonlinear_arith)
        requires
            index < len / size,
            size > 0,
    ;
    assert((len / size) * size <= len) by (nonlinear_arith)
        requires
            size > 0,
    ;
}

/// Where the chunk `index` starts and ends in an input of `len` bytes: at
/// `index * buffer_size`, and `buffer_size` bytes later unless the input
/// ends first.
pub fn chunk_bounds(index: usize, buffer_size: usize, len: usize) -> (bounds: (usize, usize))
    requires
        buffer_size > 0,
        index < len / buffer_size,
    ensures
        bounds.0 == index * buffer_size,
        bounds.1 == if index * buffer_size + buffer_size < len { index * buffer_size + buffer_size } else { len as int },
        bounds.1 == bounds.0 + buffer_size,
{
    proof {
        lemma_chunk_fits(index as nat, buffer_size as nat, len as nat);
    }
    let start = index * buffer_size;
    let end = if start + buffer_size < len { start + buffer_size } else { len };
    (start, end)
}

proof fn lemma_dates_upto_len(chunk: Seq<u8>, n: nat)
    ensures
        dates_upto(chunk, n).len() <= n,
    decreases n,
{
    if n > 0 {
        lemma_dates_upto_len(chunk, (n - 1) as nat);
    }
}

proof fn lemma_dates_in_chunks_len(data: Seq<u8>, size: nat, k: nat)
    requires
        k * size <= data.len(),
    ensures
        dates_in_chunks(data, size, k).len() <= k * size,
    decreases k,
{
    if k > 0 {
        assert((k - 1) * size + size == k * size) by (nonlinear_arith);
        lemma_dates_in_chunks_len(data, size, (k - 1) as nat);
        lemma_dates_upto_len(chunk(data, size, (k - 1) as nat), size);
    }
}

/// ASCII input never faults: every whole chunk can be read.
pub proof fn lemma_ascii_data_ok(data: Seq<u8>, size: nat)
    requires
        is_ascii_bytes(data),
        size > 0,
    ensures
        data_ok(data, size),
{
    assert forall|k: nat| k < spec_chunk_count(data.len(), size) implies #[trigger] scan_ok(chunk(data, size, k)) by {
        lemma_chunk_fits(k, size, data.len());
        let c = chunk(data, size, k);
        assert forall|i: int| 0 <= i < c.len() implies #[trigger] c[i] < 0x80 by {
            assert(c[i] == data[k * size + i]);
        }
        lemma_ascii_chunk(c);
    }
}

/// Cuts `data` into whole chunks of `buffer_size` bytes, reads each chunk
/// for date candidates and counts them all. Returns the counts, or the first
/// chunk whose reading faults.
pub fn count_sequences(data: &[u8], buffer_size: usize) -> (res: Result<SequenceCounts, usize>)
    requires
        buffer_size > 0,
        data@.len() <= isize::MAX,
    ensures
        match res {
            Ok(counts) => {
                &&& counts.wf()
                &&& data_ok(data@, buffer_size as nat)
                &&& counts@ == data_dates(data@, buffer_size as nat).to_multiset()
            },
            Err(k) => {
                &&& k < spec_chunk_count(data@.len(), buffer_size as nat)
                &&& !scan_ok(chunk(data@, buffer_size as nat, k as nat))
                &&& forall|j: nat| j < k ==> #[trigger] scan_ok(chunk(data@, buffer_size as nat, j))
            },
        },
        is_ascii_bytes(data@) ==> res is Ok,
{
    proof {
        if is_ascii_bytes(data@) {
            lemma_ascii_data_ok(data@, buffer_size as nat);
        }
    }
    let ghost size = buffer_size as nat;
    let mut counts = SequenceCounts::new();
    let num_chunks = chunk_count(data.len(), buffer_size);
    let mut k: usize = 0;
    while k < num_chunks
        invariant
            num_chunks == spec_chunk_count(data@.len(), size),
            size == buffer_size,
            buffer_size > 0,
            data@.len() <= isize::MAX,
            k <= num_chunks,
            counts.wf(),
            counts@ == dates_in_chunks(data@, size, k as nat).to_multiset(),
            forall|j: nat| j < k ==> #[trigger] scan_ok(chunk(data@, size, j)),
        decreases num_chunks - k,
    {
        let (start, end) = chunk_bounds(k, buffer_size, data.len());
        proof {
            lemma_chunk_fits(k as nat, size, data@.len());
            lemma_dates_in_chunks_len(data@, size, k as nat);
        }
        let piece = &data[start..end];
        assert(piece@ == chunk(data@, size, k as nat));
        match scan_chunk(piece) {
            Ok(dates) => {
                proof {
                    lemma_dates_upto_len(piece@, piece@.len());
                    assert(dates@.len() == chunk_dates(piece@).len());
                }
                counts.record_all(&dates);
                let ghost prev = dates_in_chunks(data@, size, k as nat);
                assert(dates_in_chunks(data@, size, (k + 1) as nat) == prev + chunk_dates(piece@));
                proof {
                    vstd::seq_lib::lemma_multiset_commutative(prev, chunk_dates(piece@));
                }
                k += 1;
            },
            Err(_) => {
                return Err(k);
            },
        }
    }
    Ok(counts)
}

/// The chunk indices `0, 1, .., n - 1` in order.
pub open spec fn chunk_indices(n: nat) -> Seq<nat> {
    Seq::new(n, |i: int| i as nat)
}

/// The counts that result when the chunks are recorded in the order given
/// by `order`, one chunk after the other.
pub open spec fn counts_in_order(data: Seq<u8>, size: nat, order: Seq<nat>) -> Multiset<Seq<char>>
    decreases order.len(),
{
    if order.len() == 0 {
        Multiset::empty()
    } else {
        counts_in_order(data, size, order.drop_last()).add(
            chunk_dates(chunk(data, size, order.last())).to_multiset(),
        )
    }
}

proof fn lemma_counts_remove(data: Seq<u8>, size: nat, order: Seq<nat>, p: int)
    requires
        0 <= p < order.len(),
    ensures
        counts_in_order(data, size, order) == counts_in_order(data, size, order.remove(p)).add(
            chunk_dates(chunk(data, size, order[p])).to_multiset(),
        ),
    decreases order.len(),
{
    broadcast use vstd::multiset::group_multiset_axioms;

    if p == order.len() - 1 {
        assert(order.remove(p) =~= order.drop_last());
    } else {
        let shorter = order.drop_last();
        lemma_counts_remove(data, size, shorter, p);
        assert(order.remove(p).drop_last() =~= shorter.remove(p));
        assert(order.remove(p).last() == order.last());
        let a = counts_in_order(data, size, shorter.remove(p));
        let b = chunk_dates(chunk(data, size, order[p])).to_multiset();
        let c = chunk_dates(chunk(data, size, order.last())).to_multiset();
        assert(a.add(b).add(c) =~= a.add(c).add(b));
    }
}

proof fn lemma_counts_in_index_order(data: Seq<u8>, size: nat, n: nat)
    ensures
        counts_in_order(data, size, chunk_indices(n)) == dates_in_chunks(data, size, n).to_multiset(),
    decreases n,
{
    if n > 0 {
        lemma_counts_in_index_order(data, size, (n - 1) as nat);
        assert(chunk_indices(n).drop_last() =~= chunk_indices((n - 1) as nat));
        vstd::seq_lib::lemma_multiset_commutative(
            dates_in_chunks(data, size, (n - 1) as nat),
            chunk_dates(chunk(data, size, (n - 1) as nat)),
        );
    }
}

proof fn lemma_counts_permutation(data: Seq<u8>, size: nat, order: Seq<nat>, n: nat)
    requires
        order.to_multiset() == chunk_indices(n).to_multiset(),
    ensures
        counts_in_order(data, size, order) == counts_in_order(data, size, chunk_indices(n)),
    decreases n,
{
    broadcast use vstd::multiset::group_multiset_axioms;

    if n == 0 {
        assert(chunk_indices(n).len() == 0);
        assert(order.to_multiset().len() == 0);
        assert(order =~= Seq::<nat>::empty());
    } else {
        let last = (n - 1) as nat;
        assert(chunk_indices(n) =~= chunk_indices(last).push(last));
        assert(chunk_indices(n).to_multiset().count(last) > 0);
        assert(order.contains(last));
        let p = choose|p: int| 0 <= p < order.len() && order[p] == last;
        let rest = order.remove(p);
        assert(rest.to_multiset() =~= chunk_indices(last).to_multiset());
        lemma_counts_permutation(data, size, rest, last);
        lemma_counts_remove(data, size, order, p);
        assert(chunk_indices(n).drop_last() =~= chunk_indices(last));
    }
}

/// However the whole chunks are handed out, when every chunk's date
/// candidates are recorded once, in any order, the counts are those of the
/// chunks read one after the other.
pub proof fn lemma_chunk_order_irrelevant(data: Seq<u8>, size: nat, order: Seq<nat>)
    requires
        order.to_multiset() == chunk_indices(spec_chunk_count(data.len(), size)).to_multiset(),
    ensures
        counts_in_order(data, size, order) == data_dates(data, size).to_multiset(),
{
    let n = spec_chunk_count(data.len(), size);
    lemma_counts_permutation(data, size, order, n);
    lemma_counts_in_index_order(data, size, n);
}

} // verus!
