//! Cutting an upload into fixed-size chunks, the inverse of the session
//! manager joining them.
use vstd::prelude::*;
use crate::sessions::{joined, first_missing};

verus! {

/// How many chunks of `size` items `total` items take (the last may be
/// shorter).
pub open spec fn chunk_count(total: nat, size: nat) -> nat {
    if total % size == 0 {
        total / size
    } else {
        total / size + 1
    }
}

/// Chunk `k` of `data` in chunks of `size` items.
pub open spec fn chunk_of<T>(data: Seq<T>, size: nat, k: nat) -> Seq<T> {
    let start: int = (k * size) as int;
    let end: int = if start + size <= data.len() {
        start + size
    } else {
        data.len() as int
    };
    data.subrange(start, end)
}

/// The chunks of `data`, keyed by chunk number.
pub open spec fn chunk_map<T>(data: Seq<T>, size: nat) -> Map<usize, Seq<T>> {
    Map::new(
        |k: usize| k < chunk_count(data.len(), size),
        |k: usize| chunk_of(data, size, k as nat),
    )
}

/// How many chunks of `chunk_size` items `total_orders` items take.
pub fn total_chunks(total_orders: usize, chunk_size: usize) -> (r: usize)
    requires
        chunk_size > 0,
    ensures
        r == chunk_count(total_orders as nat, chunk_size as nat),
{
    if total_orders % chunk_size == 0 {
        total_orders / chunk_size
    } else {
        proof {
            let q = total_orders / chunk_size;
            let rem = total_orders % chunk_size;
            vstd::arithmetic::div_mod::lemma_fundamental_div_mod(total_orders as int, chunk_size as int);
            assert(q < total_orders) by (nonlinear_arith)
                requires
                    total_orders == chunk_size * q + rem,
                    0 < rem < chunk_size,
            ;
        }
        total_orders / chunk_size + 1
    }
}

proof fn lemma_count_bounds(total: nat, size: nat)
    requires
        size > 0,
    ensures
        chunk_count(total, size) * size >= total,
        chunk_count(total, size) == 0 || (chunk_count(total, size) - 1) * size < total,
{
    vstd::arithmetic::div_mod::lemma_fundamental_div_mod(total as int, size as int);
    let q = total / size;
    let r = total % size;
    if r == 0 {
        assert(q * size == total) by (nonlinear_arith)
            requires
                total == size * q + r,
                r == 0,
        ;
        if q > 0 {
            assert((q - 1) * size < total) by (nonlinear_arith)
                requires
                    total == q * size,
                    size > 0,
            ;
        }
    } else {
        assert((q + 1) * size >= total && q * size < total) by (nonlinear_arith)
            requires
                total == size * q + r,
                0 < r < size,
        ;
    }
}

/// `data` cut into chunks of `chunk_size` items, in order; only the last
/// chunk may be shorter.
pub fn split_chunks<T: Copy>(data: &Vec<T>, chunk_size: usize) -> (r: Vec<Vec<T>>)
    requires
        chunk_size > 0,
    ensures
        r@.len() == chunk_count(data@.len(), chunk_size as nat),
        forall|k: int| 0 <= k < r@.len() ==> (#[trigger] r@[k])@ == chunk_of(data@, chunk_size as nat, k as nat),
{
    let n = total_chunks(data.len(), chunk_size);
    let ghost cs = chunk_size as nat;
    proof {
        lemma_count_bounds(data@.len(), cs);
    }
    let mut r: Vec<Vec<T>> = Vec::new();
    let mut k: usize = 0;
    let len = data.len();
    while k < n
        invariant
            len == data@.len(),
            n == chunk_count(data@.len(), cs),
            cs == chunk_size > 0,
            n == 0 || (n - 1) * cs < data@.len(),
            0 <= k <= n,
            r@.len() == k,
            forall|j: int| 0 <= j < k ==> (#[trigger] r@[j])@ == chunk_of(data@, cs, j as nat),
        decreases n - k,
    {
        proof {
            assert(k * cs <= (n - 1) * cs) by (nonlinear_arith)
                requires
                    k <= n - 1,
                    cs > 0,
            ;
        }
        let start = k * chunk_size;
        let end = if chunk_size <= data.len() - start {
            start + chunk_size
        } else {
            data.len()
        };
        let mut c: Vec<T> = Vec::new();
        let mut i = start;
        while i < end
            invariant
                start <= i <= end <= data@.len(),
                c@ =~= data@.subrange(start as int, i as int),
            decreases end - i,
        {
            c.push(data[i]);
            i = i + 1;
        }
        r.push(c);
        k = k + 1;
    }
    r
}

proof fn lemma_joined_prefix<T>(data: Seq<T>, size: nat, k: nat)
    requires
        size > 0,
        data.len() <= usize::MAX,
        k <= chunk_count(data.len(), size),
    ensures
        joined(chunk_map(data, size), k) == data.subrange(
            0,
            if k * size <= data.len() {
                (k * size) as int
            } else {
                data.len() as int
            },
        ),
        first_missing(chunk_map(data, size), k) is None,
    decreases k,
{
    lemma_count_bounds(data.len(), size);
    if k == 0 {
        assert(data.subrange(0, 0) =~= Seq::<T>::empty());
    } else {
        let j = (k - 1) as nat;
        lemma_joined_prefix(data, size, j);
        assert(j * size <= (chunk_count(data.len(), size) - 1) * size) by (nonlinear_arith)
            requires
                j <= chunk_count(data.len(), size) - 1,
                size > 0,
        ;
        assert(k * size == j * size + size) by (nonlinear_arith)
            requires
                k == j + 1,
        ;
        assert(chunk_count(data.len(), size) <= data.len()) by (nonlinear_arith)
            requires
                size > 0,
                chunk_count(data.len(), size) == 0 || (chunk_count(data.len(), size) - 1) * size < data.len(),
        ;
        let m = chunk_map(data, size);
        assert(m.contains_key(j as usize));
        assert(m[j as usize] == chunk_of(data, size, j));
        let end: int = if k * size <= data.len() { (k * size) as int } else { data.len() as int };
        assert(chunk_of(data, size, j) == data.subrange((j * size) as int, end));
        assert(joined(m, j) == data.subrange(0, (j * size) as int));
        assert(joined(m, k) == joined(m, j) + m[j as usize]);
        assert(data.subrange(0, (j * size) as int) + data.subrange((j * size) as int, end) =~= data.subrange(0, end));
    }
}

/// Cutting data into chunks and joining the chunks in order gives the data
/// back, and no chunk number below the count is missing: an upload cut by
/// the client is reassembled exactly by the session manager.
pub proof fn law_chunks_rejoin<T>(data: Seq<T>, size: nat)
    requires
        size > 0,
        data.len() <= usize::MAX,
    ensures
        joined(chunk_map(data, size), chunk_count(data.len(), size)) == data,
        first_missing(chunk_map(data, size), chunk_count(data.len(), size)) is None,
{
    lemma_count_bounds(data.len(), size);
    lemma_joined_prefix(data, size, chunk_count(data.len(), size));
    assert(data.subrange(0, data.len() as int) =~= data);
}

} // verus!
