//! Engine statistics for the charts: latency histograms and the window of
//! recent latencies.
use vstd::prelude::*;

verus! {

/// `a / b` rounded toward zero, for positive `b`.
pub open spec fn div_toward_zero(a: int, b: int) -> int {
    if a >= 0 {
        a / b
    } else {
        -((-a) / b)
    }
}

/// The bin of a value: values at or above `max_value` share the last bin,
/// the others fall into bins of `width` counted from zero.
pub open spec fn bin_of(v: i64, width: i64, max_value: i64) -> int {
    if v >= max_value {
        div_toward_zero(max_value as int, width as int)
    } else {
        div_toward_zero(v as int, width as int)
    }
}

/// How many of the values fall into bin `k`.
pub open spec fn bin_count(data: Seq<i64>, width: i64, max_value: i64, k: int) -> nat
    decreases data.len(),
{
    if data.len() == 0 {
        0
    } else {
        bin_count(data.drop_last(), width, max_value, k) + if bin_of(data.last(), width, max_value) == k {
            1nat
        } else {
            0nat
        }
    }
}

/// A histogram row: the bin `k` spans `[k * width, (k + 1) * width)` and
/// holds `count` values.
pub open spec fn bin_row(k: int, width: i64, count: nat) -> (i64, i64, usize) {
    ((k * width) as i64, (k * width + width) as i64, count as usize)
}

/// `b` lists the non-empty bins of `data`, each with its count, in
/// increasing order of bin.
pub open spec fn bins_of(b: Seq<(i64, usize)>, data: Seq<i64>, width: i64, max_value: i64) -> bool {
    &&& forall|x: int, y: int| 0 <= x < y < b.len() ==> (#[trigger] b[x]).0 < (#[trigger] b[y]).0
    &&& forall|j: int|
        0 <= j < b.len() ==> (#[trigger] b[j]).1 == bin_count(data, width, max_value, b[j].0 as int) && b[j].1 > 0
    &&& forall|k: int| #[trigger] bin_count(data, width, max_value, k) > 0 ==> exists|j: int| 0 <= j < b.len() && b[j].0 == k
}

/// The histogram rows of bins, leaving out bin `skip`.
pub open spec fn rows(b: Seq<(i64, usize)>, skip: int, width: i64) -> Seq<(i64, i64, usize)>
    decreases b.len(),
{
    if b.len() == 0 {
        Seq::empty()
    } else {
        let r = rows(b.drop_last(), skip, width);
        if b.last().0 != skip {
            r.push(bin_row(b.last().0 as int, width, b.last().1 as nat))
        } else {
            r
        }
    }
}

fn toward_zero(a: i64, b: i64) -> (q: i64)
    requires
        b > 0,
    ensures
        q == div_toward_zero(a as int, b as int),
{
    if a >= 0 {
        let q: u64 = (a as u64) / (b as u64);
        proof {
            assert(q <= a);
        }
        q as i64
    } else {
        let m: u64 = (-(a as i128)) as u64;
        let q: u64 = m / (b as u64);
        proof {
            assert(q <= m);
        }
        if q > 0x7fff_ffff_ffff_ffffu64 {
            i64::MIN
        } else {
            -(q as i64)
        }
    }
}

proof fn lemma_count_step(data: Seq<i64>, i: int, width: i64, max_value: i64, k: int)
    requires
        0 <= i < data.len(),
    ensures
        bin_count(data.take(i + 1), width, max_value, k) == bin_count(data.take(i), width, max_value, k) + if bin_of(
            data[i],
            width,
            max_value,
        ) == k {
            1nat
        } else {
            0nat
        },
{
    assert(data.take(i + 1).drop_last() =~= data.take(i));
}

proof fn lemma_count_bound(data: Seq<i64>, width: i64, max_value: i64, k: int)
    ensures
        bin_count(data, width, max_value, k) <= data.len(),
    decreases data.len(),
{
    if data.len() > 0 {
        lemma_count_bound(data.drop_last(), width, max_value, k);
    }
}

proof fn lemma_bin_bounds(v: i64, width: i64, max_value: i64)
    requires
        width > 0,
    ensures
        v < max_value ==> i64::MIN <= bin_of(v, width, max_value) * width,
        v < max_value && max_value <= i64::MAX - width ==> bin_of(v, width, max_value) * width + width <= i64::MAX,
{
    if v < max_value {
        if v >= 0 {
            let vi = v as int;
            let w = width as int;
            vstd::arithmetic::div_mod::lemma_fundamental_div_mod(vi, w);
            assert((vi / w) * w <= vi && (vi / w) * w >= 0) by (nonlinear_arith)
                requires
                    vi == w * (vi / w) + vi % w,
                    vi % w >= 0,
                    vi >= 0,
                    w > 0,
                    vi / w >= 0,
            ;
        } else {
            let a = -(v as int);
            let w = width as int;
            vstd::arithmetic::div_mod::lemma_fundamental_div_mod(a, w);
            assert((-(a / w)) * w >= v && (-(a / w)) * w <= 0) by (nonlinear_arith)
                requires
                    a == w * (a / w) + a % w,
                    a % w >= 0,
                    a > 0,
                    w > 0,
                    a / w >= 0,
                    v == -a,
            ;
        }
    }
}

/// The histogram of `data` in bins of `bin_width` below `max_value`: one
/// row per non-empty bin, lowest bin first, each with its bounds and its
/// number of values. The bin of values at or above `max_value` (and any
/// value that rounds into it) is left out.
pub fn bin_data(data: &Vec<i64>, bin_width: i64, max_value: i64) -> (r: Vec<(i64, i64, usize)>)
    requires
        data@.len() > 0,
        bin_width > 0,
        max_value <= i64::MAX - bin_width,
    ensures
        exists|b: Seq<(i64, usize)>|
            #[trigger] bins_of(b, data@, bin_width, max_value) && r@ == rows(
                b,
                div_toward_zero(max_value as int, bin_width as int),
                bin_width,
            ),
{
    let num_bins = toward_zero(max_value, bin_width);
    let mut bins: Vec<(i64, usize)> = Vec::new();
    let mut i: usize = 0;
    while i < data.len()
        invariant
            0 <= i <= data@.len(),
            bin_width > 0,
            max_value <= i64::MAX - bin_width,
            num_bins == div_toward_zero(max_value as int, bin_width as int),
            forall|a: int, b: int| 0 <= a < b < bins@.len() ==> (#[trigger] bins@[a]).0 < (#[trigger] bins@[b]).0,
            forall|j: int|
                0 <= j < bins@.len() ==> (#[trigger] bins@[j]).1 == bin_count(data@.take(i as int), bin_width, max_value, bins@[j].0 as int)
                    && bins@[j].1 > 0,
            forall|k: int|
                #[trigger] bin_count(data@.take(i as int), bin_width, max_value, k) > 0 ==> exists|j: int|
                    0 <= j < bins@.len() && bins@[j].0 == k,
        decreases data@.len() - i,
    {
        let v = data[i];
        let k: i64 = if v >= max_value {
            num_bins
        } else {
            toward_zero(v, bin_width)
        };
        proof {
            assert(k == bin_of(v, bin_width, max_value));
            lemma_count_bound(data@.take(i + 1), bin_width, max_value, k as int);
            assert forall|kk: int| true implies #[trigger] bin_count(data@.take(i + 1), bin_width, max_value, kk)
                == bin_count(data@.take(i as int), bin_width, max_value, kk) + if kk == k { 1nat } else { 0nat } by {
                lemma_count_step(data@, i as int, bin_width, max_value, kk);
            }
        }
        let mut j: usize = 0;
        while j < bins.len() && bins[j].0 < k
            invariant
                0 <= j <= bins@.len(),
                forall|a: int| 0 <= a < j ==> (#[trigger] bins@[a]).0 < k,
            decreases bins@.len() - j,
        {
            j = j + 1;
        }
        let ghost old_bins = bins@;
        if j < bins.len() && bins[j].0 == k {
            let c = bins[j].1;
            proof {
                lemma_count_bound(data@.take(i as int), bin_width, max_value, k as int);
                assert(c <= i);
            }
            bins.set(j, (k, c + 1));
            proof {
                assert forall|kk: int| #[trigger] bin_count(data@.take(i + 1), bin_width, max_value, kk) > 0 implies exists|jj: int|
                    0 <= jj < bins@.len() && bins@[jj].0 == kk by {
                    if kk == k {
                        assert(bins@[j as int].0 == kk);
                    } else {
                        assert(bin_count(data@.take(i as int), bin_width, max_value, kk) > 0);
                        let jj = choose|jj: int| 0 <= jj < old_bins.len() && old_bins[jj].0 == kk;
                        assert(bins@[jj].0 == kk);
                    }
                }
            }
        } else {
            proof {
                if j < old_bins.len() {
                    assert(old_bins[j as int].0 > k);
                }
                assert(bin_count(data@.take(i as int), bin_width, max_value, k as int) == 0) by {
                    if bin_count(data@.take(i as int), bin_width, max_value, k as int) > 0 {
                        let jj = choose|jj: int| 0 <= jj < old_bins.len() && old_bins[jj].0 == k;
                        if jj < j {
                            assert(old_bins[jj].0 < k);
                        } else if jj > j {
                            assert(old_bins[j as int].0 < old_bins[jj].0);
                        }
                    }
                }
            }
            bins.insert(j, (k, 1));
            proof {
                assert(bins@ == old_bins.insert(j as int, (k, 1usize)));
                assert forall|a: int, b: int| 0 <= a < b < bins@.len() implies (#[trigger] bins@[a]).0 < (#[trigger] bins@[b]).0 by {
                    if b < j {
                        assert(bins@[a] == old_bins[a]);
                        assert(bins@[b] == old_bins[b]);
                    } else if a < j && b == j {
                    } else if a < j && b > j {
                        assert(bins@[b] == old_bins[b - 1]);
                        if b - 1 > j {
                            assert(old_bins[j as int].0 < old_bins[b - 1].0);
                        }
                    } else if a == j {
                        assert(bins@[b] == old_bins[b - 1]);
                        if b - 1 > j {
                            assert(old_bins[j as int].0 < old_bins[b - 1].0);
                        }
                    } else {
                        assert(bins@[a] == old_bins[a - 1]);
                        assert(bins@[b] == old_bins[b - 1]);
                    }
                }
                assert forall|jj: int| 0 <= jj < bins@.len() implies (#[trigger] bins@[jj]).1 == bin_count(
                    data@.take(i + 1),
                    bin_width,
                    max_value,
                    bins@[jj].0 as int,
                ) && bins@[jj].1 > 0 by {
                    if jj < j {
                        assert(bins@[jj] == old_bins[jj]);
                    } else if jj > j {
                        assert(bins@[jj] == old_bins[jj - 1]);
                    }
                }
                assert forall|kk: int| #[trigger] bin_count(data@.take(i + 1), bin_width, max_value, kk) > 0 implies exists|jj: int|
                    0 <= jj < bins@.len() && bins@[jj].0 == kk by {
                    if kk == k {
                        assert(bins@[j as int].0 == kk);
                    } else {
                        assert(bin_count(data@.take(i as int), bin_width, max_value, kk) > 0);
                        let jj = choose|jj: int| 0 <= jj < old_bins.len() && old_bins[jj].0 == kk;
                        if jj < j {
                            assert(bins@[jj].0 == kk);
                        } else {
                            assert(bins@[jj + 1].0 == kk);
                        }
                    }
                }
            }
        }
        i = i + 1;
    }
    proof {
        assert(data@.take(i as int) =~= data@);
    }
    let mut r: Vec<(i64, i64, usize)> = Vec::new();
    let mut j: usize = 0;
    while j < bins.len()
        invariant
            0 <= j <= bins@.len(),
            bin_width > 0,
            max_value <= i64::MAX - bin_width,
            num_bins == div_toward_zero(max_value as int, bin_width as int),
            forall|jj: int|
                0 <= jj < bins@.len() ==> (#[trigger] bins@[jj]).1 == bin_count(data@, bin_width, max_value, bins@[jj].0 as int)
                    && bins@[jj].1 > 0,
            r@ == rows(bins@.take(j as int), num_bins as int, bin_width),
        decreases bins@.len() - j,
    {
        proof {
            assert(bins@.take(j + 1).drop_last() =~= bins@.take(j as int));
        }
        let (k, c) = bins[j];
        if k != num_bins {
            proof {
                assert(bin_count(data@, bin_width, max_value, k as int) > 0);
                lemma_bin_row_fits(data@, bin_width, max_value, k as int);
            }
            let lower = k * bin_width;
            let upper = lower + bin_width;
            r.push((lower, upper, c));
        }
        j = j + 1;
    }
    proof {
        assert(bins@.take(j as int) =~= bins@);
        assert(bins_of(bins@, data@, bin_width, max_value));
    }
    r
}

proof fn lemma_bin_row_fits(data: Seq<i64>, width: i64, max_value: i64, k: int)
    requires
        width > 0,
        max_value <= i64::MAX - width,
        k != div_toward_zero(max_value as int, width as int),
        bin_count(data, width, max_value, k) > 0,
    ensures
        i64::MIN <= k * width,
        k * width + width <= i64::MAX,
    decreases data.len(),
{
    if bin_of(data.last(), width, max_value) == k {
        let v = data.last();
        lemma_bin_bounds(v, width, max_value);
        assert(v < max_value);
    } else {
        lemma_bin_row_fits(data.drop_last(), width, max_value, k);
    }
}

/// The most recent latencies, up to a window of them.
pub struct LatencyProcessor {
    latency_buffer: Vec<u128>,
    window_size: usize,
}

impl LatencyProcessor {
    /// The latencies held.
    pub closed spec fn buffer(&self) -> Seq<u128> {
        self.latency_buffer@
    }

    /// How many latencies an update hands out at most.
    pub closed spec fn window(&self) -> nat {
        self.window_size as nat
    }

    /// No latencies, a window of 1000.
    pub fn new() -> (p: Self)
        ensures
            p.buffer() == Seq::<u128>::empty(),
            p.window() == 1000,
    {
        LatencyProcessor { latency_buffer: Vec::new(), window_size: 1000 }
    }

    /// Records a latency.
    pub fn process_latency(&mut self, latency: u128)
        ensures
            final(self).buffer() == old(self).buffer().push(latency),
            final(self).window() == old(self).window(),
    {
        self.latency_buffer.push(latency)
    }

    /// The latest latencies, at most a window of them, dropping older ones
    /// from the buffer; none when no latency was recorded.
    pub fn get_latency_update(&mut self) -> (r: Option<Vec<u128>>)
        ensures
            final(self).window() == old(self).window(),
            old(self).buffer().len() == 0 ==> r is None && final(self).buffer() == old(self).buffer(),
            old(self).buffer().len() > 0 ==> {
                let keep = if old(self).buffer().len() > old(self).window() {
                    old(self).window() as int
                } else {
                    old(self).buffer().len() as int
                };
                let latest = old(self).buffer().subrange(old(self).buffer().len() - keep, old(self).buffer().len() as int);
                &&& final(self).buffer() == latest
                &&& r matches Some(v) && v@ == latest
            },
    {
        if self.latency_buffer.len() == 0 {
            return None;
        }
        let n = self.latency_buffer.len();
        if n > self.window_size {
            let drop = n - self.window_size;
            let mut kept: Vec<u128> = Vec::new();
            let mut i = drop;
            while i < n
                invariant
                    drop <= i <= n == self.latency_buffer@.len(),
                    kept@ =~= self.latency_buffer@.subrange(drop as int, i as int),
                decreases n - i,
            {
                kept.push(self.latency_buffer[i]);
                i = i + 1;
            }
            self.latency_buffer = kept;
        } else {
            proof {
                assert(self.latency_buffer@.subrange(0, n as int) =~= self.latency_buffer@);
            }
        }
        Some(self.latency_buffer.clone())
    }
}

} // verus!
