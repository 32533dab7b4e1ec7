//! The sampler of heights and the order-preserving mapper.

use vstd::prelude::*;
use vstd::arithmetic::power2::{lemma2_to64, lemma_pow2_strictly_increases, lemma_pow2_unfold, pow2};

verus! {

/// `n` is one of 1, 2, 4, 8, ...
pub open spec fn is_power_of_two(n: nat) -> bool
    decreases n,
{
    n == 1 || (n > 1 && n % 2 == 0 && is_power_of_two(n / 2))
}

/// The first of `p`, `2p`, `4p`, ... that is at least `n`.
pub open spec fn doubled_up_to(n: nat, p: nat) -> nat
    decreases n - p,
{
    if p == 0 || p >= n {
        p
    } else if 2 * p >= n {
        2 * p
    } else {
        doubled_up_to(n, 2 * p)
    }
}

/// The smallest power of two that is at least `n`.
pub open spec fn next_power_of_two(n: nat) -> nat {
    doubled_up_to(n, 1)
}

/// The distance between two sampled heights: the quotient of the range's
/// length by the wanted number of samples, at least one, rounded up to a
/// power of two.
pub open spec fn sample_stride(start: u64, end: u64, approx_count: u64) -> nat {
    let quotient = (end - start) / (approx_count as int);
    next_power_of_two(if quotient < 1 { 1 } else { quotient as nat })
}

/// `height` is a multiple of `stride`.
pub open spec fn is_multiple(height: int, stride: int) -> bool {
    height % stride == 0
}

/// `height` is sampled from `[start, end]`: it lies in the range and is a
/// multiple of the stride, or it is `end` itself.
pub open spec fn is_sample(start: u64, end: u64, approx_count: u64, height: u64) -> bool {
    &&& start <= height <= end
    &&& (is_multiple(height as int, sample_stride(start, end, approx_count) as int) || height
        == end)
}

/// Each element is less than the next.
pub open spec fn strictly_increasing(heights: Seq<u64>) -> bool {
    forall|i: int, j: int| 0 <= i < j < heights.len() ==> heights[i] < heights[j]
}

proof fn lemma_doubled_up_to(n: nat, p: nat)
    requires
        is_power_of_two(p),
        p < 2 * n || p == 1,
    ensures
        is_power_of_two(doubled_up_to(n, p)),
        doubled_up_to(n, p) >= n,
        doubled_up_to(n, p) >= p,
        doubled_up_to(n, p) < 2 * n || doubled_up_to(n, p) == 1,
    decreases n - p,
{
    if p >= n {
    } else {
        assert(is_power_of_two(2 * p)) by {
            assert((2 * p) / 2 == p);
        }
        if 2 * p < n {
            lemma_doubled_up_to(n, 2 * p);
        }
    }
}

/// The next power of two is a power of two, it is at least `n`, and the
/// power below it is less than `n`.
pub proof fn lemma_next_power_of_two(n: nat)
    ensures
        is_power_of_two(next_power_of_two(n)),
        next_power_of_two(n) >= n,
        next_power_of_two(n) >= 1,
        n >= 1 ==> next_power_of_two(n) < 2 * n,
{
    lemma_doubled_up_to(n, 1);
}

proof fn lemma_no_multiple_between(low: int, stride: int, height: int)
    by (nonlinear_arith)
    requires
        stride > 0,
        low % stride == 0,
        low < height < low + stride,
    ensures
        height % stride != 0,
{
    let a = low / stride;
    let b = height / stride;
    assert(low == stride * a + low % stride);
    assert(height == stride * b + height % stride);
    if height % stride == 0 {
        assert(stride * a < stride * b);
        assert(stride * b < stride * (a + 1));
        assert(a < b);
        assert(b < a + 1);
    }
}

proof fn lemma_next_multiple(low: int, stride: int)
    by (nonlinear_arith)
    requires
        stride > 0,
        low % stride == 0,
    ensures
        (low + stride) % stride == 0,
{
    let a = low / stride;
    assert(low == stride * a + low % stride);
    assert(low + stride == stride * (a + 1));
    assert((stride * (a + 1)) % stride == 0);
}

proof fn lemma_first_multiple(start: int, stride: int)
    by (nonlinear_arith)
    requires
        stride > 0,
        start >= 0,
    ensures
        (((start + stride - 1) / stride) * stride) % stride == 0,
        start <= ((start + stride - 1) / stride) * stride < start + stride,
{
    let t = start + stride - 1;
    let q = t / stride;
    assert(t == stride * q + t % stride);
    assert(0 <= t % stride < stride);
    assert((q * stride) % stride == 0);
}

proof fn lemma_contains_after_push(heights: Seq<u64>, last: u64)
    ensures
        forall|h: u64| heights.push(last).contains(h) <==> (heights.contains(h) || h == last),
{
    let pushed = heights.push(last);
    assert forall|h: u64| pushed.contains(h) <==> (heights.contains(h) || h == last) by {
        if pushed.contains(h) {
            let i = choose|i: int| 0 <= i < pushed.len() && pushed[i] == h;
            if i < heights.len() {
                assert(heights[i] == h);
            }
        }
        if heights.contains(h) {
            let i = choose|i: int| 0 <= i < heights.len() && heights[i] == h;
            assert(pushed[i] == h);
        }
        if h == last {
            assert(pushed[heights.len() as int] == h);
        }
    }
}

/// The stride for a range and a wanted number of samples.
fn stride_between(start: u64, end: u64, approx_count: u64) -> (stride: u128)
    requires
        start <= end,
        approx_count > 0,
    ensures
        stride == sample_stride(start, end, approx_count),
        1 <= stride <= 0x1_0000_0000_0000_0000,
{
    let quotient = (end - start) / approx_count;
    let wanted: u128 = if quotient < 1 {
        1
    } else {
        quotient as u128
    };
    let mut stride: u128 = 1;
    let ghost mut exponent: nat = 0;
    proof {
        lemma2_to64();
    }
    while stride < wanted
        invariant
            1 <= wanted <= u64::MAX,
            exponent <= 64,
            stride == pow2(exponent),
            1 <= stride < 2 * wanted,
            doubled_up_to(wanted as nat, stride as nat) == next_power_of_two(wanted as nat),
        decreases 2 * wanted - stride,
    {
        proof {
            lemma2_to64();
            if exponent >= 64 {
                if exponent > 64 {
                    lemma_pow2_strictly_increases(64, exponent);
                }
                assert(false);
            }
            lemma_pow2_unfold(exponent + 1);
            exponent = exponent + 1;
        }
        stride = stride * 2;
    }
    proof {
        lemma2_to64();
        if exponent < 64 {
            lemma_pow2_strictly_increases(exponent, 64);
        }
    }
    stride
}

/// Interpolates between two heights in a cache-friendly fashion: every
/// multiple of the stride within `[start, end]`, and `end` itself, in
/// increasing order and each once.
pub fn interpolate_between(start: u64, end: u64, approx_count: u64) -> (heights: Vec<u64>)
    requires
        start <= end,
        approx_count > 0,
    ensures
        is_sampling(start, end, approx_count, heights@),
{
    let stride = stride_between(start, end, approx_count);
    let mut heights: Vec<u64> = Vec::new();
    proof {
        lemma_first_multiple(start as int, stride as int);
    }
    let mut next: u128 = ((start as u128 + stride - 1) / stride) * stride;
    proof {
        assert forall|h: u64| start <= h < next implies !#[trigger] is_multiple(
            h as int,
            stride as int,
        ) by {
            if h as int % stride as int == 0 {
                lemma_next_multiple(h as int, stride as int);
                if h + stride < next {
                } else {
                    lemma_no_multiple_between(h as int, stride as int, next as int);
                }
                lemma_no_multiple_between(next - stride, stride as int, h as int);
            }
        }
    }
    while next <= end as u128
        invariant
            start <= end,
            1 <= stride <= 0x1_0000_0000_0000_0000,
            stride == sample_stride(start, end, approx_count),
            is_multiple(next as int, stride as int),
            start <= next <= end + stride,
            strictly_increasing(heights@),
            forall|i: int| 0 <= i < heights@.len() ==> heights@[i] < next && heights@[i] <= end,
            forall|h: u64|
                #[trigger] heights@.contains(h) <==> (start <= h < next && is_multiple(
                    h as int,
                    stride as int,
                )),
        decreases end + stride - next,
    {
        let ghost before = heights@;
        let height = next as u64;
        heights.push(height);
        proof {
            lemma_contains_after_push(before, height);
            lemma_next_multiple(next as int, stride as int);
            assert forall|h: u64| #[trigger]
                heights@.contains(h) <==> (start <= h < next + stride && is_multiple(
                    h as int,
                    stride as int,
                )) by {
                assert(heights@.contains(h) <==> (before.contains(h) || h == height));
                if next < h < next + stride {
                    lemma_no_multiple_between(next as int, stride as int, h as int);
                }
            }
        }
        next = next + stride;
    }
    if end as u128 % stride != 0 {
        let ghost before = heights@;
        proof {
            assert(!is_multiple(end as int, stride as int));
            assert(!before.contains(end));
        }
        heights.push(end);
        proof {
            lemma_contains_after_push(before, end);
            assert forall|h: u64| #[trigger]
                heights@.contains(h) <==> is_sample(start, end, approx_count, h) by {
                assert(heights@.contains(h) <==> (before.contains(h) || h == end));
                if before.contains(h) {
                    let i = choose|i: int| 0 <= i < before.len() && before[i] == h;
                    assert(before[i] <= end);
                }
            }
        }
    } else {
        proof {
            assert(is_multiple(end as int, stride as int));
            assert forall|h: u64| #[trigger]
                heights@.contains(h) <==> is_sample(start, end, approx_count, h) by {
                if heights@.contains(h) {
                    let i = choose|i: int| 0 <= i < heights@.len() && heights@[i] == h;
                    assert(heights@[i] <= end);
                }
            }
        }
    }
    heights
}

/// `heights` is the sampling of `[start, end]`: the sampled heights, each
/// once, in increasing order.
pub open spec fn is_sampling(start: u64, end: u64, approx_count: u64, heights: Seq<u64>) -> bool {
    &&& strictly_increasing(heights)
    &&& forall|h: u64| #[trigger] heights.contains(h) <==> is_sample(start, end, approx_count, h)
}

proof fn lemma_increasing_same_elements(a: Seq<u64>, b: Seq<u64>)
    requires
        strictly_increasing(a),
        strictly_increasing(b),
        forall|h: u64| #[trigger] a.contains(h) <==> b.contains(h),
    ensures
        a == b,
    decreases a.len(),
{
    if a.len() == 0 {
        if b.len() > 0 {
            assert(b.contains(b[0]));
            assert(a.contains(b[0]));
        }
        assert(a =~= b);
    } else {
        let top = a.last();
        assert(a.contains(top));
        assert(b.contains(top));
        let i = choose|i: int| 0 <= i < b.len() && b[i] == top;
        assert(b.contains(b.last()));
        assert(a.contains(b.last()));
        let j = choose|j: int| 0 <= j < a.len() && a[j] == b.last();
        assert(b.last() == top);
        let a0 = a.drop_last();
        let b0 = b.drop_last();
        assert forall|h: u64| #[trigger] a0.contains(h) <==> b0.contains(h) by {
            if a0.contains(h) {
                let k = choose|k: int| 0 <= k < a0.len() && a0[k] == h;
                assert(a[k] == h);
                assert(a.contains(h));
                let m = choose|m: int| 0 <= m < b.len() && b[m] == h;
                assert(h < top);
                assert(b0[m] == h);
            }
            if b0.contains(h) {
                let k = choose|k: int| 0 <= k < b0.len() && b0[k] == h;
                assert(b[k] == h);
                assert(b.contains(h));
                assert(a.contains(h) <==> b.contains(h));
                let m = choose|m: int| 0 <= m < a.len() && a[m] == h;
                assert(h < top);
                assert(a0[m] == h);
            }
        }
        lemma_increasing_same_elements(a0, b0);
        assert(a =~= a0.push(top));
        assert(b =~= b0.push(top));
    }
}

/// Sampling is deterministic: a range and a wanted number of samples have
/// one sampling, so that two calls with the same three numbers return the
/// same heights in the same order.
pub proof fn lemma_sampling_deterministic(
    start: u64,
    end: u64,
    approx_count: u64,
    first: Seq<u64>,
    second: Seq<u64>,
)
    requires
        is_sampling(start, end, approx_count, first),
        is_sampling(start, end, approx_count, second),
    ensures
        first == second,
{
    assert forall|h: u64| #[trigger] first.contains(h) <==> second.contains(h) by {
        assert(first.contains(h) <==> is_sample(start, end, approx_count, h));
        assert(second.contains(h) <==> is_sample(start, end, approx_count, h));
    }
    lemma_increasing_same_elements(first, second);
}

/// The inputs of a mapping after the first pass: the results that were
/// there at once, each in the place of its input, and the handles of those
/// still to be waited for, each with the place of its input.
pub struct Classified<U, P> {
    pub ready: Vec<Option<U>>,
    pub pending: Vec<(usize, P)>,
}

/// `classified` is what the first pass of `f` over `inputs` can leave.
pub open spec fn classifies<T, U, P, F: Fn(T) -> Result<U, P>>(
    inputs: Seq<T>,
    f: F,
    ready: Seq<Option<U>>,
    pending: Seq<(usize, P)>,
) -> bool {
    &&& ready.len() == inputs.len()
    &&& forall|i: int|
        0 <= i < ready.len() ==> ((#[trigger] ready[i]) matches Some(u) ==> call_ensures(
            f,
            (inputs[i],),
            Ok(u),
        ))
    &&& forall|k: int|
        0 <= k < pending.len() ==> {
            &&& (#[trigger] pending[k]).0 < ready.len()
            &&& ready[pending[k].0 as int] is None
            &&& call_ensures(f, (inputs[pending[k].0 as int],), Err(pending[k].1))
        }
    &&& forall|k1: int, k2: int|
        0 <= k1 < k2 < pending.len() ==> (#[trigger] pending[k1]).0 < (#[trigger] pending[k2]).0
    &&& forall|i: int|
        0 <= i < ready.len() && (#[trigger] ready[i]) is None ==> exists|k: int|
            0 <= k < pending.len() && (#[trigger] pending[k]).0 == i
}

/// First pass of the mapper: applies `f` to every input, in order, and
/// sorts what comes back into results and handles. Nothing is waited for.
pub fn classify<T, U, P, F: Fn(T) -> Result<U, P>>(v: Vec<T>, f: F) -> (classified: Classified<
    U,
    P,
>)
    requires
        forall|i: int| 0 <= i < v@.len() ==> call_requires(f, (#[trigger] v@[i],)),
    ensures
        classifies(v@, f, classified.ready@, classified.pending@),
{
    let mut ready: Vec<Option<U>> = Vec::new();
    let mut pending: Vec<(usize, P)> = Vec::new();
    for input in it: v.into_iter()
        invariant
            it.seq() == v@,
            forall|i: int| 0 <= i < v@.len() ==> call_requires(f, (#[trigger] v@[i],)),
            ready@.len() == it.index(),
            classifies(v@.take(it.index() as int), f, ready@, pending@),
    {
        let ghost n = it.index() as int;
        let ghost ready_before = ready@;
        let ghost pending_before = pending@;
        assert(v@[n] == input);
        let place = ready.len();
        match f(input) {
            Ok(result) => {
                ready.push(Some(result));
            },
            Err(handle) => {
                ready.push(None);
                pending.push((place, handle));
            },
        }
        proof {
            let inputs = v@.take(n + 1);
            assert forall|i: int| 0 <= i < ready@.len() implies ((#[trigger] ready@[i]) matches Some(
                u,
            ) ==> call_ensures(f, (inputs[i],), Ok(u))) by {
                if i < n {
                    assert(ready@[i] == ready_before[i]);
                    assert(inputs[i] == v@.take(n)[i]);
                }
            }
            assert forall|k: int| 0 <= k < pending@.len() implies {
                &&& (#[trigger] pending@[k]).0 < ready@.len()
                &&& ready@[pending@[k].0 as int] is None
                &&& call_ensures(f, (inputs[pending@[k].0 as int],), Err(pending@[k].1))
            } by {
                if k < pending_before.len() {
                    assert(pending@[k] == pending_before[k]);
                    let i = pending_before[k].0 as int;
                    assert(ready@[i] == ready_before[i]);
                    assert(inputs[i] == v@.take(n)[i]);
                }
            }
            assert forall|k1: int, k2: int| 0 <= k1 < k2 < pending@.len() implies (
            #[trigger] pending@[k1]).0 < (#[trigger] pending@[k2]).0 by {
                assert(pending@[k1] == pending_before[k1]);
                if k2 < pending_before.len() {
                    assert(pending@[k2] == pending_before[k2]);
                }
            }
            assert forall|i: int| 0 <= i < ready@.len() && (#[trigger] ready@[i]) is None implies exists|
                k: int,
            |
                0 <= k < pending@.len() && (#[trigger] pending@[k]).0 == i by {
                if i < n {
                    assert(ready@[i] == ready_before[i]);
                    let k = choose|k: int|
                        0 <= k < pending_before.len() && (#[trigger] pending_before[k]).0 == i;
                    assert(pending@[k] == pending_before[k]);
                } else {
                    assert(pending@[pending@.len() - 1].0 == i);
                }
            }
        }
    }
    assert(v@.take(v@.len() as int) =~= v@);
    Classified { ready, pending }
}

/// The completed results fill exactly the places that the first pass left
/// open: each names an open place, no place is named twice, and no open
/// place is left out.
pub open spec fn fills<U>(ready: Seq<Option<U>>, completed: Seq<(usize, U)>) -> bool {
    &&& forall|k: int|
        0 <= k < completed.len() ==> (#[trigger] completed[k]).0 < ready.len()
            && ready[completed[k].0 as int] is None
    &&& forall|k1: int, k2: int|
        0 <= k1 < k2 < completed.len() ==> (#[trigger] completed[k1]).0 != (
        #[trigger] completed[k2]).0
    &&& forall|i: int|
        0 <= i < ready.len() && (#[trigger] ready[i]) is None ==> exists|k: int|
            0 <= k < completed.len() && (#[trigger] completed[k]).0 == i
}

/// `out` holds every result in the place of its input.
pub open spec fn assembled<U>(ready: Seq<Option<U>>, completed: Seq<(usize, U)>, out: Seq<U>) -> bool {
    &&& out.len() == ready.len()
    &&& forall|i: int|
        0 <= i < ready.len() ==> ((#[trigger] ready[i]) matches Some(u) ==> out[i] == u)
    &&& forall|k: int|
        0 <= k < completed.len() ==> out[(#[trigger] completed[k]).0 as int] == completed[k].1
}

/// Last pass of the mapper: puts the results that were waited for, in
/// whatever order they completed, back into the places of their inputs.
/// `None` where they do not fill the open places exactly.
pub fn reassemble<U>(ready: Vec<Option<U>>, completed: Vec<(usize, U)>) -> (out: Option<Vec<U>>)
    ensures
        out is Some <==> fills(ready@, completed@),
        out matches Some(v) ==> assembled(ready@, completed@, v@),
{
    let mut slots = ready;
    for item in it: completed.into_iter()
        invariant
            it.seq() == completed@,
            slots@.len() == ready@.len(),
            forall|j: int|
                0 <= j < it.index() ==> {
                    &&& (#[trigger] completed@[j]).0 < ready@.len()
                    &&& ready@[completed@[j].0 as int] is None
                    &&& slots@[completed@[j].0 as int] == Some(completed@[j].1)
                },
            forall|j1: int, j2: int|
                0 <= j1 < j2 < it.index() ==> (#[trigger] completed@[j1]).0 != (
                #[trigger] completed@[j2]).0,
            forall|i: int|
                0 <= i < ready@.len() ==> (#[trigger] slots@[i] == ready@[i] || exists|j: int|
                    0 <= j < it.index() && (#[trigger] completed@[j]).0 == i),
    {
        let ghost n = it.index() as int;
        let ghost slots_before = slots@;
        assert(completed@[n] == item);
        let (place, result) = item;
        if place >= slots.len() {
            return None;
        }
        if slots[place].is_some() {
            proof {
                if fills(ready@, completed@) {
                    assert(ready@[completed@[n].0 as int] is None);
                    let j = choose|j: int| 0 <= j < n && (#[trigger] completed@[j]).0 == place;
                    assert(completed@[j].0 != completed@[n].0);
                }
            }
            return None;
        }
        slots.set(place, Some(result));
        proof {
            assert forall|j: int| 0 <= j < n + 1 implies {
                &&& (#[trigger] completed@[j]).0 < ready@.len()
                &&& ready@[completed@[j].0 as int] is None
                &&& slots@[completed@[j].0 as int] == Some(completed@[j].1)
            } by {
                if j < n {
                    assert(slots_before[completed@[j].0 as int] == Some(completed@[j].1));
                }
            }
            assert forall|i: int| 0 <= i < ready@.len() implies (#[trigger] slots@[i] == ready@[i]
                || exists|j: int| 0 <= j < n + 1 && (#[trigger] completed@[j]).0 == i) by {
                if i == place {
                    assert(completed@[n].0 == i);
                } else if slots_before[i] != ready@[i] {
                    let j = choose|j: int| 0 <= j < n && (#[trigger] completed@[j]).0 == i;
                    assert(completed@[j].0 == i);
                }
            }
        }
    }
    let ghost filled = slots@;
    let mut out: Vec<U> = Vec::new();
    for slot in it: slots.into_iter()
        invariant
            it.seq() == filled,
            filled == slots@,
            out@.len() == it.index(),
            forall|i: int| 0 <= i < it.index() ==> #[trigger] filled[i] == Some(out@[i]),
            filled.len() == ready@.len(),
            forall|j: int|
                0 <= j < completed@.len() ==> {
                    &&& (#[trigger] completed@[j]).0 < ready@.len()
                    &&& ready@[completed@[j].0 as int] is None
                    &&& filled[completed@[j].0 as int] == Some(completed@[j].1)
                },
            forall|i: int|
                0 <= i < ready@.len() ==> (#[trigger] filled[i] == ready@[i] || exists|j: int|
                    0 <= j < completed@.len() && (#[trigger] completed@[j]).0 == i),
    {
        let ghost n = it.index() as int;
        assert(filled[n] == slot);
        match slot {
            None => {
                proof {
                    if fills(ready@, completed@) {
                        if filled[n] == ready@[n] {
                            assert(ready@[n] is None);
                        }
                        let j = choose|j: int|
                            0 <= j < completed@.len() && (#[trigger] completed@[j]).0 == n;
                        assert(filled[completed@[j].0 as int] == Some(completed@[j].1));
                    }
                }
                return None;
            },
            Some(result) => {
                out.push(result);
            },
        }
    }
    proof {
        assert forall|i: int| 0 <= i < ready@.len() implies ((#[trigger] ready@[i]) matches Some(u)
            ==> out@[i] == u) by {
            assert(filled[i] == Some(out@[i]));
            if ready@[i] is Some && filled[i] != ready@[i] {
                let j = choose|j: int|
                    0 <= j < completed@.len() && (#[trigger] completed@[j]).0 == i;
                assert(ready@[completed@[j].0 as int] is None);
            }
        }
        assert forall|k: int| 0 <= k < completed@.len() implies out@[(
        #[trigger] completed@[k]).0 as int] == completed@[k].1 by {
            let i = completed@[k].0 as int;
            assert(filled[i] == Some(out@[i]));
        }
        assert forall|i: int| 0 <= i < ready@.len() && (#[trigger] ready@[i]) is None implies exists|
            k: int,
        |
            0 <= k < completed@.len() && (#[trigger] completed@[k]).0 == i by {
            assert(filled[i] == Some(out@[i]));
        }
    }
    Some(out)
}

/// `output` is what mapping `input` can give: the result that `f` had at
/// once, or what waiting gave for the handle that `f` returned.
pub open spec fn maps_to<T, U, P, F: Fn(T) -> Result<U, P>, W: Fn(P) -> U>(
    f: F,
    wait: W,
    input: T,
    output: U,
) -> bool {
    ||| call_ensures(f, (input,), Ok(output))
    ||| exists|handle: P|
        call_ensures(f, (input,), Err(handle)) && call_ensures(wait, (handle,), output)
}

/// `item` is what waiting gave for one of the handles of `pending`, with
/// the place of that handle.
pub open spec fn is_completion<U, P, W: Fn(P) -> U>(
    wait: W,
    pending: Seq<(usize, P)>,
    item: (usize, U),
) -> bool {
    exists|j: int|
        0 <= j < pending.len() && (#[trigger] pending[j]).0 == item.0 && call_ensures(
            wait,
            (pending[j].1,),
            item.1,
        )
}

/// The mapper preserves the order of its inputs, in whatever order the
/// waiting ends. Let the first pass leave `ready` and `pending`, let
/// `completed` hold what waiting gave for the handles, in any order, and
/// let `out` be these put back into place. Then `out` has a result for
/// every input, in the order of the inputs, and each is what mapping its
/// input can give.
pub proof fn lemma_mapper_keeps_order<T, U, P, F: Fn(T) -> Result<U, P>, W: Fn(P) -> U>(
    inputs: Seq<T>,
    f: F,
    wait: W,
    ready: Seq<Option<U>>,
    pending: Seq<(usize, P)>,
    completed: Seq<(usize, U)>,
    out: Seq<U>,
)
    requires
        classifies(inputs, f, ready, pending),
        forall|k: int| 0 <= k < completed.len() ==> is_completion(wait, pending, #[trigger] completed[k]),
        fills(ready, completed),
        assembled(ready, completed, out),
    ensures
        out.len() == inputs.len(),
        forall|i: int| 0 <= i < inputs.len() ==> maps_to(f, wait, inputs[i], #[trigger] out[i]),
{
    assert forall|i: int| 0 <= i < inputs.len() implies maps_to(f, wait, inputs[i], #[trigger] out[i]) by {
        match ready[i] {
            Some(u) => {},
            None => {
                let k = choose|k: int| 0 <= k < completed.len() && (#[trigger] completed[k]).0 == i;
                assert(is_completion(wait, pending, completed[k]));
                let j = choose|j: int|
                    0 <= j < pending.len() && (#[trigger] pending[j]).0 == completed[k].0
                        && call_ensures(wait, (pending[j].1,), completed[k].1);
                assert(call_ensures(f, (inputs[pending[j].0 as int],), Err(pending[j].1)));
                assert(out[completed[k].0 as int] == completed[k].1);
            },
        }
    }
}

/// Results that were waited for handle by handle, each kept with the
/// place of its handle, fill exactly the places that the first pass left
/// open.
pub proof fn lemma_waited_fills<T, U, P, F: Fn(T) -> Result<U, P>>(
    inputs: Seq<T>,
    f: F,
    ready: Seq<Option<U>>,
    pending: Seq<(usize, P)>,
    completed: Seq<(usize, U)>,
)
    requires
        classifies(inputs, f, ready, pending),
        completed.len() == pending.len(),
        forall|k: int| 0 <= k < completed.len() ==> (#[trigger] completed[k]).0 == pending[k].0,
    ensures
        fills(ready, completed),
{
    assert forall|k: int| 0 <= k < completed.len() implies (#[trigger] completed[k]).0
        < ready.len() && ready[completed[k].0 as int] is None by {
        assert(pending[k].0 < ready.len());
    }
    assert forall|k1: int, k2: int| 0 <= k1 < k2 < completed.len() implies (
    #[trigger] completed[k1]).0 != (#[trigger] completed[k2]).0 by {
        assert(pending[k1].0 < pending[k2].0);
    }
    assert forall|i: int| 0 <= i < ready.len() && (#[trigger] ready[i]) is None implies exists|
        k: int,
    |
        0 <= k < completed.len() && (#[trigger] completed[k]).0 == i by {
        let k = choose|k: int| 0 <= k < pending.len() && (#[trigger] pending[k]).0 == i;
        assert(completed[k].0 == i);
    }
}

/// Maps `f` over a vector, waiting only where `f` could not answer at
/// once. `f` is applied to every input, in order, before anything is
/// waited for, so that what it started runs side by side; then each handle
/// is waited for, and the results come back in the order of the inputs.
pub fn fast_async_map<T, U, P, F: Fn(T) -> Result<U, P>, W: Fn(P) -> U>(
    v: Vec<T>,
    f: F,
    wait: W,
) -> (out: Vec<U>)
    requires
        forall|i: int| 0 <= i < v@.len() ==> call_requires(f, (#[trigger] v@[i],)),
        forall|i: int, handle: P|
            0 <= i < v@.len() && call_ensures(f, (v@[i],), Err(handle)) ==> call_requires(
                wait,
                (handle,),
            ),
    ensures
        out@.len() == v@.len(),
        forall|i: int| 0 <= i < v@.len() ==> maps_to(f, wait, v@[i], #[trigger] out@[i]),
{
    let ghost mapper = f;
    let Classified { ready, pending } = classify(v, f);
    let mut completed: Vec<(usize, U)> = Vec::new();
    for item in it: pending.into_iter()
        invariant
            it.seq() == pending@,
            classifies(v@, mapper, ready@, pending@),
            forall|i: int, handle: P|
                0 <= i < v@.len() && call_ensures(mapper, (v@[i],), Err(handle)) ==> call_requires(
                    wait,
                    (handle,),
                ),
            completed@.len() == it.index(),
            forall|k: int|
                0 <= k < it.index() ==> (#[trigger] completed@[k]).0 == pending@[k].0
                    && call_ensures(wait, (pending@[k].1,), completed@[k].1),
    {
        let ghost n = it.index() as int;
        assert(pending@[n] == item);
        let (place, handle) = item;
        let result = wait(handle);
        completed.push((place, result));
    }
    proof {
        lemma_waited_fills(v@, mapper, ready@, pending@, completed@);
        assert forall|k: int| 0 <= k < completed@.len() implies is_completion(
            wait,
            pending@,
            #[trigger] completed@[k],
        ) by {
            assert(pending@[k].0 == completed@[k].0);
        }
    }
    match reassemble(ready, completed) {
        Some(out) => {
            proof {
                lemma_mapper_keeps_order(v@, mapper, wait, ready@, pending@, completed@, out@);
            }
            out
        },
        None => unreached(),
    }
}

} // verus!
