//! Graph data over a range of heights: which heights are sampled, when
//! each was, and what value each has.

use vstd::prelude::*;
use crate::graphs::helpers::{
    classifies, classify, interpolate_between, is_sample, is_sampling,
    lemma_sampling_deterministic, lemma_waited_fills, reassemble,
    Classified,
};
use crate::structs::{BlockHeight, Denom};

pub mod helpers;

verus! {

/// Seconds between two consecutive blocks.
pub const BLOCK_PERIOD_SECS: u64 = 30;

/// Unix time, in seconds, of the block at height zero.
pub const GENESIS_EPOCH_SECS: u64 = 1618365600;

/// A Unix time in seconds, read as an unsigned number of 64 bits: a time
/// before 1970 wraps around.
pub open spec fn unsigned_seconds(secs: i64) -> int {
    if secs < 0 {
        secs + 0x1_0000_0000_0000_0000
    } else {
        secs as int
    }
}

/// The height of the block that was current at a time: the periods that
/// have passed since the block at height zero, none before it.
pub open spec fn height_at(secs: i64) -> int {
    let unsigned = unsigned_seconds(secs);
    if unsigned < GENESIS_EPOCH_SECS {
        0
    } else {
        (unsigned - GENESIS_EPOCH_SECS) / (BLOCK_PERIOD_SECS as int)
    }
}

/// The time of the block at a height: block period times height, plus the
/// time of the block at height zero.
pub open spec fn time_of(height: BlockHeight) -> int {
    height * BLOCK_PERIOD_SECS + GENESIS_EPOCH_SECS
}

/// Converts a time, in Unix seconds, to a block height.
pub fn datetime_to_height(secs: i64) -> (height: BlockHeight)
    ensures
        height == height_at(secs),
{
    let unsigned: u64 = if secs < 0 {
        u64::MAX - ((-(secs + 1)) as u64)
    } else {
        secs as u64
    };
    if unsigned < GENESIS_EPOCH_SECS {
        0
    } else {
        (unsigned - GENESIS_EPOCH_SECS) / BLOCK_PERIOD_SECS
    }
}

/// Converts a block height to a time, in Unix seconds.
pub fn height_to_datetime(height: BlockHeight) -> (secs: i64)
    requires
        time_of(height) <= i64::MAX,
    ensures
        secs == time_of(height),
{
    (height * BLOCK_PERIOD_SECS + GENESIS_EPOCH_SECS) as i64
}

/// Converts a block height to a time, in Unix seconds; `None` where the
/// time does not fit in a signed number of 64 bits.
pub fn checked_height_to_datetime(height: BlockHeight) -> (secs: Option<i64>)
    ensures
        secs == (if time_of(height) <= i64::MAX {
            Some(time_of(height) as i64)
        } else {
            None
        }),
{
    match height.checked_mul(BLOCK_PERIOD_SECS) {
        None => None,
        Some(scaled) => match scaled.checked_add(GENESIS_EPOCH_SECS) {
            None => None,
            Some(secs) => if secs <= 0x7fff_ffff_ffff_ffff {
                Some(secs as i64)
            } else {
                None
            },
        },
    }
}

/// One point of a graph: a height, the time of its block in Unix seconds,
/// and the value of the series there. The time is held in a number wide
/// enough for the time of every height.
#[derive(Debug)]
pub struct GraphDatum<V> {
    pub height: BlockHeight,
    pub date: i128,
    pub value: V,
}

/// The heights of a sequence of points.
pub open spec fn heights_of<V>(data: Seq<GraphDatum<V>>) -> Seq<u64> {
    Seq::new(data.len(), |i: int| data[i].height)
}

/// `value` is what the series can have at `height`: the value that
/// `lookup` had at once, or what waiting gave for the handle it returned.
pub open spec fn resolves_to<V, P, E, L: Fn(BlockHeight) -> Result<V, P>, W: Fn(P) -> Result<V, E>>(
    lookup: L,
    wait: W,
    height: BlockHeight,
    value: V,
) -> bool {
    ||| call_ensures(lookup, (height,), Ok(value))
    ||| exists|handle: P|
        call_ensures(lookup, (height,), Err(handle)) && call_ensures(wait, (handle,), Ok(value))
}

/// Waiting for a value of the series at `height` can fail with `e`.
pub open spec fn fails_at<V, P, E, L: Fn(BlockHeight) -> Result<V, P>, W: Fn(P) -> Result<V, E>>(
    lookup: L,
    wait: W,
    height: BlockHeight,
    e: E,
) -> bool {
    exists|handle: P|
        call_ensures(lookup, (height,), Err(handle)) && call_ensures(
            wait,
            (handle,),
            Err::<V, E>(e),
        )
}

/// Waiting for a value of the series can fail with `e` at a sampled height.
pub open spec fn fails_within<
    V,
    P,
    E,
    L: Fn(BlockHeight) -> Result<V, P>,
    W: Fn(P) -> Result<V, E>,
>(lookup: L, wait: W, start: BlockHeight, end: BlockHeight, approx_count: u64, e: E) -> bool {
    exists|h: u64|
        is_sample(start, end, approx_count, h) && #[trigger] fails_at(lookup, wait, h, e)
}

/// Given a range of heights, returns the points of a graph over it.
///
/// The heights are those that [`interpolate_between`] samples. `lookup`
/// is asked for each of them, in order: it answers with the value, where
/// it has it at hand, or with a handle to wait for. Only when every
/// height has been asked about is anything waited for, handle by handle;
/// the first failure ends the call and is returned. Every point carries
/// the time of its height.
pub fn graph_range<V, P, E, L: Fn(BlockHeight) -> Result<V, P>, W: Fn(P) -> Result<V, E>>(
    start: BlockHeight,
    end: BlockHeight,
    approx_count: usize,
    lookup: L,
    wait: W,
) -> (graph: Result<Vec<GraphDatum<V>>, E>)
    requires
        start <= end,
        approx_count > 0,
        forall|height: u64|
            is_sample(start, end, approx_count as u64, height) ==> call_requires(lookup, (height,)),
        forall|height: u64, handle: P|
            is_sample(start, end, approx_count as u64, height) && #[trigger] call_ensures(
                lookup,
                (height,),
                Err::<V, P>(handle),
            ) ==> call_requires(wait, (handle,)),
    ensures
        match graph {
            Ok(data) => {
                &&& is_sampling(start, end, approx_count as u64, heights_of(data@))
                &&& forall|i: int|
                    0 <= i < data@.len() ==> {
                        &&& (#[trigger] data@[i]).date == time_of(data@[i].height)
                        &&& resolves_to(lookup, wait, data@[i].height, data@[i].value)
                    }
            },
            Err(e) => fails_within(lookup, wait, start, end, approx_count as u64, e),
        },
{
    let heights = interpolate_between(start, end, approx_count as u64);
    let asked = heights.clone();
    assert(asked@ =~= heights@);
    assert forall|i: int| 0 <= i < asked@.len() implies call_requires(
        lookup,
        (#[trigger] asked@[i],),
    ) by {
        assert(heights@.contains(asked@[i]));
    }
    let ghost series = lookup;
    let Classified { ready, pending } = classify(asked, lookup);
    let mut completed: Vec<(usize, V)> = Vec::new();
    for item in it: pending.into_iter()
        invariant
            it.seq() == pending@,
            series == lookup,
            classifies(heights@, series, ready@, pending@),
            forall|height: u64, handle: P|
                is_sample(start, end, approx_count as u64, height) && #[trigger] call_ensures(
                    series,
                    (height,),
                    Err::<V, P>(handle),
                ) ==> call_requires(wait, (handle,)),
            forall|h: u64| #[trigger]
                heights@.contains(h) <==> is_sample(start, end, approx_count as u64, h),
            completed@.len() == it.index(),
            forall|k: int|
                0 <= k < it.index() ==> (#[trigger] completed@[k]).0 == pending@[k].0
                    && call_ensures(wait, (pending@[k].1,), Ok::<V, E>(completed@[k].1)),
    {
        let ghost n = it.index() as int;
        assert(pending@[n] == item);
        let (place, handle) = item;
        proof {
            let h = heights@[place as int];
            assert(heights@.contains(h));
            assert(call_ensures(series, (h,), Err::<V, P>(pending@[n].1)));
        }
        match wait(handle) {
            Err(e) => {
                proof {
                    let h = heights@[place as int];
                    assert(call_ensures(wait, (pending@[n].1,), Err::<V, E>(e)));
                    assert(fails_at(series, wait, h, e));
                    assert(fails_within(series, wait, start, end, approx_count as u64, e));
                }
                return Err(e);
            },
            Ok(value) => {
                completed.push((place, value));
            },
        }
    }
    proof {
        lemma_waited_fills(heights@, series, ready@, pending@, completed@);
    }
    let values = match reassemble(ready, completed) {
        Some(values) => values,
        None => unreached(),
    };
    proof {
        assert forall|i: int| 0 <= i < heights@.len() implies resolves_to(
            series,
            wait,
            heights@[i],
            #[trigger] values@[i],
        ) by {
            match ready@[i] {
                Some(u) => {},
                None => {
                    let k = choose|k: int| 0 <= k < pending@.len() && (#[trigger] pending@[k]).0 == i;
                    assert(completed@[k].0 == i);
                    assert(call_ensures(series, (heights@[i],), Err::<V, P>(pending@[k].1)));
                    assert(call_ensures(wait, (pending@[k].1,), Ok::<V, E>(values@[i])));
                },
            }
        }
    }
    let mut data: Vec<GraphDatum<V>> = Vec::new();
    let mut place: usize = 0;
    let count = heights.len();
    for value in it: values.into_iter()
        invariant
            it.seq() == values@,
            values@.len() == count,
            heights@.len() == count,
            place == it.index(),
            data@.len() == place,
            forall|h: u64| #[trigger]
                heights@.contains(h) <==> is_sample(start, end, approx_count as u64, h),
            forall|i: int|
                0 <= i < heights@.len() ==> resolves_to(
                    series,
                    wait,
                    heights@[i],
                    #[trigger] values@[i],
                ),
            forall|i: int|
                0 <= i < place ==> {
                    &&& (#[trigger] data@[i]).height == heights@[i]
                    &&& data@[i].date == time_of(data@[i].height)
                    &&& data@[i].value == values@[i]
                },
    {
        let height = heights[place];
        let date: i128 = (height as i128) * (BLOCK_PERIOD_SECS as i128)
            + (GENESIS_EPOCH_SECS as i128);
        data.push(GraphDatum { height, date, value });
        place = place + 1;
    }
    assert(heights_of(data@) =~= heights@);
    Ok(data)
}

/// Two graphs over the same range, asked for with the same number of
/// points, have the same heights in the same order, whatever the series
/// had at hand and whatever was waited for.
pub proof fn lemma_graph_heights_deterministic<V>(
    start: BlockHeight,
    end: BlockHeight,
    approx_count: u64,
    first: Seq<GraphDatum<V>>,
    second: Seq<GraphDatum<V>>,
)
    requires
        is_sampling(start, end, approx_count, heights_of(first)),
        is_sampling(start, end, approx_count, heights_of(second)),
    ensures
        heights_of(first) == heights_of(second),
        first.len() == second.len(),
        forall|i: int| 0 <= i < first.len() ==> (#[trigger] first[i]).height == second[i].height,
{
    lemma_sampling_deterministic(start, end, approx_count, heights_of(first), heights_of(second));
    assert(heights_of(first).len() == first.len());
    assert(heights_of(second).len() == second.len());
    assert forall|i: int| 0 <= i < first.len() implies (#[trigger] first[i]).height
        == second[i].height by {
        assert(heights_of(first)[i] == first[i].height);
        assert(heights_of(second)[i] == second[i].height);
    }
}

/// The series that can be drawn.
#[derive(Clone, Copy, Debug, PartialEq, Eq)]
pub enum GraphId {
    /// The price of `to` in `from`, from the pool of the two.
    PoolPrice { from: Denom, to: Denom },
    /// The liquidity of the pool of the two.
    PoolLiquidity { from: Denom, to: Denom },
    /// The circulating supply of a denomination.
    CoinSupply { denom: Denom },
}

/// The range of heights of a graph, and how many points it should have.
#[derive(Clone, Copy, Debug, PartialEq, Eq, Structural)]
pub struct GraphWindow {
    pub start: BlockHeight,
    pub end: BlockHeight,
    pub approx_count: usize,
}

/// The window of a graph. It starts at the height of the wanted start
/// time, and at height one where none is wanted or the time lies before
/// it. It ends at the height of the wanted end time, and at the tip where
/// none is wanted. A graph of supply does not reach above the highest
/// indexed height, and has fewer points than the others.
pub open spec fn window_of(
    id: GraphId,
    start: Option<i64>,
    end: Option<i64>,
    tip: BlockHeight,
    indexed_highest: BlockHeight,
) -> GraphWindow {
    let wanted_start = match start {
        Some(secs) => height_at(secs),
        None => 1,
    };
    let wanted_end = match end {
        Some(secs) => height_at(secs),
        None => tip as int,
    };
    GraphWindow {
        start: (if wanted_start < 1 {
            1
        } else {
            wanted_start
        }) as u64,
        end: (if id is CoinSupply && indexed_highest < wanted_end {
            indexed_highest as int
        } else {
            wanted_end
        }) as u64,
        approx_count: if id is CoinSupply {
            300
        } else {
            1000
        },
    }
}

/// The window of the graph of a series, for the start and end times that
/// a request names, in Unix seconds.
pub fn graph_window(
    id: &GraphId,
    start: Option<i64>,
    end: Option<i64>,
    tip: BlockHeight,
    indexed_highest: BlockHeight,
) -> (window: GraphWindow)
    ensures
        window == window_of(*id, start, end, tip, indexed_highest),
{
    let wanted_start = match start {
        Some(secs) => datetime_to_height(secs),
        None => 1,
    };
    let wanted_end = match end {
        Some(secs) => datetime_to_height(secs),
        None => tip,
    };
    let start = if wanted_start < 1 {
        1
    } else {
        wanted_start
    };
    match id {
        GraphId::CoinSupply { .. } => GraphWindow {
            start,
            end: if indexed_highest < wanted_end {
                indexed_highest
            } else {
                wanted_end
            },
            approx_count: 300,
        },
        _ => GraphWindow { start, end: wanted_end, approx_count: 1000 },
    }
}

/// The distance between the heights at which a pool is looked at: the
/// length of the range by the number of points, which is at most the
/// length of the range.
pub open spec fn pool_step(lower: BlockHeight, upper: BlockHeight, num_blocks: u64) -> int {
    let blocks = upper - lower;
    let divider = if num_blocks < blocks {
        num_blocks as int
    } else {
        blocks
    };
    blocks / divider
}

/// The heights at which a pool is looked at, from `upper` downwards in
/// equal steps, as far as they do not fall below `lower`.
pub fn pool_items(lower: BlockHeight, upper: BlockHeight, num_blocks: u64) -> (heights: Vec<
    BlockHeight,
>)
    requires
        lower < upper,
        num_blocks > 0,
    ensures
        pool_step(lower, upper, num_blocks) >= 1,
        heights@.len() == (upper - lower) / pool_step(lower, upper, num_blocks) + 1,
        forall|i: int|
            0 <= i < heights@.len() ==> #[trigger] heights@[i] == upper - i * pool_step(
                lower,
                upper,
                num_blocks,
            ),
{
    let blocks = upper - lower;
    let divider = if num_blocks < blocks {
        num_blocks
    } else {
        blocks
    };
    let step = blocks / divider;
    assert(step >= 1) by (nonlinear_arith)
        requires
            1 <= divider <= blocks,
            step == blocks / divider,
    ;
    let mut heights: Vec<BlockHeight> = Vec::new();
    let mut height = upper;
    let ghost mut n: int = 0;
    loop
        invariant_except_break
            heights@.len() == n,
        invariant
            step >= 1,
            step == pool_step(lower, upper, num_blocks),
            lower <= height <= upper,
            height == upper - n * step,
            n >= 0,
            forall|i: int| 0 <= i < heights@.len() ==> #[trigger] heights@[i] == upper - i * step,
        ensures
            heights@.len() == (upper - lower) / (step as int) + 1,
            forall|i: int| 0 <= i < heights@.len() ==> #[trigger] heights@[i] == upper - i * step,
        decreases height - lower,
    {
        heights.push(height);
        proof {
            assert((n + 1) * step == n * step + step) by (nonlinear_arith);
        }
        if height - lower < step {
            proof {
                let span = upper - lower;
                let s = step as int;
                assert(span / s == n) by (nonlinear_arith)
                    requires
                        s >= 1,
                        n >= 0,
                        span - n * s >= 0,
                        span - n * s < s,
                ;
            }
            break;
        }
        height = height - step;
        proof {
            n = n + 1;
        }
    }
    heights
}

} // verus!
