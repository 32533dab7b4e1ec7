use melscan::graphs::{
    checked_height_to_datetime, datetime_to_height, graph_range, graph_window, height_to_datetime,
    pool_items, GraphId, GraphWindow,
};
use melscan::structs::Denom;
use std::cell::RefCell;

#[test]
fn height_and_time_follow_the_block_interval() {
    assert_eq!(height_to_datetime(0), 1618365600);
    assert_eq!(height_to_datetime(1), 1618365630);
    assert_eq!(height_to_datetime(1000), 1618395600);
    assert_eq!(datetime_to_height(1618365600), 0);
    assert_eq!(datetime_to_height(1618365629), 0);
    assert_eq!(datetime_to_height(1618365630), 1);
    assert_eq!(datetime_to_height(1618395600), 1000);
    assert_eq!(datetime_to_height(datetime_to_height_round_trip(123456)), 123456);
}

fn datetime_to_height_round_trip(height: u64) -> i64 {
    height_to_datetime(height)
}

#[test]
fn time_before_the_first_block_is_height_zero() {
    assert_eq!(datetime_to_height(0), 0);
    assert_eq!(datetime_to_height(1618365599), 0);
}

#[test]
fn time_before_1970_wraps_around() {
    // -1 reads as 2^64 - 1
    assert_eq!(datetime_to_height(-1), (u64::MAX - 1618365600) / 30);
    assert_eq!(datetime_to_height(i64::MIN), ((1u64 << 63) - 1618365600) / 30);
}

#[test]
fn checked_time_refuses_what_does_not_fit() {
    assert_eq!(checked_height_to_datetime(2), Some(1618365660));
    let last = (i64::MAX as u64 - 1618365600) / 30;
    assert_eq!(checked_height_to_datetime(last), Some((last * 30 + 1618365600) as i64));
    assert_eq!(checked_height_to_datetime(last + 1), None);
    assert_eq!(checked_height_to_datetime(u64::MAX), None);
}

#[test]
fn graph_range_samples_and_resolves_in_order() {
    let asked = RefCell::new(vec![]);
    let waited = RefCell::new(vec![]);
    let lookup = |height: u64| -> Result<f64, u64> {
        asked.borrow_mut().push(height);
        if height % 32 == 0 { Ok(height as f64) } else { Err(height) }
    };
    let wait = |height: u64| -> Result<f64, String> {
        waited.borrow_mut().push(height);
        Ok(height as f64 + 0.5)
    };
    let data = graph_range(0, 100, 10, lookup, wait).unwrap();
    let heights: Vec<u64> = data.iter().map(|d| d.height).collect();
    assert_eq!(heights, vec![0, 16, 32, 48, 64, 80, 96, 100]);
    let values: Vec<f64> = data.iter().map(|d| d.value).collect();
    assert_eq!(values, vec![0.0, 16.5, 32.0, 48.5, 64.0, 80.5, 96.0, 100.5]);
    for datum in &data {
        assert_eq!(datum.date, 1618365600 + 30 * datum.height as i128);
    }
    // every height is asked about before anything is waited for
    assert_eq!(*asked.borrow(), vec![0, 16, 32, 48, 64, 80, 96, 100]);
    assert_eq!(*waited.borrow(), vec![16, 48, 80, 100]);
}

#[test]
fn graph_range_returns_the_first_failure() {
    let lookup = |height: u64| -> Result<u64, u64> { Err(height) };
    let wait = |height: u64| -> Result<u64, String> {
        if height >= 32 { Err(format!("no value at {}", height)) } else { Ok(height) }
    };
    assert_eq!(graph_range(0, 100, 10, lookup, wait).err(), Some("no value at 32".to_string()));
}

#[test]
fn graph_range_is_deterministic_in_its_heights() {
    let run = || {
        graph_range(
            1,
            5000,
            300,
            |h: u64| -> Result<u64, u64> { Ok(h) },
            |h: u64| -> Result<u64, String> { Ok(h) },
        )
        .unwrap()
        .iter()
        .map(|d| d.height)
        .collect::<Vec<u64>>()
    };
    assert_eq!(run(), run());
    assert_eq!(run()[..3], [16, 32, 48]);
}

#[test]
fn graph_range_reaches_the_highest_heights() {
    let lookup = |h: u64| -> Result<u64, u64> { Ok(h) };
    let wait = |h: u64| -> Result<u64, String> { Ok(h) };
    let data = graph_range(u64::MAX - 1, u64::MAX, 1, lookup, wait).unwrap();
    let heights: Vec<u64> = data.iter().map(|d| d.height).collect();
    assert_eq!(heights, vec![u64::MAX - 1, u64::MAX]);
    assert_eq!(data[1].date, 30 * (u64::MAX as i128) + 1618365600);
    // the same three numbers give the same heights again
    let again = graph_range(u64::MAX - 1, u64::MAX, 1, lookup, wait).unwrap();
    assert_eq!(again.iter().map(|d| d.height).collect::<Vec<u64>>(), heights);
}

#[test]
fn window_defaults_and_clamps() {
    let price = GraphId::PoolPrice { from: Denom::Mel, to: Denom::Sym };
    let liquidity = GraphId::PoolLiquidity { from: Denom::Mel, to: Denom::Sym };
    let supply = GraphId::CoinSupply { denom: Denom::Mel };
    assert_eq!(
        graph_window(&price, None, None, 5000, 4000),
        GraphWindow { start: 1, end: 5000, approx_count: 1000 }
    );
    assert_eq!(
        graph_window(&liquidity, Some(0), Some(1618365600 + 30 * 77), 5000, 4000),
        GraphWindow { start: 1, end: 77, approx_count: 1000 }
    );
    assert_eq!(
        graph_window(&supply, Some(1618365600 + 30 * 10), None, 5000, 4000),
        GraphWindow { start: 10, end: 4000, approx_count: 300 }
    );
    assert_eq!(
        graph_window(&supply, None, Some(1618365600 + 30 * 20), 5000, 4000),
        GraphWindow { start: 1, end: 20, approx_count: 300 }
    );
}

#[test]
fn pool_heights_step_down_from_the_top() {
    // 100 blocks, 10 points: every tenth height
    assert_eq!(pool_items(0, 100, 10), vec![100, 90, 80, 70, 60, 50, 40, 30, 20, 10, 0]);
    // more points than blocks: every height
    assert_eq!(pool_items(5, 8, 1000), vec![8, 7, 6, 5]);
    // the step does not divide the range: the bottom is not reached
    assert_eq!(pool_items(0, 10, 3), vec![10, 7, 4, 1]);
}
