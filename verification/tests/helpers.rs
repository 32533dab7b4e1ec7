use melscan::graphs::helpers::{classify, fast_async_map, interpolate_between, reassemble};

#[test]
fn fam_simple() {
    let wait = |task: smol::Task<i32>| smol::future::block_on(task);
    assert_eq!(
        fast_async_map(vec![1, 2, 3, 4, 5], |x| Ok(x * 2), wait),
        vec![2, 4, 6, 8, 10]
    )
}

#[test]
fn fam_blocking() {
    let wait = |task: smol::Task<i32>| smol::future::block_on(task);
    assert_eq!(
        fast_async_map(
            vec![1, 2, 3, 4, 5],
            |x| Err(smol::spawn(async move { x * 2 })),
            wait
        ),
        vec![2, 4, 6, 8, 10]
    )
}

#[test]
fn mapper_keeps_input_order_for_mixed_items() {
    let out = fast_async_map(
        vec![10u32, 11, 12, 13, 14, 15],
        |x| if x % 2 == 0 { Ok(x + 100) } else { Err(x) },
        |pending: u32| pending + 1000,
    );
    assert_eq!(out, vec![110, 1011, 112, 1013, 114, 1015]);
}

#[test]
fn reassemble_accepts_any_completion_order() {
    let classified = classify(vec![1u32, 2, 3, 4, 5], |x| if x % 2 == 1 { Err(x) } else { Ok(x * 2) });
    assert_eq!(classified.ready, vec![None, Some(4), None, Some(8), None]);
    assert_eq!(classified.pending, vec![(0, 1), (2, 3), (4, 5)]);
    let completed = vec![(4usize, 50u32), (0, 10), (2, 30)];
    assert_eq!(reassemble(classified.ready, completed), Some(vec![10, 4, 30, 8, 50]));
}

#[test]
fn reassemble_refuses_missing_double_and_stray_results() {
    let ready = || vec![None, Some(7u32), None];
    assert_eq!(reassemble(ready(), vec![(0, 1)]), None);
    assert_eq!(reassemble(ready(), vec![(0, 1), (0, 2), (2, 3)]), None);
    assert_eq!(reassemble(ready(), vec![(0, 1), (1, 2), (2, 3)]), None);
    assert_eq!(reassemble(ready(), vec![(0, 1), (3, 2), (2, 3)]), None);
    assert_eq!(reassemble(ready(), vec![(2, 3), (0, 1)]), Some(vec![1, 7, 3]));
}

#[test]
fn sampler_snaps_stride_to_power_of_two() {
    // (100 - 0) / 10 = 10, rounded up to 16
    assert_eq!(interpolate_between(0, 100, 10), vec![0, 16, 32, 48, 64, 80, 96, 100]);
    // (64 - 5) / 4 = 14, rounded up to 16; the end is aligned and comes once
    assert_eq!(interpolate_between(5, 64, 4), vec![16, 32, 48, 64]);
}

#[test]
fn sampler_uses_every_height_of_a_short_range() {
    assert_eq!(interpolate_between(7, 11, 1000), vec![7, 8, 9, 10, 11]);
    assert_eq!(interpolate_between(9, 9, 3), vec![9]);
}

#[test]
fn sampler_is_deterministic() {
    let first = interpolate_between(1, 1_000_000, 300);
    let second = interpolate_between(1, 1_000_000, 300);
    assert_eq!(first, second);
    assert_eq!(first[0], 4096);
    assert_eq!(first[1] - first[0], 4096);
    assert_eq!(*first.last().unwrap(), 1_000_000);
}

#[test]
fn sampler_handles_the_widest_range() {
    // the quotient exceeds 2^63, so the stride is 2^64 and only zero is a multiple
    assert_eq!(interpolate_between(0, u64::MAX, 1), vec![0, u64::MAX]);
    assert_eq!(interpolate_between(1, u64::MAX, 1), vec![u64::MAX]);
}
