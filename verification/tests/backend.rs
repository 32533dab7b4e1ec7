use melscan::backend::{
    get_address_summary, get_balances, get_leaderboard, get_old_blocks, get_transactions,
    sum_amounts, BlockSummary, CoinInfo, SpendInfo,
};
use melscan::structs::{Block, CoinData, CoinID, Denom, HashVal, Header, Transaction};

fn hash(tag: u8) -> HashVal {
    HashVal { bytes: [tag; 32] }
}

fn hash_with(first: u8, last: u8) -> HashVal {
    let mut bytes = [0u8; 32];
    bytes[0] = first;
    bytes[31] = last;
    HashVal { bytes }
}

fn coin(owner: u8, value: u128, denom: Denom) -> CoinData {
    CoinData { covhash: hash(owner), value, denom, additional_data: vec![] }
}

fn tx(id: HashVal, outputs: Vec<CoinData>, fee: u128, weight: u128) -> Transaction {
    Transaction { hash: id, inputs: vec![CoinID { txhash: hash(1), index: 0 }], outputs, fee, weight }
}

fn block(transactions: Vec<Transaction>) -> Block {
    Block {
        header: Header { height: 42, fee_pool: 9, fee_multiplier: 131072, hash: hash(0x42), encoded: vec![4, 2] },
        transactions,
    }
}

#[test]
fn sums_report_overflow() {
    assert_eq!(sum_amounts(&vec![]), Some(0));
    assert_eq!(sum_amounts(&vec![1, 2, 3]), Some(6));
    assert_eq!(sum_amounts(&vec![u128::MAX, 0]), Some(u128::MAX));
    assert_eq!(sum_amounts(&vec![u128::MAX, 1]), None);
    assert_eq!(sum_amounts(&vec![1, u128::MAX, 5]), None);
}

#[test]
fn transaction_summaries_are_ordered_by_hash() {
    let blk = block(vec![
        tx(hash_with(0x20, 0x01), vec![coin(1, 7, Denom::Mel), coin(1, 100, Denom::Sym)], 3, 50),
        tx(hash_with(0x10, 0xff), vec![coin(1, 5, Denom::Mel), coin(2, 6, Denom::Mel)], 1, 60),
        tx(hash_with(0x10, 0x02), vec![], 4, 70),
    ]);
    let summaries = get_transactions(&blk).unwrap();
    assert_eq!(summaries.len(), 3);
    assert_eq!(summaries[0].hash, format!("10{}02", "00".repeat(30)));
    assert_eq!(summaries[0].shorthash, "1000000000");
    assert_eq!(summaries[0].mel_moved, 4);
    assert_eq!(summaries[0].weight, 70);
    assert_eq!(summaries[1].hash, format!("10{}ff", "00".repeat(30)));
    assert_eq!(summaries[1].mel_moved, 5 + 6 + 1);
    assert_eq!(summaries[2].hash, format!("20{}01", "00".repeat(30)));
    assert_eq!(summaries[2].mel_moved, 7 + 3);
    assert_eq!(summaries[2].height, 42);
    // the order is that of the hexadecimal texts
    let mut texts: Vec<String> = summaries.iter().map(|s| s.hash.clone()).collect();
    texts.sort();
    assert_eq!(texts, summaries.iter().map(|s| s.hash.clone()).collect::<Vec<String>>());
}

#[test]
fn equal_hashes_are_ordered_by_weight_then_amount() {
    let blk = block(vec![
        tx(hash(7), vec![coin(1, 9, Denom::Mel)], 0, 5),
        tx(hash(7), vec![coin(1, 2, Denom::Mel)], 0, 5),
        tx(hash(7), vec![coin(1, 50, Denom::Mel)], 0, 1),
    ]);
    let summaries = get_transactions(&blk).unwrap();
    let keys: Vec<(u128, u128)> = summaries.iter().map(|s| (s.weight, s.mel_moved)).collect();
    assert_eq!(keys, vec![(1, 50), (5, 2), (5, 9)]);
}

#[test]
fn amount_moved_that_overflows_gives_no_summaries() {
    let blk = block(vec![tx(hash(1), vec![coin(1, u128::MAX, Denom::Mel)], 1, 0)]);
    assert!(get_transactions(&blk).is_none());
    let other = block(vec![tx(hash(1), vec![coin(1, u128::MAX, Denom::Sym)], 1, 0)]);
    assert_eq!(get_transactions(&other).unwrap()[0].mel_moved, 1);
}

#[test]
fn block_summary_adds_up_weights_and_fees() {
    let blk = block(vec![
        tx(hash(2), vec![coin(1, 7, Denom::Mel)], 3, 50),
        tx(hash(1), vec![coin(1, 5, Denom::Erg)], 1, 60),
    ]);
    let summary = BlockSummary::from_block(blk, 77).unwrap();
    assert_eq!(summary.total_weight, 110);
    assert_eq!(summary.total_fees, 4);
    assert_eq!(summary.reward_amount, 77);
    assert_eq!(summary.header.height, 42);
    assert_eq!(summary.header_hash, hash(0x42));
    assert_eq!(summary.fee_multiplier, 131072);
    assert_eq!(summary.transactions.len(), 2);
    assert_eq!(summary.transactions[0].hash, "01".repeat(32));
    assert_eq!(summary.transactions[0].mel_moved, 1);
    assert_eq!(summary.transactions[1].mel_moved, 10);
}

#[test]
fn block_summary_refuses_totals_that_overflow() {
    let heavy = block(vec![tx(hash(1), vec![], 0, u128::MAX), tx(hash(2), vec![], 0, 1)]);
    assert!(BlockSummary::from_block(heavy, 0).is_none());
    let costly = block(vec![tx(hash(1), vec![], u128::MAX, 0), tx(hash(2), vec![], 1, 0)]);
    assert!(BlockSummary::from_block(costly, 0).is_none());
}

#[test]
fn old_blocks_count_down_from_the_tip() {
    assert_eq!(get_old_blocks(100, 3), vec![100, 99, 98]);
    assert_eq!(get_old_blocks(2, 50), vec![2, 1, 0]);
    assert_eq!(get_old_blocks(0, 50), vec![0]);
    assert_eq!(get_old_blocks(7, 0), Vec::<u64>::new());
    assert_eq!(get_old_blocks(u64::MAX, 2), vec![u64::MAX, u64::MAX - 1]);
}

fn info(created_by: u8, height: u64, data: CoinData, spent: Option<(u8, u64)>) -> CoinInfo {
    CoinInfo {
        create_txhash: hash(created_by),
        create_height: height,
        coin_data: data,
        spend_info: spent.map(|(by, at)| SpendInfo { spend_txhash: hash(by), spend_height: at }),
    }
}

fn coins() -> Vec<CoinInfo> {
    vec![
        info(0xa, 10, coin(1, 100, Denom::Mel), Some((0xb, 20))),
        info(0xa, 10, coin(1, 5, Denom::Sym), None),
        info(0xb, 20, coin(1, 60, Denom::Mel), None),
        info(0xc, 30, coin(2, 7, Denom::Mel), None),
        info(0xc, 30, coin(1, 1, Denom::Mel), None),
    ]
}

#[test]
fn balances_add_up_unspent_coins_by_denomination() {
    assert_eq!(get_balances(&coins()), Some(vec![(Denom::Sym, 5), (Denom::Mel, 68)]));
    assert_eq!(get_balances(&vec![]), Some(vec![]));
}

#[test]
fn leaderboard_adds_up_by_owner() {
    assert_eq!(get_leaderboard(&coins(), Denom::Mel), Some(vec![(hash(1), 61), (hash(2), 7)]));
    assert_eq!(get_leaderboard(&coins(), Denom::Sym), Some(vec![(hash(1), 5)]));
    assert_eq!(get_leaderboard(&coins(), Denom::Erg), Some(vec![]));
}

#[test]
fn address_summary_credits_creator_and_debits_spender() {
    let summary = get_address_summary(&coins()).unwrap();
    assert_eq!(summary.balances, vec![(Denom::Sym, 5), (Denom::Mel, 68)]);
    let txs: Vec<(u64, HashVal, Vec<(Denom, i128)>, i64)> = summary
        .transactions
        .iter()
        .map(|t| (t.height, t.txhash, t.deltas.clone(), t.date))
        .collect();
    assert_eq!(
        txs,
        vec![
            (10, hash(0xa), vec![(Denom::Mel, 100), (Denom::Sym, 5)], 1618365600 + 300),
            (20, hash(0xb), vec![(Denom::Mel, -40)], 1618365600 + 600),
            (30, hash(0xc), vec![(Denom::Mel, 8)], 1618365600 + 900),
        ]
    );
}

#[test]
fn values_beyond_signed_range_give_no_summary() {
    let huge = vec![info(0xa, 10, coin(1, u128::MAX, Denom::Mel), None)];
    assert_eq!(get_balances(&huge), None);
    assert_eq!(get_leaderboard(&huge, Denom::Mel), None);
    assert!(get_address_summary(&huge).is_none());
    let two = vec![
        info(0xa, 10, coin(1, i128::MAX as u128, Denom::Mel), None),
        info(0xb, 11, coin(1, 1, Denom::Mel), None),
    ];
    assert_eq!(get_balances(&two), None);
    let far = vec![info(0xa, u64::MAX, coin(1, 1, Denom::Mel), None)];
    assert!(get_balances(&far).is_some());
    assert!(get_address_summary(&far).is_none());
}
