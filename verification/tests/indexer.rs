use melscan::indexer::{Delivery, IndexError, Indexer, IndexerStep};
use melscan::structs::{Block, CoinData, CoinID, Denom, HashVal, Header, Transaction};

fn hash(tag: u8) -> HashVal {
    HashVal { bytes: [tag; 32] }
}

fn header(height: u64) -> Header {
    Header {
        height,
        fee_pool: 0,
        fee_multiplier: 0,
        hash: hash(height as u8),
        encoded: vec![height as u8, 0xaa],
    }
}

fn coin(value: u128, denom: Denom) -> CoinData {
    CoinData { covhash: hash(0xc0), value, denom, additional_data: vec![1, 2, 3] }
}

fn tx(tag: u8, inputs: Vec<CoinID>, outputs: Vec<CoinData>) -> Transaction {
    Transaction { hash: hash(tag), inputs, outputs, fee: 0, weight: 0 }
}

fn block(height: u64, transactions: Vec<Transaction>) -> Block {
    Block { header: header(height), transactions }
}

fn denom_x() -> Denom {
    Denom::Custom(hash(0x58))
}

fn five_blocks() -> Indexer {
    let mut index = Indexer::new();
    assert_eq!(index.apply_block(block(1, vec![]), 0), Ok(()));
    assert_eq!(index.apply_block(block(2, vec![]), 0), Ok(()));
    let creates = tx(0x31, vec![], vec![coin(100, denom_x())]);
    assert_eq!(index.apply_block(block(3, vec![creates]), 0), Ok(()));
    assert_eq!(index.apply_block(block(4, vec![]), 0), Ok(()));
    let spends = tx(0x51, vec![CoinID { txhash: hash(0x31), index: 0 }], vec![]);
    assert_eq!(index.apply_block(block(5, vec![spends]), 0), Ok(()));
    index
}

#[test]
fn end_to_end_supply_of_created_and_spent_coin() {
    let index = five_blocks();
    assert_eq!(index.max_height(), 5);
    assert_eq!(index.supply_at(2, denom_x()), Some(0));
    assert_eq!(index.supply_at(3, denom_x()), Some(100));
    assert_eq!(index.supply_at(4, denom_x()), Some(100));
    assert_eq!(index.supply_at(5, denom_x()), Some(0));
    let record = index.get_coin(CoinID { txhash: hash(0x31), index: 0 }).unwrap();
    assert_eq!(record.created_height, 3);
    assert_eq!(record.spent_by, Some(hash(0x51)));
    assert_eq!(record.value, 100);
    assert_eq!(record.additional_data, vec![1, 2, 3]);
}

#[test]
fn supply_is_unknown_before_any_block() {
    let index = Indexer::new();
    assert_eq!(index.max_height(), 0);
    assert_eq!(index.supply_at(0, Denom::Mel), None);
    assert_eq!(index.supply_at(1, Denom::Mel), None);
}

#[test]
fn block_out_of_order_is_refused() {
    let mut index = Indexer::new();
    assert_eq!(index.apply_block(block(2, vec![]), 0), Err(IndexError::NotNextHeight));
    assert_eq!(index.max_height(), 0);
    assert_eq!(index.apply_block(block(1, vec![]), 7), Ok(()));
    assert_eq!(index.apply_block(block(1, vec![]), 7), Err(IndexError::NotNextHeight));
    assert_eq!(index.max_height(), 1);
    assert_eq!(index.supply_at(1, Denom::Mel), Some(7));
}

#[test]
fn reward_enters_primary_supply_and_carries_forward() {
    let mut index = Indexer::new();
    assert_eq!(index.apply_block(block(1, vec![]), 5), Ok(()));
    assert_eq!(index.apply_block(block(2, vec![]), 0), Ok(()));
    assert_eq!(index.apply_block(block(3, vec![]), 7), Ok(()));
    assert_eq!(index.supply_at(1, Denom::Mel), Some(5));
    assert_eq!(index.supply_at(2, Denom::Mel), Some(5));
    assert_eq!(index.supply_at(3, Denom::Mel), Some(12));
    assert_eq!(index.supply_at(3, Denom::Sym), Some(0));
    assert_eq!(index.supply_at(4, Denom::Mel), None);
    assert_eq!(index.supply_at(0, Denom::Mel), None);
}

#[test]
fn supply_difference_is_net_of_mint_and_burn() {
    let mut index = Indexer::new();
    let a = tx(0xa1, vec![], vec![coin(70, Denom::Sym), coin(30, Denom::Sym)]);
    assert_eq!(index.apply_block(block(1, vec![a]), 0), Ok(()));
    let b = tx(0xb1, vec![CoinID { txhash: hash(0xa1), index: 1 }], vec![coin(25, Denom::Sym)]);
    assert_eq!(index.apply_block(block(2, vec![b]), 0), Ok(()));
    let c = tx(0xc1, vec![CoinID { txhash: hash(0xa1), index: 0 }], vec![coin(1, Denom::Erg)]);
    assert_eq!(index.apply_block(block(3, vec![c]), 0), Ok(()));
    let s1 = index.supply_at(1, Denom::Sym).unwrap();
    let s3 = index.supply_at(3, Denom::Sym).unwrap();
    assert_eq!(s1, 100);
    // blocks 2 and 3 minted 25 and burned 30 + 70
    assert_eq!(s3, 100 + 25 - 30 - 70);
    assert_eq!(index.supply_at(3, Denom::Erg), Some(1));
    assert_eq!(index.supply_at(2, Denom::Erg), Some(0));
}

#[test]
fn coin_created_and_spent_in_one_block() {
    let mut index = Indexer::new();
    let creates = tx(0x31, vec![], vec![coin(100, denom_x())]);
    let spends = tx(0x32, vec![CoinID { txhash: hash(0x31), index: 0 }], vec![coin(40, denom_x())]);
    assert_eq!(index.apply_block(block(1, vec![creates, spends]), 0), Ok(()));
    assert_eq!(index.supply_at(1, denom_x()), Some(40));
    let first = index.get_coin(CoinID { txhash: hash(0x31), index: 0 }).unwrap();
    assert_eq!(first.spent_by, Some(hash(0x32)));
    assert_eq!(first.created_height, 1);
    let second = index.get_coin(CoinID { txhash: hash(0x32), index: 0 }).unwrap();
    assert_eq!(second.spent_by, None);
    assert_eq!(index.coin_count(), 2);
}

#[test]
fn spend_of_unknown_coin_is_passed_over() {
    let mut index = Indexer::new();
    let spends = tx(0x51, vec![CoinID { txhash: hash(0x99), index: 4 }], vec![coin(3, Denom::Mel)]);
    assert_eq!(index.apply_block(block(1, vec![spends]), 10), Ok(()));
    assert_eq!(index.supply_at(1, Denom::Mel), Some(13));
    assert!(index.get_coin(CoinID { txhash: hash(0x99), index: 4 }).is_none());
}

#[test]
fn double_spend_leaves_index_untouched() {
    let mut index = five_blocks();
    let again = tx(0x61, vec![CoinID { txhash: hash(0x31), index: 0 }], vec![coin(9, Denom::Mel)]);
    assert_eq!(index.apply_block(block(6, vec![again]), 1), Err(IndexError::DoubleSpend));
    assert_eq!(index.max_height(), 5);
    assert_eq!(index.coin_count(), 1);
    let record = index.get_coin(CoinID { txhash: hash(0x31), index: 0 }).unwrap();
    assert_eq!(record.spent_by, Some(hash(0x51)));
    assert_eq!(index.supply_at(5, Denom::Mel), Some(0));
    assert_eq!(index.supply_at(6, Denom::Mel), None);
    assert_eq!(index.apply_block(block(6, vec![]), 1), Ok(()));
    assert_eq!(index.supply_at(6, Denom::Mel), Some(1));
}

#[test]
fn duplicate_coin_is_refused() {
    let mut index = five_blocks();
    let same = tx(0x31, vec![], vec![coin(1, Denom::Mel)]);
    assert_eq!(index.apply_block(block(6, vec![same]), 0), Err(IndexError::DuplicateCoin));
    assert_eq!(index.max_height(), 5);
}

#[test]
fn too_many_outputs_are_refused() {
    let mut index = Indexer::new();
    let wide = tx(0x71, vec![], (0..257).map(|_| coin(1, Denom::Mel)).collect());
    assert_eq!(index.apply_block(block(1, vec![wide]), 0), Err(IndexError::TooManyOutputs));
    let fits = tx(0x72, vec![], (0..256).map(|_| coin(1, Denom::Mel)).collect());
    assert_eq!(index.apply_block(block(1, vec![fits]), 0), Ok(()));
    assert_eq!(index.supply_at(1, Denom::Mel), Some(256));
    assert_eq!(index.coin_count(), 256);
    assert!(index.get_coin(CoinID { txhash: hash(0x72), index: 255 }).is_some());
}

#[test]
fn supply_overflow_is_refused() {
    let mut index = Indexer::new();
    assert_eq!(index.apply_block(block(1, vec![]), u128::MAX), Ok(()));
    let one_more = tx(0x81, vec![], vec![coin(1, Denom::Mel)]);
    assert_eq!(index.apply_block(block(2, vec![one_more]), 0), Err(IndexError::SupplyOverflow));
    assert_eq!(index.apply_block(block(2, vec![]), 1), Err(IndexError::SupplyOverflow));
    assert_eq!(index.max_height(), 1);
    assert_eq!(index.supply_at(1, Denom::Mel), Some(u128::MAX));
}

#[test]
fn header_is_kept_per_height() {
    let index = five_blocks();
    assert_eq!(index.get_header(3), Some(vec![3, 0xaa]));
    assert_eq!(index.get_header(0), None);
    assert_eq!(index.get_header(6), None);
}

fn reward_coin_of(height: u64) -> CoinID {
    let coin = melstructs::CoinID::proposer_reward(melstructs::BlockHeight(height));
    CoinID { txhash: HashVal { bytes: coin.txhash.0 .0 }, index: coin.index }
}

#[test]
fn next_step_idles_at_the_tip() {
    let index = five_blocks();
    assert_eq!(index.next_step(9), IndexerStep::Fetch { height: 6, reward_coin: reward_coin_of(6) });
    assert_eq!(index.next_step(6), IndexerStep::Fetch { height: 6, reward_coin: reward_coin_of(6) });
    assert_eq!(index.next_step(5), IndexerStep::Idle);
    assert_eq!(index.next_step(2), IndexerStep::Idle);
    assert_eq!(Indexer::new().next_step(0), IndexerStep::Idle);
    assert_eq!(
        Indexer::new().next_step(1),
        IndexerStep::Fetch { height: 1, reward_coin: reward_coin_of(1) }
    );
}

#[test]
fn reward_coin_depends_on_the_height() {
    let first = match Indexer::new().next_step(1) {
        IndexerStep::Fetch { reward_coin, .. } => reward_coin,
        IndexerStep::Idle => panic!("nothing to fetch"),
    };
    let sixth = match five_blocks().next_step(6) {
        IndexerStep::Fetch { reward_coin, .. } => reward_coin,
        IndexerStep::Idle => panic!("nothing to fetch"),
    };
    assert_eq!(first.index, 0);
    assert_eq!(sixth.index, 0);
    assert_ne!(first.txhash, sixth.txhash);
    assert_ne!(first.txhash, HashVal { bytes: [0; 32] });
}

fn feed() -> Vec<Delivery> {
    let creates = tx(0x31, vec![], vec![coin(100, denom_x())]);
    let spends = tx(0x51, vec![CoinID { txhash: hash(0x31), index: 0 }], vec![coin(60, denom_x())]);
    vec![
        Delivery { block: block(1, vec![]), reward: 2 },
        Delivery { block: block(2, vec![creates]), reward: 2 },
        Delivery { block: block(9, vec![]), reward: 2 },
        Delivery { block: block(3, vec![spends]), reward: 2 },
        Delivery { block: block(4, vec![]), reward: 2 },
    ]
}

fn fingerprint(index: &Indexer) -> Vec<(Option<u128>, Option<u128>, Option<Vec<u8>>)> {
    (0..=6).map(|h| (index.supply_at(h, Denom::Mel), index.supply_at(h, denom_x()), index.get_header(h))).collect()
}

#[test]
fn resumed_ingestion_ends_like_uninterrupted_one() {
    let mut whole = Indexer::new();
    assert_eq!(whole.ingest(feed()), 4);
    for cut in 0..=5 {
        let mut first: Vec<Delivery> = feed();
        let rest = first.split_off(cut);
        let mut resumed = Indexer::new();
        let a = resumed.ingest(first);
        let b = resumed.ingest(rest);
        assert_eq!(a + b, 4);
        assert_eq!(fingerprint(&resumed), fingerprint(&whole));
        assert_eq!(resumed.coin_count(), whole.coin_count());
        assert_eq!(
            resumed.get_coin(CoinID { txhash: hash(0x31), index: 0 }).unwrap().spent_by,
            Some(hash(0x51))
        );
    }
    assert_eq!(whole.max_height(), 4);
    assert_eq!(whole.supply_at(4, Denom::Mel), Some(8));
    assert_eq!(whole.supply_at(4, denom_x()), Some(60));
}

#[test]
fn feeding_a_block_again_changes_nothing() {
    let mut index = Indexer::new();
    assert_eq!(index.ingest(feed()), 4);
    let before = fingerprint(&index);
    assert_eq!(index.ingest(feed()), 0);
    assert_eq!(fingerprint(&index), before);
    assert_eq!(index.coin_count(), 2);
}

#[test]
fn index_is_restored_from_its_tables() {
    let index = five_blocks();
    let before = fingerprint(&index);
    let (headers, coins, supply) = index.into_tables();
    assert_eq!(headers.len(), 5);
    assert_eq!(coins.len(), 1);
    let mut restored = Indexer::restore(headers, coins, supply).unwrap();
    assert_eq!(fingerprint(&restored), before);
    assert_eq!(restored.max_height(), 5);
    // ingestion goes on where it stopped
    let more = tx(0x61, vec![], vec![coin(9, denom_x())]);
    assert_eq!(restored.apply_block(block(6, vec![more]), 0), Ok(()));
    assert_eq!(restored.supply_at(6, denom_x()), Some(9));
}

#[test]
fn tables_that_contradict_each_other_are_not_restored() {
    let tables = || five_blocks().into_tables();
    // a header is missing
    let (mut headers, coins, supply) = tables();
    headers.pop();
    assert!(Indexer::restore(headers, coins, supply).is_none());
    // a coin occurs twice
    let (headers, mut coins, supply) = tables();
    coins.push(coins[0].clone());
    assert!(Indexer::restore(headers, coins, supply).is_none());
    // snapshots are out of order
    let (headers, coins, mut supply) = tables();
    supply.reverse();
    assert!(Indexer::restore(headers, coins, supply).is_none());
    // an unspent coin holds more than the supply of its denomination
    let (headers, mut coins, supply) = tables();
    coins[0].spent_by = None;
    assert!(Indexer::restore(headers, coins, supply).is_none());
    // a coin was created at a height that is not indexed
    let (headers, mut coins, supply) = tables();
    coins[0].created_height = 6;
    assert!(Indexer::restore(headers, coins, supply).is_none());
    let (headers, coins, supply) = tables();
    assert!(Indexer::restore(headers, coins, supply).is_some());
}

#[test]
fn rows_of_one_height_are_listed() {
    let index = five_blocks();
    let created = index.coins_created_at(3);
    assert_eq!(created.len(), 1);
    assert_eq!(created[0].coin_id, CoinID { txhash: hash(0x31), index: 0 });
    assert_eq!(created[0].spent_by, Some(hash(0x51)));
    assert!(index.coins_created_at(4).is_empty());
    let rows: Vec<(u64, Denom, u128)> =
        index.snapshots_at(3).iter().map(|r| (r.height, r.denom, r.value)).collect();
    assert_eq!(rows, vec![(3, Denom::Mel, 0), (3, denom_x(), 100)]);
    let rows: Vec<(u64, Denom, u128)> =
        index.snapshots_at(5).iter().map(|r| (r.height, r.denom, r.value)).collect();
    assert_eq!(rows, vec![(5, Denom::Mel, 0), (5, denom_x(), 0)]);
    assert!(index.snapshots_at(6).is_empty());
}

#[test]
fn spends_of_a_block_are_the_held_coins_among_its_inputs() {
    let mut index = Indexer::new();
    let creates = tx(0x31, vec![], vec![coin(100, denom_x()), coin(7, denom_x())]);
    assert_eq!(index.apply_block(block(1, vec![creates]), 0), Ok(()));
    let first = CoinID { txhash: hash(0x31), index: 0 };
    let second = CoinID { txhash: hash(0x31), index: 1 };
    let unknown = CoinID { txhash: hash(0x99), index: 0 };
    let made_here = CoinID { txhash: hash(0x41), index: 0 };
    let next = || {
        block(
            2,
            vec![
                tx(0x41, vec![second, unknown], vec![coin(5, denom_x())]),
                tx(0x42, vec![made_here, first], vec![]),
            ],
        )
    };
    // in the order of the block; neither the unknown coin nor the one that the block creates itself
    let spends = index.spends_of(&next());
    assert_eq!(spends, vec![(second, hash(0x41)), (first, hash(0x42))]);
    assert_eq!(index.apply_block(next(), 0), Ok(()));
    for (coin_id, spender) in spends {
        assert_eq!(index.get_coin(coin_id).unwrap().spent_by, Some(spender));
    }
    assert_eq!(index.get_coin(made_here).unwrap().spent_by, Some(hash(0x42)));
    // nothing is left to mark once the block is in
    assert_eq!(index.spends_of(&block(3, vec![])), vec![]);
}
