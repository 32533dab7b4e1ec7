use melscan::crawl::{
    find_spend_within_range, find_spending_height, find_spending_transaction, is_spent,
    locate_spender, refusal, settles_search, CoinCrawl, CrawlError, SearchFailure, SearchStep,
    SpendSearch,
};
use melscan::structs::{
    Block, CoinData, CoinDataHeight, CoinID, Denom, HashVal, Header, Transaction,
};

fn hash(tag: u8) -> HashVal {
    HashVal { bytes: [tag; 32] }
}

fn coin(value: u128) -> CoinData {
    CoinData { covhash: hash(0xc0), value, denom: Denom::Custom(hash(0x58)), additional_data: vec![] }
}

fn tx(tag: u8, inputs: Vec<CoinID>, outputs: Vec<CoinData>) -> Transaction {
    Transaction { hash: hash(tag), inputs, outputs, fee: 0, weight: 0 }
}

fn block(height: u64, transactions: Vec<Transaction>) -> Block {
    Block {
        header: Header { height, fee_pool: 0, fee_multiplier: 0, hash: hash(height as u8), encoded: vec![] },
        transactions,
    }
}

fn coin_c() -> CoinID {
    CoinID { txhash: hash(0x31), index: 0 }
}

/// Block 3 creates the coin, block 5 spends it.
fn chain(height: u64) -> Block {
    match height {
        3 => block(3, vec![tx(0x31, vec![], vec![coin(100)])]),
        5 => block(5, vec![tx(0x50, vec![], vec![]), tx(0x51, vec![coin_c()], vec![])]),
        h => block(h, vec![]),
    }
}

fn threshold(k: u64) -> impl Fn(u64) -> Result<bool, String> {
    move |height| Ok(height >= k)
}

#[test]
fn search_finds_the_threshold() {
    for k in 3..=10u64 {
        assert_eq!(find_spending_height(3, 10, threshold(k)), Ok(Some(k)));
    }
    assert_eq!(find_spending_height(7, 7, threshold(7)), Ok(Some(7)));
    for low in 0..12u64 {
        for high in low..12u64 {
            for k in low..=high {
                assert_eq!(find_spending_height(low, high, threshold(k)), Ok(Some(k)));
            }
            assert_eq!(find_spending_height(low, high, threshold(high + 1)), Ok(None));
        }
    }
}

#[test]
fn search_reports_unspent_above_the_range() {
    assert_eq!(find_spending_height(3, 10, threshold(11)), Ok(None));
    assert_eq!(find_spending_height(3, 10, threshold(u64::MAX)), Ok(None));
}

#[test]
fn search_of_empty_range_asks_nothing() {
    let never = |_h: u64| -> Result<bool, String> { panic!("no question expected") };
    assert_eq!(find_spending_height(10, 3, never), Ok(None));
}

#[test]
fn search_reports_the_lower_bound_where_the_coin_is_gone_there() {
    assert_eq!(find_spending_height(3, 10, threshold(3)), Ok(Some(3)));
    // gone before the range begins: the smallest height of the range is the lower bound
    assert_eq!(find_spending_height(3, 10, threshold(1)), Ok(Some(3)));
    assert_eq!(find_spending_height(0, u64::MAX, threshold(0)), Ok(Some(0)));
    assert_eq!(find_spending_height(0, u64::MAX, threshold(u64::MAX)), Ok(Some(u64::MAX)));
}

#[test]
fn search_asks_about_a_single_height_once() {
    let asked = std::cell::RefCell::new(vec![]);
    let oracle = |height: u64| -> Result<bool, String> {
        asked.borrow_mut().push(height);
        Ok(true)
    };
    assert_eq!(find_spending_height(7, 7, oracle), Ok(Some(7)));
    assert_eq!(*asked.borrow(), vec![7]);
}

#[test]
fn search_hands_on_the_first_error() {
    let failing = |height: u64| if height == 6 { Err("timeout".to_string()) } else { Ok(height >= 5) };
    assert_eq!(find_spending_height(3, 10, failing), Err("timeout".to_string()));
}

#[test]
fn search_asks_about_upper_bound_first_and_then_bisects() {
    let mut search = SpendSearch::new(3, 10);
    let mut asked = vec![];
    let found = loop {
        match search.next() {
            SearchStep::Done(found) => break found,
            SearchStep::Probe(height) => {
                asked.push(height);
                search.answer(height >= 5);
            }
        }
    };
    assert_eq!(found, Some(5));
    assert_eq!(asked, vec![10, 3, 6, 4, 5]);
}

#[test]
fn end_to_end_spend_of_coin_is_found() {
    let exists_at = |height: u64| -> Result<bool, String> { Ok(height >= 5) };
    let get_block = |height: u64| -> Result<Block, String> { Ok(chain(height)) };
    let found = find_spend_within_range(coin_c(), 3, 10, exists_at, get_block);
    match found {
        Ok(Some((height, txhash))) => {
            assert_eq!(height, 5);
            assert_eq!(txhash, hash(0x51));
        }
        other => panic!("unexpected: {:?}", other),
    }
}

#[test]
fn missing_spender_is_an_inconsistency() {
    let exists_at = |height: u64| -> Result<bool, String> { Ok(height >= 4) };
    let get_block = |height: u64| -> Result<Block, String> { Ok(chain(height)) };
    match find_spend_within_range(coin_c(), 3, 10, exists_at, get_block) {
        Err(SearchFailure::Inconsistent(CrawlError::SpenderMissing)) => {}
        other => panic!("unexpected: {:?}", other),
    }
    assert_eq!(locate_spender(&chain(4), coin_c(), 4), Err(CrawlError::SpenderMissing));
    assert_eq!(locate_spender(&chain(5), coin_c(), 5), Ok((5, hash(0x51))));
}

#[test]
fn spending_transaction_is_the_first_with_the_input() {
    let c = coin_c();
    let blk = block(9, vec![tx(1, vec![], vec![]), tx(2, vec![c], vec![]), tx(3, vec![c], vec![])]);
    assert_eq!(find_spending_transaction(&blk, c).map(|t| t.hash), Some(hash(2)));
    assert!(find_spending_transaction(&blk, CoinID { txhash: hash(0x31), index: 1 }).is_none());
}

#[test]
fn absent_coin_counts_as_spent() {
    assert!(is_spent(&None));
    assert!(!is_spent(&Some(CoinDataHeight { coin_data: coin(1), height: 3 })));
}

#[test]
fn end_to_end_crawl_reports_spender_of_created_coin() {
    let creating = tx(0x31, vec![], vec![coin(100)]);
    let exists_at = |height: u64| -> Result<bool, String> { Ok(height >= 5) };
    let get_block = |height: u64| -> Result<Block, String> { Ok(chain(height)) };
    let spender = find_spend_within_range(coin_c(), 3, 5, exists_at, get_block).unwrap();
    let crawl = CoinCrawl::assemble(3, creating, vec![], vec![spender]).unwrap();
    assert_eq!(crawl.crawls.len(), 1);
    assert_eq!(crawl.crawls[0].coinid, coin_c());
    assert_eq!(crawl.crawls[0].coinheight, 3);
    assert_eq!(crawl.crawls[0].coindata.value, 100);
    assert_eq!(crawl.crawls[0].spender, Some((5, hash(0x51))));
    assert!(crawl.is_cacheable());
}

#[test]
fn crawl_lists_inputs_then_outputs_and_is_kept_only_when_all_spent() {
    let input = CoinID { txhash: hash(0x11), index: 2 };
    let spending = tx(0x51, vec![input], vec![coin(60), coin(40)]);
    let before = CoinDataHeight { coin_data: coin(100), height: 3 };
    let crawl = CoinCrawl::assemble(5, spending, vec![before], vec![Some((8, hash(0x81))), None]).unwrap();
    assert_eq!(crawl.crawls.len(), 3);
    assert_eq!(crawl.crawls[0].coinid, input);
    assert_eq!(crawl.crawls[0].coinheight, 3);
    assert_eq!(crawl.crawls[0].spender, Some((5, hash(0x51))));
    assert_eq!(crawl.crawls[1].coinid, CoinID { txhash: hash(0x51), index: 0 });
    assert_eq!(crawl.crawls[1].coinheight, 5);
    assert_eq!(crawl.crawls[1].spender, Some((8, hash(0x81))));
    assert_eq!(crawl.crawls[2].coinid, CoinID { txhash: hash(0x51), index: 1 });
    assert_eq!(crawl.crawls[2].spender, None);
    assert!(!crawl.is_cacheable());
}

#[test]
fn crawl_refuses_mismatched_shapes() {
    let input = CoinID { txhash: hash(0x11), index: 2 };
    let make = || tx(0x51, vec![input], vec![coin(60)]);
    assert_eq!(
        CoinCrawl::assemble(5, make(), vec![], vec![None]).err(),
        Some(CrawlError::InputCountMismatch)
    );
    let before = || CoinDataHeight { coin_data: coin(100), height: 3 };
    assert_eq!(
        CoinCrawl::assemble(5, make(), vec![before()], vec![]).err(),
        Some(CrawlError::OutputCountMismatch)
    );
    let many = tx(0x52, vec![], (0..257).map(|_| coin(1)).collect());
    assert_eq!(
        CoinCrawl::assemble(5, many, vec![], (0..257).map(|_| None).collect()).err(),
        Some(CrawlError::TooManyOutputs)
    );
}

#[test]
fn end_to_end_crawl_through_the_ledger() {
    let ledger: Vec<Block> = (0..=10).map(chain).collect();
    let get_transaction = |height: u64, txhash: HashVal| -> Result<Option<Transaction>, String> {
        Ok(chain(height).transactions.into_iter().find(|t| t.hash == txhash))
    };
    let get_coin_spent_here = |_coin: CoinID| -> Result<Option<CoinDataHeight>, String> {
        Ok(Some(CoinDataHeight { coin_data: coin(100), height: 3 }))
    };
    let latest = |_: ()| -> Result<u64, String> { Ok(10) };
    let exists = |coinid: CoinID, height: u64| -> Result<bool, String> {
        // gone from the block that spends it, on
        Ok(ledger[..=height as usize].iter().any(|b| b.transactions.iter().any(|t| t.inputs.contains(&coinid))))
    };
    let get_block = |height: u64| -> Result<Block, String> { Ok(chain(height)) };
    let crawl = CoinCrawl::crawl(3, hash(0x31), get_transaction, get_coin_spent_here, latest, exists, get_block).unwrap().unwrap();
    assert_eq!(crawl.crawls.len(), 1);
    assert_eq!(crawl.crawls[0].coinid, coin_c());
    assert_eq!(crawl.crawls[0].coinheight, 3);
    assert_eq!(crawl.crawls[0].spender, Some((5, hash(0x51))));
    assert!(crawl.is_cacheable());

    let spending = CoinCrawl::crawl(5, hash(0x51), get_transaction, get_coin_spent_here, latest, exists, get_block).unwrap().unwrap();
    assert_eq!(spending.crawls.len(), 1);
    assert_eq!(spending.crawls[0].coinid, coin_c());
    assert_eq!(spending.crawls[0].coinheight, 3);
    assert_eq!(spending.crawls[0].coindata.value, 100);
    assert_eq!(spending.crawls[0].spender, Some((5, hash(0x51))));
}

#[test]
fn crawl_of_unknown_transaction_is_empty() {
    let none = |_h: u64, _t: HashVal| -> Result<Option<Transaction>, String> { Ok(None) };
    let never_coin = |_c: CoinID| -> Result<Option<CoinDataHeight>, String> { panic!("not asked") };
    let latest = |_: ()| -> Result<u64, String> { Ok(10) };
    let exists = |_c: CoinID, _h: u64| -> Result<bool, String> { Ok(false) };
    let get_block = |height: u64| -> Result<Block, String> { Ok(chain(height)) };
    // no crawl, and no failure either
    match CoinCrawl::crawl(3, hash(0x77), none, never_coin, latest, exists, get_block) {
        Ok(None) => {}
        other => panic!("unexpected: {:?}", other),
    }
}

#[test]
fn crawl_hands_on_ledger_failures_and_unspent_inputs() {
    let get_transaction = |height: u64, txhash: HashVal| -> Result<Option<Transaction>, String> {
        Ok(chain(height).transactions.into_iter().find(|t| t.hash == txhash))
    };
    let gone = |_c: CoinID| -> Result<Option<CoinDataHeight>, String> { Ok(None) };
    let latest = |_: ()| -> Result<u64, String> { Ok(10) };
    let down = |_: ()| -> Result<u64, String> { Err("node is down".into()) };
    let exists = |_c: CoinID, _h: u64| -> Result<bool, String> { Ok(false) };
    let get_block = |height: u64| -> Result<Block, String> { Ok(chain(height)) };
    match CoinCrawl::crawl(5, hash(0x51), get_transaction, gone, latest, exists, get_block) {
        Err(SearchFailure::Inconsistent(CrawlError::NotSpentHere)) => {}
        other => panic!("unexpected: {:?}", other),
    }
    let some = |_c: CoinID| -> Result<Option<CoinDataHeight>, String> {
        Ok(Some(CoinDataHeight { coin_data: coin(100), height: 3 }))
    };
    match CoinCrawl::crawl(3, hash(0x31), get_transaction, some, down, exists, get_block) {
        Err(SearchFailure::Ledger(e)) => assert_eq!(e, "node is down"),
        other => panic!("unexpected: {:?}", other),
    }
}

#[test]
fn search_asks_a_logarithmic_number_of_questions() {
    for k in [1u64, 2, 3, 1000, 524_288, 1_048_575, 1_048_576] {
        let mut search = SpendSearch::new(0, 1 << 20);
        let mut questions = 0;
        let found = loop {
            match search.next() {
                SearchStep::Done(found) => break found,
                SearchStep::Probe(height) => {
                    questions += 1;
                    search.answer(height >= k);
                }
            }
        };
        assert_eq!(found, Some(k));
        // one question for each bound, twenty halvings of the gap
        assert!(questions <= 22, "{} questions", questions);
    }
}

#[test]
fn crawl_refuses_a_transaction_under_another_hash() {
    let other = |_h: u64, _t: HashVal| -> Result<Option<Transaction>, String> {
        Ok(Some(tx(0x31, vec![], vec![coin(100)])))
    };
    let never_coin = |_c: CoinID| -> Result<Option<CoinDataHeight>, String> { panic!("not asked") };
    let never_tip = |_: ()| -> Result<u64, String> { panic!("not asked") };
    let never_spent = |_c: CoinID, _h: u64| -> Result<bool, String> { panic!("not asked") };
    let never_block = |_h: u64| -> Result<Block, String> { panic!("not asked") };
    match CoinCrawl::crawl(3, hash(0x99), other, never_coin, never_tip, never_spent, never_block) {
        Err(SearchFailure::Inconsistent(CrawlError::HashMismatch)) => {}
        other => panic!("unexpected: {:?}", other),
    }
}

#[test]
fn crawl_refuses_more_outputs_than_coin_indexes() {
    let wide = |_h: u64, _t: HashVal| -> Result<Option<Transaction>, String> {
        Ok(Some(tx(0x31, vec![], (0..257).map(|_| coin(1)).collect())))
    };
    let never_coin = |_c: CoinID| -> Result<Option<CoinDataHeight>, String> { panic!("not asked") };
    let never_tip = |_: ()| -> Result<u64, String> { panic!("not asked") };
    let never_spent = |_c: CoinID, _h: u64| -> Result<bool, String> { panic!("not asked") };
    let never_block = |_h: u64| -> Result<Block, String> { panic!("not asked") };
    match CoinCrawl::crawl(3, hash(0x31), wide, never_coin, never_tip, never_spent, never_block) {
        Err(SearchFailure::Inconsistent(CrawlError::TooManyOutputs)) => {}
        other => panic!("unexpected: {:?}", other),
    }
    let full = |_h: u64, _t: HashVal| -> Result<Option<Transaction>, String> {
        Ok(Some(tx(0x31, vec![], (0..256).map(|_| coin(1)).collect())))
    };
    let none = |_c: CoinID| -> Result<Option<CoinDataHeight>, String> { Ok(None) };
    let tip = |_: ()| -> Result<u64, String> { Ok(10) };
    let unspent = |_c: CoinID, _h: u64| -> Result<bool, String> { Ok(false) };
    let crawl = CoinCrawl::crawl(3, hash(0x31), full, none, tip, unspent, never_block).unwrap().unwrap();
    assert_eq!(crawl.crawls.len(), 256);
    assert_eq!(crawl.crawls[255].coinid, CoinID { txhash: hash(0x31), index: 255 });
}

#[test]
fn crawl_reports_a_block_without_the_spender() {
    let get_transaction = |height: u64, txhash: HashVal| -> Result<Option<Transaction>, String> {
        Ok(chain(height).transactions.into_iter().find(|t| t.hash == txhash))
    };
    let none = |_c: CoinID| -> Result<Option<CoinDataHeight>, String> { Ok(None) };
    let latest = |_: ()| -> Result<u64, String> { Ok(10) };
    // the ledger holds the coin as gone from height 6 on, and block 6 does not spend it
    let gone_from_six = |_c: CoinID, height: u64| -> Result<bool, String> { Ok(height >= 6) };
    let get_block = |height: u64| -> Result<Block, String> { Ok(chain(height)) };
    match CoinCrawl::crawl(3, hash(0x31), get_transaction, none, latest, gone_from_six, get_block) {
        Err(SearchFailure::Inconsistent(CrawlError::SpenderMissing)) => {}
        other => panic!("unexpected: {:?}", other),
    }
    let no_block = |height: u64| -> Result<Block, String> { Err(format!("no block {}", height)) };
    match CoinCrawl::crawl(3, hash(0x31), get_transaction, none, latest, gone_from_six, no_block) {
        Err(SearchFailure::Ledger(e)) => assert_eq!(e, "no block 6"),
        other => panic!("unexpected: {:?}", other),
    }
}

#[test]
fn crawl_leaves_an_unspent_output_open() {
    let get_transaction = |height: u64, txhash: HashVal| -> Result<Option<Transaction>, String> {
        Ok(chain(height).transactions.into_iter().find(|t| t.hash == txhash))
    };
    let none = |_c: CoinID| -> Result<Option<CoinDataHeight>, String> { Ok(None) };
    // the chain ends before the block that spends the coin
    let latest = |_: ()| -> Result<u64, String> { Ok(4) };
    let spent = |_c: CoinID, height: u64| -> Result<bool, String> { Ok(height >= 5) };
    let never_block = |_h: u64| -> Result<Block, String> { panic!("not asked") };
    let crawl = CoinCrawl::crawl(3, hash(0x31), get_transaction, none, latest, spent, never_block).unwrap().unwrap();
    assert_eq!(crawl.crawls.len(), 1);
    assert_eq!(crawl.crawls[0].spender, None);
    assert!(!crawl.is_cacheable());

    // the chain has grown: the same crawl now names the spender
    let later = |_: ()| -> Result<u64, String> { Ok(5) };
    let get_block = |height: u64| -> Result<Block, String> { Ok(chain(height)) };
    let crawl = CoinCrawl::crawl(3, hash(0x31), get_transaction, none, later, spent, get_block).unwrap().unwrap();
    assert_eq!(crawl.crawls[0].spender, Some((5, hash(0x51))));
    assert!(crawl.is_cacheable());
}

#[test]
fn spend_search_of_empty_range_asks_nothing() {
    let never_spent = |_h: u64| -> Result<bool, String> { panic!("no question expected") };
    let never_block = |_h: u64| -> Result<Block, String> { panic!("no block expected") };
    match find_spend_within_range(coin_c(), 7, 3, never_spent, never_block) {
        Ok(None) => {}
        other => panic!("unexpected: {:?}", other),
    }
}

#[test]
fn known_spend_settles_the_ranges_that_would_find_it() {
    assert!(settles_search(3, 10, 5));
    assert!(settles_search(4, 5, 5));
    assert!(settles_search(5, 5, 5));
    assert!(settles_search(5, 10, 5));
    // the spend lies outside the range: the search has to decide
    assert!(!settles_search(6, 10, 5));
    assert_eq!(find_spending_height(6, 10, threshold(5)), Ok(Some(6)));
    assert!(!settles_search(1, 4, 5));
    assert_eq!(find_spending_height(1, 4, threshold(5)), Ok(None));
    assert!(!settles_search(10, 3, 5));
    for low in 0..8u64 {
        for high in 0..12u64 {
            if settles_search(low, high, 5) {
                assert_eq!(find_spending_height(low, high, threshold(5)), Ok(Some(5)));
            }
        }
    }
}

#[test]
fn crawl_finds_a_spend_in_the_block_that_created_the_coin() {
    // block 3 creates the coin and spends it again
    let blocks = |height: u64| -> Block {
        match height {
            3 => block(3, vec![tx(0x31, vec![], vec![coin(100)]), tx(0x32, vec![coin_c()], vec![])]),
            h => block(h, vec![]),
        }
    };
    let get_transaction = |height: u64, txhash: HashVal| -> Result<Option<Transaction>, String> {
        Ok(blocks(height).transactions.into_iter().find(|t| t.hash == txhash))
    };
    let none = |_c: CoinID| -> Result<Option<CoinDataHeight>, String> { Ok(None) };
    let latest = |_: ()| -> Result<u64, String> { Ok(10) };
    let gone = |_c: CoinID, height: u64| -> Result<bool, String> { Ok(height >= 3) };
    let get_block = |height: u64| -> Result<Block, String> { Ok(blocks(height)) };
    let found = find_spend_within_range(coin_c(), 3, 10, |h| gone(coin_c(), h), get_block);
    match found {
        Ok(Some(spender)) => assert_eq!(spender, (3, hash(0x32))),
        other => panic!("unexpected: {:?}", other),
    }
    let crawl = CoinCrawl::crawl(3, hash(0x31), get_transaction, none, latest, gone, get_block).unwrap().unwrap();
    assert_eq!(crawl.crawls.len(), 1);
    assert_eq!(crawl.crawls[0].spender, Some((3, hash(0x32))));
    assert!(crawl.is_cacheable());
}

#[test]
fn transaction_is_refused_for_its_hash_before_its_width() {
    let narrow = tx(0x31, vec![], vec![coin(1)]);
    let wide = tx(0x31, vec![], (0..257).map(|_| coin(1)).collect());
    assert_eq!(refusal(&narrow, hash(0x31)), None);
    assert_eq!(refusal(&narrow, hash(0x32)), Some(CrawlError::HashMismatch));
    assert_eq!(refusal(&wide, hash(0x31)), Some(CrawlError::TooManyOutputs));
    assert_eq!(refusal(&wide, hash(0x32)), Some(CrawlError::HashMismatch));
}
