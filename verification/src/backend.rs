//! Read-only views over blocks and coins: summaries of blocks and of
//! their transactions, and what an address holds and moved.

use vstd::prelude::*;
use crate::structs::{
    Address, Block, BlockHeight, BlockView, CoinData, CoinDataView, Denom, HashVal, Header,
    HeaderView, TransactionView, TxHash,
};
use crate::graphs::{checked_height_to_datetime, time_of};
use crate::tally::{is_tally, keys_of, tally, tally_of, tally_overflows};

verus! {

/// The sum of a sequence of amounts.
pub open spec fn total(amounts: Seq<u128>) -> int
    decreases amounts.len(),
{
    if amounts.len() == 0 {
        0
    } else {
        total(amounts.drop_last()) + amounts.last()
    }
}

proof fn lemma_total_not_negative(amounts: Seq<u128>)
    ensures
        0 <= total(amounts),
    decreases amounts.len(),
{
    if amounts.len() > 0 {
        lemma_total_not_negative(amounts.drop_last());
    }
}

proof fn lemma_total_grows(amounts: Seq<u128>, n: int)
    requires
        0 <= n <= amounts.len(),
    ensures
        total(amounts.take(n)) <= total(amounts),
    decreases amounts.len() - n,
{
    if n < amounts.len() {
        assert(amounts.take(n + 1).drop_last() =~= amounts.take(n));
        lemma_total_grows(amounts, n + 1);
    } else {
        assert(amounts.take(n) =~= amounts);
    }
}

/// The sum of the amounts, or `None` where it exceeds 128 bits.
pub fn sum_amounts(amounts: &Vec<u128>) -> (sum: Option<u128>)
    ensures
        sum == (if total(amounts@) <= u128::MAX {
            Some(total(amounts@) as u128)
        } else {
            None
        }),
        0 <= total(amounts@),
{
    proof {
        lemma_total_not_negative(amounts@);
    }
    let mut sum: u128 = 0;
    let mut i: usize = 0;
    assert(amounts@.take(0) =~= Seq::<u128>::empty());
    while i < amounts.len()
        invariant
            i <= amounts.len(),
            sum == total(amounts@.take(i as int)),
        decreases amounts.len() - i,
    {
        proof {
            assert(amounts@.take(i + 1).drop_last() =~= amounts@.take(i as int));
            lemma_total_grows(amounts@, i + 1);
        }
        match sum.checked_add(amounts[i]) {
            None => {
                return None;
            },
            Some(next) => {
                sum = next;
            },
        }
        i = i + 1;
    }
    assert(amounts@.take(amounts@.len() as int) =~= amounts@);
    Some(sum)
}

/// What each output of a transaction adds to the primary denomination.
pub open spec fn mel_values(tx: TransactionView) -> Seq<u128> {
    Seq::new(
        tx.outputs.len(),
        |i: int|
            if tx.outputs[i].denom == Denom::Mel {
                tx.outputs[i].value
            } else {
                0
            },
    )
}

/// The primary denomination that a transaction moves: what its outputs
/// hold of it, and its fee.
pub open spec fn mel_moved(tx: TransactionView) -> int {
    total(mel_values(tx)) + tx.fee
}

/// The 32 bytes of a hash read as two numbers of 128 bits, the first
/// bytes counting most.
pub open spec fn number_of(bytes: Seq<u8>) -> int
    decreases bytes.len(),
{
    if bytes.len() == 0 {
        0
    } else {
        number_of(bytes.drop_last()) * 256 + bytes.last()
    }
}

/// The key by which the transactions of a summary are ordered: the hash,
/// its first bytes counting most, then weight, then amount moved.
pub struct SummaryKey {
    pub high: int,
    pub low: int,
    pub weight: int,
    pub moved: int,
}

/// `a` comes before `b`, or they are the same key.
pub open spec fn key_le(a: SummaryKey, b: SummaryKey) -> bool {
    a.high < b.high || (a.high == b.high && (a.low < b.low || (a.low == b.low && (a.weight < b.weight
        || (a.weight == b.weight && a.moved <= b.moved)))))
}

/// The key of a transaction.
pub open spec fn key_of(tx: TransactionView) -> SummaryKey {
    SummaryKey {
        high: number_of(tx.hash.bytes@.take(16)),
        low: number_of(tx.hash.bytes@.skip(16)),
        weight: tx.weight as int,
        moved: mel_moved(tx),
    }
}

proof fn lemma_number_bound(bytes: Seq<u8>)
    ensures
        0 <= number_of(bytes),
        bytes.len() <= 16 ==> number_of(bytes) < pow256(bytes.len()),
    decreases bytes.len(),
{
    if bytes.len() > 0 {
        lemma_number_bound(bytes.drop_last());
    }
}

/// 256 to the power of `n`, for `n` up to 16.
spec fn pow256(n: nat) -> int
    decreases n,
{
    if n == 0 {
        1
    } else {
        256 * pow256((n - 1) as nat)
    }
}

proof fn lemma_pow256_16()
    ensures
        pow256(16) == 0x1_0000_0000_0000_0000_0000_0000_0000_0000,
{
    reveal_with_fuel(pow256, 17);
}

/// Sixteen bytes of a hash, from `from` on, as one number.
fn hash_half(hash: &HashVal, from: usize) -> (number: u128)
    requires
        from == 0 || from == 16,
    ensures
        number == number_of(hash.bytes@.subrange(from as int, from + 16)),
{
    let ghost half = hash.bytes@.subrange(from as int, from + 16);
    let mut number: u128 = 0;
    let mut i: usize = 0;
    assert(half.take(0) =~= Seq::<u8>::empty());
    while i < 16
        invariant
            i <= 16,
            from == 0 || from == 16,
            half == hash.bytes@.subrange(from as int, from + 16),
            number == number_of(half.take(i as int)),
        decreases 16 - i,
    {
        proof {
            lemma_number_bound(half.take(i as int));
            lemma_number_bound(half.take(i + 1));
            lemma_pow256_16();
            assert(half.take(i + 1).drop_last() =~= half.take(i as int));
            assert(half.take(i + 1).last() == hash.bytes@[from + i]);
            assert(pow256((i + 1) as nat) <= pow256(16)) by {
                reveal_with_fuel(pow256, 17);
            }
        }
        number = number * 256 + hash.bytes[from + i] as u128;
        i = i + 1;
    }
    assert(half.take(16) =~= half);
    number
}

/// The summary of one transaction of a block.
#[derive(Debug, PartialEq, Eq)]
pub struct TransactionSummary {
    pub hash: String,
    pub shorthash: String,
    pub height: BlockHeight,
    pub weight: u128,
    pub mel_moved: u128,
}

/// Mathematical value of a [`TransactionSummary`].
pub struct TransactionSummaryView {
    pub hash: Seq<char>,
    pub shorthash: Seq<char>,
    pub height: BlockHeight,
    pub weight: u128,
    pub mel_moved: u128,
}

impl View for TransactionSummary {
    type V = TransactionSummaryView;

    open spec fn view(&self) -> TransactionSummaryView {
        TransactionSummaryView {
            hash: self.hash@,
            shorthash: self.shorthash@,
            height: self.height,
            weight: self.weight,
            mel_moved: self.mel_moved,
        }
    }
}

impl DeepView for TransactionSummary {
    type V = TransactionSummaryView;

    open spec fn deep_view(&self) -> TransactionSummaryView {
        self@
    }
}

/// The summary of the transaction `tx` of the block at `height`.
pub open spec fn summary_of(tx: TransactionView, height: BlockHeight) -> TransactionSummaryView {
    TransactionSummaryView {
        hash: crate::hexcode::hex_text(tx.hash.bytes@),
        shorthash: crate::hexcode::hex_text(tx.hash.bytes@.take(5)),
        height,
        weight: tx.weight,
        mel_moved: mel_moved(tx) as u128,
    }
}

/// `order` lists the places `0..n`, each once.
pub open spec fn is_arrangement(order: Seq<usize>, n: int) -> bool {
    &&& order.len() == n
    &&& forall|k: int| 0 <= k < order.len() ==> (#[trigger] order[k]) < n
    &&& forall|k1: int, k2: int| 0 <= k1 < k2 < order.len() ==> order[k1] != order[k2]
}

/// `order` lists places of `txs` in the order of their keys.
pub open spec fn in_key_order(txs: Seq<TransactionView>, order: Seq<usize>) -> bool {
    forall|k1: int, k2: int|
        0 <= k1 < k2 < order.len() ==> key_le(
            key_of(txs[(#[trigger] order[k1]) as int]),
            key_of(txs[(#[trigger] order[k2]) as int]),
        )
}

/// `summaries` are the summaries of the transactions of a block, ordered
/// by key.
pub open spec fn summarizes(block: BlockView, summaries: Seq<TransactionSummaryView>) -> bool {
    exists|order: Seq<usize>|
        {
            &&& is_arrangement(order, block.transactions.len() as int)
            &&& in_key_order(block.transactions, order)
            &&& summaries.len() == order.len()
            &&& forall|k: int|
                0 <= k < order.len() ==> #[trigger] summaries[k] == summary_of(
                    block.transactions[order[k] as int],
                    block.header.height,
                )
        }
}

/// The amount moved by every transaction of the block fits in 128 bits.
pub open spec fn amounts_fit(block: BlockView) -> bool {
    forall|i: int|
        0 <= i < block.transactions.len() ==> mel_moved(#[trigger] block.transactions[i])
            <= u128::MAX
}

/// The key of a transaction, as executable numbers.
struct ExecKey {
    high: u128,
    low: u128,
    weight: u128,
    moved: u128,
    place: usize,
}

impl ExecKey {
    spec fn key(self) -> SummaryKey {
        SummaryKey {
            high: self.high as int,
            low: self.low as int,
            weight: self.weight as int,
            moved: self.moved as int,
        }
    }

    fn le(&self, other: &ExecKey) -> (r: bool)
        ensures
            r == key_le(self.key(), other.key()),
    {
        self.high < other.high || (self.high == other.high && (self.low < other.low || (self.low
            == other.low && (self.weight < other.weight || (self.weight == other.weight
            && self.moved <= other.moved)))))
    }
}

/// What a transaction moves of the primary denomination, or `None` where
/// that exceeds 128 bits.
fn mel_moved_by(tx: &crate::structs::Transaction) -> (moved: Option<u128>)
    ensures
        moved == (if mel_moved(tx@) <= u128::MAX {
            Some(mel_moved(tx@) as u128)
        } else {
            None
        }),
        0 <= mel_moved(tx@),
{
    proof {
        lemma_total_not_negative(mel_values(tx@));
    }
    let mut values: Vec<u128> = Vec::new();
    let mut i: usize = 0;
    while i < tx.outputs.len()
        invariant
            i <= tx.outputs.len(),
            values@.len() == i,
            forall|k: int| 0 <= k < i ==> values@[k] == mel_values(tx@)[k],
        decreases tx.outputs.len() - i,
    {
        assert(tx@.outputs[i as int] == tx.outputs@[i as int]@);
        let value = if tx.outputs[i].denom == Denom::Mel {
            tx.outputs[i].value
        } else {
            0
        };
        values.push(value);
        i = i + 1;
    }
    assert(values@ =~= mel_values(tx@));
    match sum_amounts(&values) {
        None => None,
        Some(outputs) => {
            assert(outputs == total(mel_values(tx@)));
            outputs.checked_add(tx.fee)
        },
    }
}

/// The summaries of the transactions of a block, ordered by key: by hash,
/// its first bytes counting most, then by weight, then by amount moved.
/// `None` where an amount moved exceeds 128 bits.
pub fn get_transactions(block: &Block) -> (summaries: Option<Vec<TransactionSummary>>)
    ensures
        match summaries {
            Some(s) => amounts_fit(block@) && summarizes(block@, s.deep_view()),
            None => !amounts_fit(block@),
        },
{
    let ghost txs = block@.transactions;
    let n = block.transactions.len();
    let mut keys: Vec<ExecKey> = Vec::new();
    let mut i: usize = 0;
    while i < n
        invariant
            i <= n,
            n == block.transactions.len(),
            txs == block@.transactions,
            keys@.len() == i,
            forall|k: int| 0 <= k < i ==> mel_moved(#[trigger] txs[k]) <= u128::MAX,
            forall|k: int|
                0 <= k < i ==> (#[trigger] keys@[k]).place < i && keys@[k].key() == key_of(
                    txs[keys@[k].place as int],
                ),
            forall|k1: int, k2: int| 0 <= k1 < k2 < i ==> keys@[k1].place != keys@[k2].place,
            forall|k1: int, k2: int|
                0 <= k1 < k2 < i ==> key_le((#[trigger] keys@[k1]).key(), (#[trigger] keys@[k2]).key()),
        decreases n - i,
    {
        let tx = &block.transactions[i];
        assert(txs[i as int] == tx@);
        let moved = match mel_moved_by(tx) {
            None => {
                return None;
            },
            Some(moved) => moved,
        };
        proof {
            assert(tx.hash.bytes@.subrange(0, 16) =~= tx.hash.bytes@.take(16));
            assert(tx.hash.bytes@.subrange(16, 32) =~= tx.hash.bytes@.skip(16));
        }
        let key = ExecKey {
            high: hash_half(&tx.hash, 0),
            low: hash_half(&tx.hash, 16),
            weight: tx.weight,
            moved,
            place: i,
        };
        let mut at: usize = 0;
        while at < keys.len() && keys[at].le(&key)
            invariant
                at <= keys@.len(),
                forall|k: int| 0 <= k < at ==> key_le((#[trigger] keys@[k]).key(), key.key()),
            decreases keys@.len() - at,
        {
            at = at + 1;
        }
        let ghost before = keys@;
        keys.insert(at, key);
        proof {
            assert forall|k1: int, k2: int| 0 <= k1 < k2 < keys@.len() implies key_le(
                (#[trigger] keys@[k1]).key(),
                (#[trigger] keys@[k2]).key(),
            ) by {
                if k2 < at {
                    assert(keys@[k1] == before[k1] && keys@[k2] == before[k2]);
                } else if k2 == at {
                    assert(keys@[k1] == before[k1]);
                } else if k1 < at {
                    assert(keys@[k1] == before[k1] && keys@[k2] == before[k2 - 1]);
                } else if k1 == at {
                    assert(keys@[k2] == before[k2 - 1]);
                    assert(key_le(before[at as int].key(), before[k2 - 1].key()) || at == k2 - 1);
                } else {
                    assert(keys@[k1] == before[k1 - 1] && keys@[k2] == before[k2 - 1]);
                }
            }
            assert forall|k: int| 0 <= k < keys@.len() implies (#[trigger] keys@[k]).place < i + 1
                && keys@[k].key() == key_of(txs[keys@[k].place as int]) by {
                if k < at {
                    assert(keys@[k] == before[k]);
                } else if k > at {
                    assert(keys@[k] == before[k - 1]);
                } else {
                    assert(keys@[k] == key);
                    assert(key.key().moved == mel_moved(txs[i as int]));
                    assert(key.key().high == key_of(txs[i as int]).high);
                    assert(key.key().low == key_of(txs[i as int]).low);
                }
            }
            assert forall|k1: int, k2: int| 0 <= k1 < k2 < keys@.len() implies keys@[k1].place
                != keys@[k2].place by {
                if k1 != at && k2 != at {
                    let j1 = if k1 < at { k1 } else { k1 - 1 };
                    let j2 = if k2 < at { k2 } else { k2 - 1 };
                    assert(before[j1].place != before[j2].place);
                } else if k1 == at {
                    assert(keys@[k2] == before[k2 - 1]);
                } else {
                    assert(keys@[k1] == before[k1]);
                }
            }
        }
        i = i + 1;
    }
    let ghost order = Seq::new(keys@.len(), |k: int| keys@[k].place);
    let mut summaries: Vec<TransactionSummary> = Vec::new();
    let mut k: usize = 0;
    while k < keys.len()
        invariant
            k <= keys@.len(),
            keys@.len() == n,
            n == block.transactions.len(),
            txs == block@.transactions,
            summaries@.len() == k,
            forall|j: int| 0 <= j < n ==> mel_moved(#[trigger] txs[j]) <= u128::MAX,
            forall|j: int|
                0 <= j < n ==> (#[trigger] keys@[j]).place < n && keys@[j].key() == key_of(
                    txs[keys@[j].place as int],
                ),
            forall|j: int|
                0 <= j < k ==> (#[trigger] summaries@[j])@ == summary_of(
                    txs[keys@[j].place as int],
                    block@.header.height,
                ),
        decreases keys@.len() - k,
    {
        let place = keys[k].place;
        let tx = &block.transactions[place];
        assert(txs[place as int] == tx@);
        summaries.push(
            TransactionSummary {
                hash: tx.hash.to_hex(),
                shorthash: tx.hash.to_short_hex(),
                height: block.header.height,
                weight: tx.weight,
                mel_moved: keys[k].moved,
            },
        );
        k = k + 1;
    }
    proof {
        let views = summaries.deep_view();
        assert(is_arrangement(order, txs.len() as int));
        assert(in_key_order(txs, order)) by {
            assert forall|k1: int, k2: int| 0 <= k1 < k2 < order.len() implies key_le(
                key_of(txs[(#[trigger] order[k1]) as int]),
                key_of(txs[(#[trigger] order[k2]) as int]),
            ) by {
                assert(key_le(keys@[k1].key(), keys@[k2].key()));
            }
        }
        assert forall|j: int| 0 <= j < order.len() implies #[trigger] views[j] == summary_of(
            txs[order[j] as int],
            block@.header.height,
        ) by {
            assert(views[j] == summaries@[j]@);
        }
        assert(summarizes(block@, views));
    }
    Some(summaries)
}

/// The weights of the transactions of a block.
pub open spec fn weights_of(block: BlockView) -> Seq<u128> {
    Seq::new(block.transactions.len(), |i: int| block.transactions[i].weight)
}

/// The fees of the transactions of a block.
pub open spec fn fees_of(block: BlockView) -> Seq<u128> {
    Seq::new(block.transactions.len(), |i: int| block.transactions[i].fee)
}

/// The fee multiplier of a header counts in parts of this number.
pub const FEE_MULTIPLIER_SCALE: u128 = 65536;

/// The summary of a block.
#[derive(Debug)]
pub struct BlockSummary {
    pub header: Header,
    pub total_weight: u128,
    pub reward_amount: u128,
    pub transactions: Vec<TransactionSummary>,
    pub header_hash: HashVal,
    pub total_fees: u128,
    /// The fee multiplier of the header, in parts of [`FEE_MULTIPLIER_SCALE`].
    pub fee_multiplier: u128,
}

/// The totals of a block fit in 128 bits: the amount that each
/// transaction moves, the sum of the weights, the sum of the fees.
pub open spec fn summary_fits(block: BlockView) -> bool {
    &&& amounts_fit(block)
    &&& total(weights_of(block)) <= u128::MAX
    &&& total(fees_of(block)) <= u128::MAX
}

impl BlockSummary {
    /// `self` is the summary of `block`, whose proposer was rewarded `reward`.
    pub open spec fn describes(self, block: BlockView, reward: u128) -> bool {
        &&& self.header@ == block.header
        &&& self.total_weight == total(weights_of(block))
        &&& self.reward_amount == reward
        &&& summarizes(block, self.transactions.deep_view())
        &&& self.header_hash == block.header.hash
        &&& self.total_fees == total(fees_of(block))
        &&& self.fee_multiplier == block.header.fee_multiplier
    }

    /// Creates a block summary from a full block and the reward amount.
    /// `None` where a total exceeds 128 bits.
    pub fn from_block(block: Block, reward_amount: u128) -> (summary: Option<BlockSummary>)
        ensures
            match summary {
                Some(s) => summary_fits(block@) && s.describes(block@, reward_amount),
                None => !summary_fits(block@),
            },
    {
        let transactions = match get_transactions(&block) {
            None => {
                return None;
            },
            Some(transactions) => transactions,
        };
        let mut weights: Vec<u128> = Vec::new();
        let mut fees: Vec<u128> = Vec::new();
        let mut i: usize = 0;
        while i < block.transactions.len()
            invariant
                i <= block.transactions.len(),
                weights@.len() == i,
                fees@.len() == i,
                forall|k: int| 0 <= k < i ==> weights@[k] == weights_of(block@)[k],
                forall|k: int| 0 <= k < i ==> fees@[k] == fees_of(block@)[k],
            decreases block.transactions.len() - i,
        {
            assert(block@.transactions[i as int] == block.transactions@[i as int]@);
            weights.push(block.transactions[i].weight);
            fees.push(block.transactions[i].fee);
            i = i + 1;
        }
        assert(weights@ =~= weights_of(block@));
        assert(fees@ =~= fees_of(block@));
        let total_weight = match sum_amounts(&weights) {
            None => {
                return None;
            },
            Some(total_weight) => total_weight,
        };
        let total_fees = match sum_amounts(&fees) {
            None => {
                return None;
            },
            Some(total_fees) => total_fees,
        };
        let header_hash = block.header.hash;
        let fee_multiplier = block.header.fee_multiplier;
        let summary = BlockSummary {
            header: block.header,
            total_weight,
            reward_amount,
            transactions,
            header_hash,
            total_fees,
            fee_multiplier,
        };
        Some(summary)
    }
}

/// The heights of the blocks that an overview shows: from the tip
/// downwards, `depth` of them, or all where there are fewer.
pub fn get_old_blocks(tip: BlockHeight, depth: usize) -> (heights: Vec<BlockHeight>)
    ensures
        heights@.len() == (if depth <= tip { depth as int } else { tip + 1 }),
        forall|i: int| 0 <= i < heights@.len() ==> #[trigger] heights@[i] == tip - i,
{
    let count: usize = if depth as u64 <= tip {
        depth
    } else {
        (tip + 1) as usize
    };
    let mut heights: Vec<BlockHeight> = Vec::new();
    let mut i: usize = 0;
    while i < count
        invariant
            i <= count,
            count <= tip + 1,
            heights@.len() == i,
            forall|k: int| 0 <= k < heights@.len() ==> #[trigger] heights@[k] == tip - k,
        decreases count - i,
    {
        heights.push(tip - i as u64);
        i = i + 1;
    }
    heights
}

/// Where and by which transaction a coin was spent.
#[derive(Clone, Copy, Debug)]
pub struct SpendInfo {
    pub spend_txhash: TxHash,
    pub spend_height: BlockHeight,
}

/// A coin as the index of coins knows it: where it was created, what it
/// holds, and where it was spent, if it was.
#[derive(Debug)]
pub struct CoinInfo {
    pub create_txhash: TxHash,
    pub create_height: BlockHeight,
    pub coin_data: CoinData,
    pub spend_info: Option<SpendInfo>,
}

/// Mathematical value of a [`CoinInfo`].
pub struct CoinInfoView {
    pub create_txhash: TxHash,
    pub create_height: BlockHeight,
    pub coin_data: CoinDataView,
    pub spend_info: Option<SpendInfo>,
}

impl View for CoinInfo {
    type V = CoinInfoView;

    open spec fn view(&self) -> CoinInfoView {
        CoinInfoView {
            create_txhash: self.create_txhash,
            create_height: self.create_height,
            coin_data: self.coin_data@,
            spend_info: self.spend_info,
        }
    }
}

impl DeepView for CoinInfo {
    type V = CoinInfoView;

    open spec fn deep_view(&self) -> CoinInfoView {
        self@
    }
}

/// A transaction, named by its hash and the height of its block.
#[derive(Clone, Copy, Debug, Eq)]
pub struct TxKey {
    pub txhash: TxHash,
    pub height: BlockHeight,
}

impl PartialEq for TxKey {
    fn eq(&self, other: &Self) -> (r: bool) {
        self.txhash == other.txhash && self.height == other.height
    }
}

impl vstd::std_specs::cmp::PartialEqSpecImpl for TxKey {
    open spec fn obeys_eq_spec() -> bool {
        true
    }

    open spec fn eq_spec(&self, other: &Self) -> bool {
        *self == *other
    }
}

/// The value of every coin fits in a signed number of 128 bits.
pub open spec fn values_fit(coins: Seq<CoinInfoView>) -> bool {
    forall|i: int| 0 <= i < coins.len() ==> (#[trigger] coins[i]).coin_data.value <= i128::MAX
}

/// What the unspent coins hold, coin by coin, by denomination.
pub open spec fn holdings(coins: Seq<CoinInfoView>) -> Seq<(Denom, i128)>
    decreases coins.len(),
{
    if coins.len() == 0 {
        Seq::empty()
    } else {
        let coin = coins.last();
        let earlier = holdings(coins.drop_last());
        if coin.spend_info is None {
            earlier.push((coin.coin_data.denom, coin.coin_data.value as i128))
        } else {
            earlier
        }
    }
}

/// What the unspent coins of `denom` hold, coin by coin, by owner.
pub open spec fn stakes(coins: Seq<CoinInfoView>, denom: Denom) -> Seq<(Address, i128)>
    decreases coins.len(),
{
    if coins.len() == 0 {
        Seq::empty()
    } else {
        let coin = coins.last();
        let earlier = stakes(coins.drop_last(), denom);
        if coin.spend_info is None && coin.coin_data.denom == denom {
            earlier.push((coin.coin_data.covhash, coin.coin_data.value as i128))
        } else {
            earlier
        }
    }
}

/// The transactions that touched the coins: for each coin the one that
/// created it and, where it was spent, the one that spent it.
pub open spec fn touches(coins: Seq<CoinInfoView>) -> Seq<(TxKey, i128)>
    decreases coins.len(),
{
    if coins.len() == 0 {
        Seq::empty()
    } else {
        let coin = coins.last();
        let earlier = touches(coins.drop_last()).push(
            (TxKey { txhash: coin.create_txhash, height: coin.create_height }, 0i128),
        );
        match coin.spend_info {
            Some(spend) => earlier.push(
                (TxKey { txhash: spend.spend_txhash, height: spend.spend_height }, 0i128),
            ),
            None => earlier,
        }
    }
}

/// What the transaction `key` gave and took, coin by coin, by
/// denomination: it is credited with the coins that it created and debited
/// with those that it spent.
pub open spec fn deltas(coins: Seq<CoinInfoView>, key: TxKey) -> Seq<(Denom, i128)>
    decreases coins.len(),
{
    if coins.len() == 0 {
        Seq::empty()
    } else {
        let coin = coins.last();
        let earlier = deltas(coins.drop_last(), key);
        let credited = if (TxKey { txhash: coin.create_txhash, height: coin.create_height }) == key {
            earlier.push((coin.coin_data.denom, coin.coin_data.value as i128))
        } else {
            earlier
        };
        match coin.spend_info {
            Some(spend) => if (TxKey { txhash: spend.spend_txhash, height: spend.spend_height })
                == key {
                credited.push((coin.coin_data.denom, (-(coin.coin_data.value as int)) as i128))
            } else {
                credited
            },
            None => credited,
        }
    }
}

/// The value of a coin as a signed number, where it fits.
fn signed_value(value: u128) -> (signed: Option<i128>)
    ensures
        signed == (if value <= i128::MAX {
            Some(value as i128)
        } else {
            None
        }),
{
    if value <= 0x7fff_ffff_ffff_ffff_ffff_ffff_ffff_ffffu128 {
        Some(value as i128)
    } else {
        None
    }
}

/// What an address holds, by denomination, from the coins that it ever
/// owned: the values of the unspent coins added up. The denominations
/// stand in the order in which the coins first show them. `None` where a
/// value or a sum does not fit in a signed number of 128 bits.
pub fn get_balances(coins: &Vec<CoinInfo>) -> (balances: Option<Vec<(Denom, i128)>>)
    ensures
        match balances {
            Some(b) => {
                &&& values_fit(coins.deep_view())
                &&& !tally_overflows(holdings(coins.deep_view()))
                &&& is_tally(holdings(coins.deep_view()), b@)
            },
            None => !values_fit(coins.deep_view()) || tally_overflows(holdings(coins.deep_view())),
        },
{
    let ghost views = coins.deep_view();
    let mut events: Vec<(Denom, i128)> = Vec::new();
    let mut i: usize = 0;
    assert(views.take(0) =~= Seq::<CoinInfoView>::empty());
    while i < coins.len()
        invariant
            i <= coins.len(),
            views == coins.deep_view(),
            values_fit(views.take(i as int)),
            events@ == holdings(views.take(i as int)),
        decreases coins.len() - i,
    {
        assert(views[i as int] == coins@[i as int]@);
        assert(views.take(i + 1).drop_last() =~= views.take(i as int));
        let value = match signed_value(coins[i].coin_data.value) {
            None => {
                return None;
            },
            Some(value) => value,
        };
        if coins[i].spend_info.is_none() {
            events.push((coins[i].coin_data.denom, value));
        }
        proof {
            assert forall|k: int| 0 <= k < i + 1 implies (#[trigger] views.take(
                i + 1,
            )[k]).coin_data.value <= i128::MAX by {
                if k < i {
                    assert(views.take(i as int)[k] == views.take(i + 1)[k]);
                }
            }
        }
        i = i + 1;
    }
    assert(views.take(views.len() as int) =~= views);
    tally(&events)
}

/// The leaderboard of a denomination: what each owner holds of it, from
/// the values of the unspent coins of that denomination added up. The
/// owners stand in the order in which the coins first show them. `None`
/// where a value or a sum does not fit in a signed number of 128 bits.
pub fn get_leaderboard(coins: &Vec<CoinInfo>, denom: Denom) -> (board: Option<Vec<(Address, i128)>>)
    ensures
        match board {
            Some(b) => {
                &&& values_fit(coins.deep_view())
                &&& !tally_overflows(stakes(coins.deep_view(), denom))
                &&& is_tally(stakes(coins.deep_view(), denom), b@)
            },
            None => !values_fit(coins.deep_view()) || tally_overflows(
                stakes(coins.deep_view(), denom),
            ),
        },
{
    let ghost views = coins.deep_view();
    let mut events: Vec<(Address, i128)> = Vec::new();
    let mut i: usize = 0;
    assert(views.take(0) =~= Seq::<CoinInfoView>::empty());
    while i < coins.len()
        invariant
            i <= coins.len(),
            views == coins.deep_view(),
            values_fit(views.take(i as int)),
            events@ == stakes(views.take(i as int), denom),
        decreases coins.len() - i,
    {
        assert(views[i as int] == coins@[i as int]@);
        assert(views.take(i + 1).drop_last() =~= views.take(i as int));
        let value = match signed_value(coins[i].coin_data.value) {
            None => {
                return None;
            },
            Some(value) => value,
        };
        if coins[i].spend_info.is_none() && coins[i].coin_data.denom == denom {
            events.push((coins[i].coin_data.covhash, value));
        }
        proof {
            assert forall|k: int| 0 <= k < i + 1 implies (#[trigger] views.take(
                i + 1,
            )[k]).coin_data.value <= i128::MAX by {
                if k < i {
                    assert(views.take(i as int)[k] == views.take(i + 1)[k]);
                }
            }
        }
        i = i + 1;
    }
    assert(views.take(views.len() as int) =~= views);
    tally(&events)
}

/// What one transaction gave to and took from an address.
#[derive(Debug)]
pub struct AddressTransactionSummary {
    pub height: BlockHeight,
    /// The time of the block, in Unix seconds.
    pub date: i64,
    pub txhash: TxHash,
    pub deltas: Vec<(Denom, i128)>,
}

/// A summary of a particular address.
#[derive(Debug)]
pub struct AddressSummary {
    pub balances: Vec<(Denom, i128)>,
    pub transactions: Vec<AddressTransactionSummary>,
}

/// The transactions that touched the coins, each once, in the order in
/// which the coins first show them.
pub open spec fn touching(coins: Seq<CoinInfoView>) -> Seq<TxKey> {
    keys_of(touches(coins))
}

/// The summary of an address can be made from the coins: every value and
/// every sum fits in a signed number of 128 bits, and the time of every
/// block fits in a signed number of 64 bits.
pub open spec fn address_fits(coins: Seq<CoinInfoView>) -> bool {
    &&& values_fit(coins)
    &&& !tally_overflows(holdings(coins))
    &&& forall|k: int|
        0 <= k < touching(coins).len() ==> {
            &&& !tally_overflows(deltas(coins, #[trigger] touching(coins)[k]))
            &&& time_of(touching(coins)[k].height) <= i64::MAX
        }
}

impl AddressSummary {
    /// `self` is the summary of the address that owned the coins.
    pub open spec fn describes(self, coins: Seq<CoinInfoView>) -> bool {
        &&& is_tally(holdings(coins), self.balances@)
        &&& self.transactions@.len() == touching(coins).len()
        &&& forall|k: int|
            0 <= k < self.transactions@.len() ==> {
                let tx = #[trigger] self.transactions@[k];
                let key = touching(coins)[k];
                &&& tx.txhash == key.txhash
                &&& tx.height == key.height
                &&& tx.date == time_of(key.height)
                &&& is_tally(deltas(coins, key), tx.deltas@)
            }
    }
}

proof fn lemma_touches_add_nothing(coins: Seq<CoinInfoView>, n: int, key: TxKey)
    requires
        0 <= n <= touches(coins).len(),
    ensures
        tally_of(touches(coins).take(n), key) == 0,
        forall|j: int| 0 <= j < touches(coins).len() ==> (#[trigger] touches(coins)[j]).1 == 0,
    decreases coins.len(), n,
{
    let events = touches(coins);
    assert forall|j: int| 0 <= j < events.len() implies (#[trigger] events[j]).1 == 0 by {
        lemma_touches_zero(coins, j);
    }
    lemma_zero_tally(events.take(n), key);
}

proof fn lemma_touches_zero(coins: Seq<CoinInfoView>, j: int)
    requires
        0 <= j < touches(coins).len(),
    ensures
        touches(coins)[j].1 == 0,
    decreases coins.len(),
{
    if coins.len() > 0 {
        let earlier = touches(coins.drop_last());
        if j < earlier.len() {
            lemma_touches_zero(coins.drop_last(), j);
        }
    }
}

proof fn lemma_zero_tally<K>(events: Seq<(K, i128)>, key: K)
    requires
        forall|j: int| 0 <= j < events.len() ==> (#[trigger] events[j]).1 == 0,
    ensures
        tally_of(events, key) == 0,
    decreases events.len(),
{
    if events.len() > 0 {
        assert(events.last() == events[events.len() - 1]);
        assert forall|j: int| 0 <= j < events.drop_last().len() implies (
        #[trigger] events.drop_last()[j]).1 == 0 by {
            assert(events.drop_last()[j] == events[j]);
        }
        lemma_zero_tally(events.drop_last(), key);
    }
}

/// What the transaction `key` gave to and took from the address, by
/// denomination. `None` where a sum leaves the range of 128 bits.
fn deltas_of(coins: &Vec<CoinInfo>, key: TxKey) -> (sums: Option<Vec<(Denom, i128)>>)
    requires
        values_fit(coins.deep_view()),
    ensures
        match sums {
            Some(d) => is_tally(deltas(coins.deep_view(), key), d@) && !tally_overflows(
                deltas(coins.deep_view(), key),
            ),
            None => tally_overflows(deltas(coins.deep_view(), key)),
        },
{
    let ghost views = coins.deep_view();
    let mut events: Vec<(Denom, i128)> = Vec::new();
    let mut i: usize = 0;
    assert(views.take(0) =~= Seq::<CoinInfoView>::empty());
    while i < coins.len()
        invariant
            i <= coins.len(),
            views == coins.deep_view(),
            values_fit(views),
            events@ == deltas(views.take(i as int), key),
        decreases coins.len() - i,
    {
        assert(views[i as int] == coins@[i as int]@);
        assert(views.take(i + 1).drop_last() =~= views.take(i as int));
        assert(views.take(i + 1).last() == views[i as int]);
        let coin = &coins[i];
        let value = coin.coin_data.value as i128;
        if (TxKey { txhash: coin.create_txhash, height: coin.create_height }) == key {
            events.push((coin.coin_data.denom, value));
        }
        match coin.spend_info {
            Some(spend) => {
                if (TxKey { txhash: spend.spend_txhash, height: spend.spend_height }) == key {
                    events.push((coin.coin_data.denom, -value));
                }
            },
            None => {},
        }
        i = i + 1;
    }
    assert(views.take(views.len() as int) =~= views);
    tally(&events)
}

/// Gets the summary of an address from the coins that it ever owned:
/// what it holds, and what each transaction that touched its coins gave
/// to it and took from it. A transaction is credited with the coins that
/// it created and debited with those that it spent. The transactions
/// stand in the order in which the coins first show them. `None` where a
/// number does not fit.
pub fn get_address_summary(coins: &Vec<CoinInfo>) -> (summary: Option<AddressSummary>)
    ensures
        match summary {
            Some(s) => address_fits(coins.deep_view()) && s.describes(coins.deep_view()),
            None => !address_fits(coins.deep_view()),
        },
{
    let ghost views = coins.deep_view();
    let balances = match get_balances(coins) {
        None => {
            return None;
        },
        Some(balances) => balances,
    };
    let mut events: Vec<(TxKey, i128)> = Vec::new();
    let mut i: usize = 0;
    assert(views.take(0) =~= Seq::<CoinInfoView>::empty());
    while i < coins.len()
        invariant
            i <= coins.len(),
            views == coins.deep_view(),
            values_fit(views),
            !tally_overflows(holdings(views)),
            is_tally(holdings(views), balances@),
            events@ == touches(views.take(i as int)),
        decreases coins.len() - i,
    {
        assert(views[i as int] == coins@[i as int]@);
        assert(views.take(i + 1).drop_last() =~= views.take(i as int));
        assert(views.take(i + 1).last() == views[i as int]);
        let coin = &coins[i];
        events.push((TxKey { txhash: coin.create_txhash, height: coin.create_height }, 0));
        match coin.spend_info {
            Some(spend) => {
                events.push((TxKey { txhash: spend.spend_txhash, height: spend.spend_height }, 0));
            },
            None => {},
        }
        i = i + 1;
    }
    assert(views.take(views.len() as int) =~= views);
    proof {
        if tally_overflows(events@) {
            let (n, key) = choose|n: int, key: TxKey|
                0 <= n <= events@.len() && !(i128::MIN <= #[trigger] tally_of(events@.take(n), key)
                    <= i128::MAX);
            lemma_touches_add_nothing(views, n, key);
        }
    }
    let keys = match tally(&events) {
        None => {
            return None;
        },
        Some(keys) => keys,
    };
    let mut transactions: Vec<AddressTransactionSummary> = Vec::new();
    let mut k: usize = 0;
    while k < keys.len()
        invariant
            k <= keys@.len(),
            views == coins.deep_view(),
            values_fit(views),
            !tally_overflows(holdings(views)),
            is_tally(holdings(views), balances@),
            keys@.len() == touching(views).len(),
            forall|j: int| 0 <= j < keys@.len() ==> (#[trigger] keys@[j]).0 == touching(views)[j],
            transactions@.len() == k,
            forall|j: int|
                0 <= j < k ==> {
                    let tx = #[trigger] transactions@[j];
                    let key = touching(views)[j];
                    &&& tx.txhash == key.txhash
                    &&& tx.height == key.height
                    &&& tx.date == time_of(key.height)
                    &&& is_tally(deltas(views, key), tx.deltas@)
                    &&& !tally_overflows(deltas(views, key))
                    &&& time_of(key.height) <= i64::MAX
                },
        decreases keys@.len() - k,
    {
        let key = keys[k].0;
        assert(key == touching(views)[k as int]);
        let sums = match deltas_of(coins, key) {
            None => {
                return None;
            },
            Some(sums) => sums,
        };
        let date = match checked_height_to_datetime(key.height) {
            None => {
                return None;
            },
            Some(date) => date,
        };
        transactions.push(
            AddressTransactionSummary { height: key.height, date, txhash: key.txhash, deltas: sums },
        );
        k = k + 1;
    }
    proof {
        assert forall|j: int| 0 <= j < touching(views).len() implies {
            &&& !tally_overflows(deltas(views, #[trigger] touching(views)[j]))
            &&& time_of(touching(views)[j].height) <= i64::MAX
        } by {
            let tx = transactions@[j];
            assert(tx.txhash == touching(views)[j].txhash);
        }
    }
    Some(AddressSummary { balances, transactions })
}

} // verus!
