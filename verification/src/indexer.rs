//! The derived index: coin lifecycle records, supply snapshots and headers,
//! built block by block.

use vstd::prelude::*;
use crate::structs::{
    Block, BlockHeight, BlockView, CoinData, CoinDataView, CoinID, Denom, Transaction,
    TransactionView, TxHash,
};

use crate::chain::{reward_coin, reward_coin_hash};
use crate::indexer::laws::{
    lemma_create_covered, lemma_credit_effect, lemma_spend_covered, lemma_supply_at_new_height,
    lemma_touch_effect, lemma_unspent_grows, lemma_unspent_of_none,
};

pub mod laws;

verus! {

/// One row per coin ever created.
#[derive(Debug)]
pub struct CoinRecord {
    pub coin_id: CoinID,
    pub denom: Denom,
    pub value: u128,
    pub additional_data: Vec<u8>,
    pub created_height: BlockHeight,
    pub spent_by: Option<TxHash>,
}

/// Mathematical value of a [`CoinRecord`].
pub struct CoinRecordView {
    pub coin_id: CoinID,
    pub denom: Denom,
    pub value: u128,
    pub additional_data: Seq<u8>,
    pub created_height: BlockHeight,
    pub spent_by: Option<TxHash>,
}

impl View for CoinRecord {
    type V = CoinRecordView;

    open spec fn view(&self) -> CoinRecordView {
        CoinRecordView {
            coin_id: self.coin_id,
            denom: self.denom,
            value: self.value,
            additional_data: self.additional_data@,
            created_height: self.created_height,
            spent_by: self.spent_by,
        }
    }
}

impl DeepView for CoinRecord {
    type V = CoinRecordView;

    open spec fn deep_view(&self) -> CoinRecordView {
        self@
    }
}

impl Clone for CoinRecord {
    fn clone(&self) -> (r: Self)
        ensures
            r@ == self@,
    {
        CoinRecord {
            coin_id: self.coin_id,
            denom: self.denom,
            value: self.value,
            additional_data: self.additional_data.clone(),
            created_height: self.created_height,
            spent_by: self.spent_by,
        }
    }
}

/// Circulating supply of one denomination immediately after one block.
#[derive(Clone, Copy, Debug)]
pub struct SupplySnapshot {
    pub height: BlockHeight,
    pub denom: Denom,
    pub value: u128,
}

/// Why a block was not applied.
#[derive(Clone, Copy, Debug, PartialEq, Eq, Structural)]
pub enum IndexError {
    /// The block is not the one directly above the highest indexed block.
    NotNextHeight,
    /// A transaction has more outputs than a coin index can name.
    TooManyOutputs,
    /// An output would create a coin that the index already holds.
    DuplicateCoin,
    /// An input names a coin that the index holds as already spent.
    DoubleSpend,
    /// A running supply total left the range of 128 bits.
    SupplyOverflow,
}

/// Mathematical value of the index: its three tables in insertion order.
pub struct IndexView {
    /// Encoded headers; the header of height `h` stands at position `h - 1`.
    pub headers: Seq<Seq<u8>>,
    pub coins: Seq<CoinRecordView>,
    pub supply: Seq<SupplySnapshot>,
}

/// No two records name the same coin.
pub open spec fn distinct_coins(coins: Seq<CoinRecordView>) -> bool {
    forall|i: int, j: int|
        0 <= i < j < coins.len() ==> (#[trigger] coins[i]).coin_id != (#[trigger] coins[j]).coin_id
}

/// The table holds a record of coin `id`.
pub open spec fn has_coin(coins: Seq<CoinRecordView>, id: CoinID) -> bool {
    exists|i: int| 0 <= i < coins.len() && (#[trigger] coins[i]).coin_id == id
}

/// Position of the record of coin `id`, where there is one.
pub open spec fn coin_position(coins: Seq<CoinRecordView>, id: CoinID) -> int {
    choose|i: int| 0 <= i < coins.len() && (#[trigger] coins[i]).coin_id == id
}

/// The table holds a snapshot keyed by `(height, denom)`.
pub open spec fn has_snapshot(rows: Seq<SupplySnapshot>, height: int, denom: Denom) -> bool {
    exists|i: int|
        0 <= i < rows.len() && (#[trigger] rows[i]).height == height && rows[i].denom == denom
}

/// Value of the snapshot keyed by `(height, denom)`, where there is one.
pub open spec fn snapshot_value(rows: Seq<SupplySnapshot>, height: int, denom: Denom) -> u128 {
    let i = choose|i: int|
        0 <= i < rows.len() && (#[trigger] rows[i]).height == height && rows[i].denom == denom;
    rows[i].value
}

/// Supply of `denom` after block `height`: the snapshot at the nearest
/// height at or below `height` that has one, and zero where none has.
pub open spec fn supply_after(rows: Seq<SupplySnapshot>, height: int, denom: Denom) -> u128
    decreases height,
{
    if has_snapshot(rows, height, denom) {
        snapshot_value(rows, height, denom)
    } else if height <= 0 {
        0
    } else {
        supply_after(rows, height - 1, denom)
    }
}

/// Value of the coins of `denom` that the table holds as unspent.
pub open spec fn unspent_value(coins: Seq<CoinRecordView>, denom: Denom) -> int
    decreases coins.len(),
{
    if coins.len() == 0 {
        0
    } else {
        unspent_value(coins.drop_last(), denom) + (if coins.last().denom == denom
            && coins.last().spent_by is None {
            coins.last().value as int
        } else {
            0
        })
    }
}

/// Snapshots stand in order of height and no key occurs twice.
pub open spec fn ordered_snapshots(rows: Seq<SupplySnapshot>) -> bool {
    &&& forall|i: int, j: int|
        0 <= i < j < rows.len() ==> (#[trigger] rows[i]).height <= (#[trigger] rows[j]).height
    &&& forall|i: int, j: int|
        0 <= i < j < rows.len() ==> !((#[trigger] rows[i]).height == (#[trigger] rows[j]).height
            && rows[i].denom == rows[j].denom)
}

impl IndexView {
    /// The empty index.
    pub open spec fn empty() -> IndexView {
        IndexView { headers: Seq::empty(), coins: Seq::empty(), supply: Seq::empty() }
    }

    /// Highest indexed height; zero while nothing is indexed.
    pub open spec fn max_height(self) -> int {
        self.headers.len() as int
    }

    /// Height `height` has been indexed.
    pub open spec fn indexed(self, height: int) -> bool {
        1 <= height <= self.max_height()
    }

    /// Supply of `denom` at an indexed height.
    pub open spec fn supply_at(self, height: int, denom: Denom) -> u128 {
        supply_after(self.supply, height, denom)
    }

    /// The tables are consistent: one record per coin, every row at an
    /// indexed height, snapshots in order of height with unique keys, and
    /// of every denomination a supply that is at least what the unspent
    /// coins of it hold.
    pub open spec fn wf(self) -> bool {
        &&& self.headers.len() <= u64::MAX
        &&& forall|denom: Denom| #[trigger]
            unspent_value(self.coins, denom) <= supply_after(self.supply, self.max_height(), denom)
        &&& distinct_coins(self.coins)
        &&& forall|i: int|
            0 <= i < self.coins.len() ==> self.indexed((#[trigger] self.coins[i]).created_height as int)
        &&& forall|i: int|
            0 <= i < self.supply.len() ==> self.indexed((#[trigger] self.supply[i]).height as int)
        &&& ordered_snapshots(self.supply)
    }
}

/// The tables while a block is being applied: the coin table as changed so
/// far, and the running total of every denomination touched so far.
pub struct Staged {
    pub coins: Seq<CoinRecordView>,
    pub totals: Seq<SupplySnapshot>,
}

/// A running total of `denom` has been started.
pub open spec fn has_total(totals: Seq<SupplySnapshot>, denom: Denom) -> bool {
    exists|i: int| 0 <= i < totals.len() && (#[trigger] totals[i]).denom == denom
}

/// Position of the running total of `denom`, where there is one.
pub open spec fn total_position(totals: Seq<SupplySnapshot>, denom: Denom) -> int {
    choose|i: int| 0 <= i < totals.len() && (#[trigger] totals[i]).denom == denom
}

/// The running total of `denom` while a block at `height` is applied: the
/// started total, or the supply carried forward where none is started.
pub open spec fn running_total(
    totals: Seq<SupplySnapshot>,
    rows: Seq<SupplySnapshot>,
    height: BlockHeight,
    denom: Denom,
) -> int {
    if has_total(totals, denom) {
        totals[total_position(totals, denom)].value as int
    } else {
        supply_after(rows, height - 1, denom) as int
    }
}

/// Starts the running total of `denom` where it has none yet, carrying
/// forward the supply after the block below `height`.
pub open spec fn touch(
    totals: Seq<SupplySnapshot>,
    rows: Seq<SupplySnapshot>,
    height: BlockHeight,
    denom: Denom,
) -> Seq<SupplySnapshot> {
    if has_total(totals, denom) {
        totals
    } else {
        totals.push(
            SupplySnapshot { height, denom, value: supply_after(rows, height - 1, denom) },
        )
    }
}

/// Adds `amount` to the running total of `denom`.
pub open spec fn credit(
    totals: Seq<SupplySnapshot>,
    rows: Seq<SupplySnapshot>,
    height: BlockHeight,
    denom: Denom,
    amount: u128,
) -> Result<Seq<SupplySnapshot>, IndexError> {
    let touched = touch(totals, rows, height, denom);
    let i = total_position(touched, denom);
    if touched[i].value + amount > u128::MAX {
        Err(IndexError::SupplyOverflow)
    } else {
        Ok(
            touched.update(
                i,
                SupplySnapshot { height, denom, value: (touched[i].value + amount) as u128 },
            ),
        )
    }
}

/// Takes `amount` from the running total of `denom`. The tables of a
/// consistent index never hold less of a denomination than a coin of it
/// that they hold as unspent; were it otherwise, the total would stop at
/// zero.
pub open spec fn debit(
    totals: Seq<SupplySnapshot>,
    rows: Seq<SupplySnapshot>,
    height: BlockHeight,
    denom: Denom,
    amount: u128,
) -> Seq<SupplySnapshot> {
    let touched = touch(totals, rows, height, denom);
    let i = total_position(touched, denom);
    touched.update(
        i,
        SupplySnapshot {
            height,
            denom,
            value: if touched[i].value >= amount {
                (touched[i].value - amount) as u128
            } else {
                0
            },
        },
    )
}

/// One input of the transaction `spender`. A coin that the table does not
/// hold is passed over; one that it holds unspent is marked and its value
/// leaves the supply; one that it holds as spent stops the block.
pub open spec fn spend_one(
    staged: Staged,
    rows: Seq<SupplySnapshot>,
    height: BlockHeight,
    spender: TxHash,
    input: CoinID,
) -> Result<Staged, IndexError> {
    if !has_coin(staged.coins, input) {
        Ok(staged)
    } else {
        let i = coin_position(staged.coins, input);
        let coin = staged.coins[i];
        if coin.spent_by is Some {
            Err(IndexError::DoubleSpend)
        } else {
            Ok(
                Staged {
                    coins: staged.coins.update(i, CoinRecordView { spent_by: Some(spender), ..coin }),
                    totals: debit(staged.totals, rows, height, coin.denom, coin.value),
                },
            )
        }
    }
}

/// The inputs of one transaction, in order.
pub open spec fn spend_all(
    staged: Staged,
    rows: Seq<SupplySnapshot>,
    height: BlockHeight,
    spender: TxHash,
    inputs: Seq<CoinID>,
) -> Result<Staged, IndexError>
    decreases inputs.len(),
{
    if inputs.len() == 0 {
        Ok(staged)
    } else {
        match spend_one(staged, rows, height, spender, inputs[0]) {
            Err(e) => Err(e),
            Ok(next) => spend_all(next, rows, height, spender, inputs.skip(1)),
        }
    }
}

/// The output at place `index` of the transaction `txhash`: a new record,
/// created at `height`, whose value enters the supply.
pub open spec fn create_one(
    staged: Staged,
    rows: Seq<SupplySnapshot>,
    height: BlockHeight,
    txhash: TxHash,
    index: int,
    output: CoinDataView,
) -> Result<Staged, IndexError> {
    if index > u8::MAX {
        Err(IndexError::TooManyOutputs)
    } else {
        let coin_id = CoinID { txhash, index: index as u8 };
        if has_coin(staged.coins, coin_id) {
            Err(IndexError::DuplicateCoin)
        } else {
            match credit(staged.totals, rows, height, output.denom, output.value) {
                Err(e) => Err(e),
                Ok(totals) => Ok(
                    Staged {
                        coins: staged.coins.push(
                            CoinRecordView {
                                coin_id,
                                denom: output.denom,
                                value: output.value,
                                additional_data: output.additional_data,
                                created_height: height,
                                spent_by: None,
                            },
                        ),
                        totals,
                    },
                ),
            }
        }
    }
}

/// The outputs of one transaction from place `index` on, in order.
pub open spec fn create_all(
    staged: Staged,
    rows: Seq<SupplySnapshot>,
    height: BlockHeight,
    txhash: TxHash,
    index: int,
    outputs: Seq<CoinDataView>,
) -> Result<Staged, IndexError>
    decreases outputs.len(),
{
    if outputs.len() == 0 {
        Ok(staged)
    } else {
        match create_one(staged, rows, height, txhash, index, outputs[0]) {
            Err(e) => Err(e),
            Ok(next) => create_all(next, rows, height, txhash, index + 1, outputs.skip(1)),
        }
    }
}

/// One transaction: its inputs, then its outputs.
pub open spec fn apply_transaction(
    staged: Staged,
    rows: Seq<SupplySnapshot>,
    height: BlockHeight,
    tx: TransactionView,
) -> Result<Staged, IndexError> {
    match spend_all(staged, rows, height, tx.hash, tx.inputs) {
        Err(e) => Err(e),
        Ok(spent) => create_all(spent, rows, height, tx.hash, 0, tx.outputs),
    }
}

/// The transactions of a block in their recorded order.
pub open spec fn apply_transactions(
    staged: Staged,
    rows: Seq<SupplySnapshot>,
    height: BlockHeight,
    txs: Seq<TransactionView>,
) -> Result<Staged, IndexError>
    decreases txs.len(),
{
    if txs.len() == 0 {
        Ok(staged)
    } else {
        match apply_transaction(staged, rows, height, txs[0]) {
            Err(e) => Err(e),
            Ok(next) => apply_transactions(next, rows, height, txs.skip(1)),
        }
    }
}

/// What applying `block`, whose proposer was rewarded `reward`, makes of
/// the index `index`: the tables after the block, or the reason why the
/// block cannot be applied.
///
/// The block must stand directly above the highest indexed height. Its
/// header is recorded, the reward enters the supply of the primary
/// denomination, its transactions are applied in order, and every
/// denomination whose running total was touched gets one snapshot.
pub open spec fn apply_block(index: IndexView, block: BlockView, reward: u128) -> Result<
    IndexView,
    IndexError,
> {
    let height = block.header.height;
    if height != index.max_height() + 1 {
        Err(IndexError::NotNextHeight)
    } else {
        match credit(Seq::empty(), index.supply, height, Denom::Mel, reward) {
            Err(e) => Err(e),
            Ok(totals) => match apply_transactions(
                Staged { coins: index.coins, totals },
                index.supply,
                height,
                block.transactions,
            ) {
                Err(e) => Err(e),
                Ok(staged) => Ok(
                    IndexView {
                        headers: index.headers.push(block.header.encoded),
                        coins: staged.coins,
                        supply: index.supply + staged.totals,
                    },
                ),
            },
        }
    }
}

/// A block offered to the index, with the reward of its proposer.
#[derive(Debug)]
pub struct Delivery {
    pub block: Block,
    pub reward: u128,
}

/// Mathematical value of a [`Delivery`].
pub struct DeliveryView {
    pub block: BlockView,
    pub reward: u128,
}

impl View for Delivery {
    type V = DeliveryView;

    open spec fn view(&self) -> DeliveryView {
        DeliveryView { block: self.block@, reward: self.reward }
    }
}

impl DeepView for Delivery {
    type V = DeliveryView;

    open spec fn deep_view(&self) -> DeliveryView {
        self@
    }
}

/// The index after one delivery: with the block applied, or as it was
/// where the block does not apply.
pub open spec fn advance(index: IndexView, delivery: DeliveryView) -> IndexView {
    match apply_block(index, delivery.block, delivery.reward) {
        Ok(after) => after,
        Err(_) => index,
    }
}

/// The index after a run of deliveries, each taken in its turn.
pub open spec fn ingest(index: IndexView, feed: Seq<DeliveryView>) -> IndexView
    decreases feed.len(),
{
    if feed.len() == 0 {
        index
    } else {
        ingest(advance(index, feed[0]), feed.skip(1))
    }
}

/// What the indexer does next, given the height of the chain's tip.
#[derive(Clone, Copy, Debug, PartialEq, Eq)]
pub enum IndexerStep {
    /// Every block up to the tip is indexed: wait, then look again.
    Idle,
    /// Fetch the block at `height` and the coin `reward_coin`, which holds
    /// the reward of its proposer, and apply the block.
    Fetch { height: BlockHeight, reward_coin: CoinID },
}

impl IndexerStep {
    /// The step is to fetch the block at `height` with its reward coin.
    pub open spec fn fetches(self, height: int) -> bool {
        &&& self matches IndexerStep::Fetch { height: h, reward_coin }
        &&& h == height
        &&& reward_coin.index == 0
        &&& reward_coin.txhash.bytes@ == reward_coin_hash(h)
    }
}

/// No denomination has two running totals.
pub open spec fn distinct_totals(totals: Seq<SupplySnapshot>) -> bool {
    forall|i: int, j: int|
        0 <= i < j < totals.len() ==> (#[trigger] totals[i]).denom != (#[trigger] totals[j]).denom
}

impl Staged {
    /// Of every denomination the running total is at least what the
    /// unspent coins of it hold.
    pub open spec fn covered(self, rows: Seq<SupplySnapshot>, height: BlockHeight) -> bool {
        forall|denom: Denom| #[trigger]
            unspent_value(self.coins, denom) <= running_total(self.totals, rows, height, denom)
    }

    /// The staged tables are consistent for a block at `height`.
    pub open spec fn wf(self, height: BlockHeight) -> bool {
        &&& distinct_coins(self.coins)
        &&& distinct_totals(self.totals)
        &&& forall|i: int|
            0 <= i < self.coins.len() ==> 1 <= (#[trigger] self.coins[i]).created_height <= height
        &&& forall|i: int| 0 <= i < self.totals.len() ==> (#[trigger] self.totals[i]).height == height
    }
}

proof fn lemma_coin_position(coins: Seq<CoinRecordView>, id: CoinID, i: int)
    requires
        distinct_coins(coins),
        0 <= i < coins.len(),
        coins[i].coin_id == id,
    ensures
        has_coin(coins, id),
        coin_position(coins, id) == i,
{
    let j = coin_position(coins, id);
    if j < i {
        assert(coins[j].coin_id != coins[i].coin_id);
    } else if i < j {
        assert(coins[i].coin_id != coins[j].coin_id);
    }
}

proof fn lemma_total_position(totals: Seq<SupplySnapshot>, denom: Denom, i: int)
    requires
        distinct_totals(totals),
        0 <= i < totals.len(),
        totals[i].denom == denom,
    ensures
        has_total(totals, denom),
        total_position(totals, denom) == i,
{
    let j = total_position(totals, denom);
    if j < i {
        assert(totals[j].denom != totals[i].denom);
    } else if i < j {
        assert(totals[i].denom != totals[j].denom);
    }
}

/// The last row that can answer a query answers it.
proof fn lemma_supply_after_found(rows: Seq<SupplySnapshot>, j: int, height: int, denom: Denom)
    requires
        ordered_snapshots(rows),
        0 <= j < rows.len(),
        rows[j].denom == denom,
        rows[j].height <= height,
        forall|k: int| j < k < rows.len() ==> !((#[trigger] rows[k]).denom == denom && rows[k].height <= height),
    ensures
        supply_after(rows, height, denom) == rows[j].value,
    decreases height - rows[j].height,
{
    if has_snapshot(rows, height, denom) {
        let k = choose|k: int|
            0 <= k < rows.len() && (#[trigger] rows[k]).height == height && rows[k].denom == denom;
        if k < j {
            assert(rows[k].height <= rows[j].height);
        }
        assert(k == j);
    } else {
        assert(rows[j].height != height);
        lemma_supply_after_found(rows, j, height - 1, denom);
    }
}

/// Where no row can answer a query, the supply is zero.
proof fn lemma_supply_after_none(rows: Seq<SupplySnapshot>, height: int, denom: Denom)
    requires
        forall|k: int| 0 <= k < rows.len() ==> !((#[trigger] rows[k]).denom == denom && rows[k].height <= height),
    ensures
        supply_after(rows, height, denom) == 0,
    decreases height,
{
    if has_snapshot(rows, height, denom) {
        let k = choose|k: int|
            0 <= k < rows.len() && (#[trigger] rows[k]).height == height && rows[k].denom == denom;
        assert(rows[k].denom == denom && rows[k].height <= height);
    } else if height > 0 {
        lemma_supply_after_none(rows, height - 1, denom);
    }
}

/// Supply of `denom` after block `height`, read from the snapshot table.
fn latest_supply(rows: &Vec<SupplySnapshot>, height: BlockHeight, denom: Denom) -> (value: u128)
    requires
        ordered_snapshots(rows@),
    ensures
        value == supply_after(rows@, height as int, denom),
{
    let mut i: usize = rows.len();
    while i > 0
        invariant
            i <= rows.len(),
            ordered_snapshots(rows@),
            forall|k: int| i <= k < rows.len() ==> !((#[trigger] rows@[k]).denom == denom && rows@[k].height <= height),
        decreases i,
    {
        i = i - 1;
        if rows[i].denom == denom && rows[i].height <= height {
            proof {
                lemma_supply_after_found(rows@, i as int, height as int, denom);
            }
            return rows[i].value;
        }
    }
    proof {
        lemma_supply_after_none(rows@, height as int, denom);
    }
    0
}

/// Position of the record of coin `id` in the table.
fn find_coin(coins: &Vec<CoinRecord>, id: CoinID) -> (found: Option<usize>)
    ensures
        match found {
            Some(i) => i < coins.len() && coins@[i as int].coin_id == id,
            None => !has_coin(coins.deep_view(), id),
        },
{
    let mut i: usize = 0;
    while i < coins.len()
        invariant
            i <= coins.len(),
            forall|k: int| 0 <= k < i ==> (#[trigger] coins@[k]).coin_id != id,
        decreases coins.len() - i,
    {
        if coins[i].coin_id == id {
            return Some(i);
        }
        i = i + 1;
    }
    proof {
        let views = coins.deep_view();
        assert forall|k: int| 0 <= k < views.len() implies (#[trigger] views[k]).coin_id != id by {
            assert(views[k] == coins@[k]@);
        }
    }
    None
}

/// Position of the running total of `denom`.
fn find_total(totals: &Vec<SupplySnapshot>, denom: Denom) -> (found: Option<usize>)
    ensures
        match found {
            Some(i) => i < totals.len() && totals@[i as int].denom == denom,
            None => !has_total(totals@, denom),
        },
{
    let mut i: usize = 0;
    while i < totals.len()
        invariant
            i <= totals.len(),
            forall|k: int| 0 <= k < i ==> (#[trigger] totals@[k]).denom != denom,
        decreases totals.len() - i,
    {
        if totals[i].denom == denom {
            return Some(i);
        }
        i = i + 1;
    }
    None
}

/// Position of the running total of `denom`, started first where need be.
fn touch_total(
    totals: &mut Vec<SupplySnapshot>,
    rows: &Vec<SupplySnapshot>,
    height: BlockHeight,
    denom: Denom,
) -> (i: usize)
    requires
        height >= 1,
        ordered_snapshots(rows@),
        distinct_totals(old(totals)@),
        forall|k: int| 0 <= k < old(totals)@.len() ==> (#[trigger] old(totals)@[k]).height == height,
    ensures
        final(totals)@ == touch(old(totals)@, rows@, height, denom),
        distinct_totals(final(totals)@),
        forall|k: int| 0 <= k < final(totals)@.len() ==> (#[trigger] final(totals)@[k]).height == height,
        i < final(totals)@.len(),
        i == total_position(final(totals)@, denom),
        final(totals)@[i as int].denom == denom,
{
    match find_total(totals, denom) {
        Some(i) => {
            proof {
                lemma_total_position(totals@, denom, i as int);
            }
            i
        },
        None => {
            let carried = latest_supply(rows, height - 1, denom);
            totals.push(SupplySnapshot { height, denom, value: carried });
            let i = totals.len() - 1;
            proof {
                assert forall|a: int, b: int| 0 <= a < b < totals@.len() implies (#[trigger] totals@[a]).denom
                    != (#[trigger] totals@[b]).denom by {
                    if b == totals@.len() - 1 {
                        assert(old(totals)@[a].denom != denom);
                    }
                }
                lemma_total_position(totals@, denom, i as int);
            }
            i
        },
    }
}

/// Adds `amount` to the running total of `denom`.
fn credit_total(
    totals: &mut Vec<SupplySnapshot>,
    rows: &Vec<SupplySnapshot>,
    height: BlockHeight,
    denom: Denom,
    amount: u128,
) -> (res: Result<(), IndexError>)
    requires
        height >= 1,
        ordered_snapshots(rows@),
        distinct_totals(old(totals)@),
        forall|k: int| 0 <= k < old(totals)@.len() ==> (#[trigger] old(totals)@[k]).height == height,
    ensures
        match credit(old(totals)@, rows@, height, denom, amount) {
            Ok(after) => res is Ok && final(totals)@ == after,
            Err(e) => res == Err::<(), IndexError>(e),
        },
        res is Ok ==> distinct_totals(final(totals)@),
        res is Ok ==> forall|k: int| 0 <= k < final(totals)@.len() ==> (#[trigger] final(totals)@[k]).height == height,
{
    let i = touch_total(totals, rows, height, denom);
    match totals[i].value.checked_add(amount) {
        None => Err(IndexError::SupplyOverflow),
        Some(value) => {
            totals.set(i, SupplySnapshot { height, denom, value });
            Ok(())
        },
    }
}

/// Takes `amount` from the running total of `denom`, which holds that much.
fn debit_total(
    totals: &mut Vec<SupplySnapshot>,
    rows: &Vec<SupplySnapshot>,
    height: BlockHeight,
    denom: Denom,
    amount: u128,
)
    requires
        height >= 1,
        ordered_snapshots(rows@),
        distinct_totals(old(totals)@),
        forall|k: int| 0 <= k < old(totals)@.len() ==> (#[trigger] old(totals)@[k]).height == height,
        running_total(old(totals)@, rows@, height, denom) >= amount,
    ensures
        final(totals)@ == debit(old(totals)@, rows@, height, denom, amount),
        distinct_totals(final(totals)@),
        forall|k: int| 0 <= k < final(totals)@.len() ==> (#[trigger] final(totals)@[k]).height == height,
{
    proof {
        lemma_touch_effect(totals@, rows@, height, denom, denom);
    }
    let i = touch_total(totals, rows, height, denom);
    let value = totals[i].value - amount;
    totals.set(i, SupplySnapshot { height, denom, value });
}

/// The staged tables that the two working vectors stand for.
pub open spec fn staged_of(coins: &Vec<CoinRecord>, totals: &Vec<SupplySnapshot>) -> Staged {
    Staged { coins: coins.deep_view(), totals: totals@ }
}

/// Applies one input of the transaction `spender` to the working tables.
fn spend_input(
    coins: &mut Vec<CoinRecord>,
    totals: &mut Vec<SupplySnapshot>,
    rows: &Vec<SupplySnapshot>,
    height: BlockHeight,
    spender: TxHash,
    input: CoinID,
) -> (res: Result<(), IndexError>)
    requires
        height >= 1,
        ordered_snapshots(rows@),
        staged_of(old(coins), old(totals)).wf(height),
        staged_of(old(coins), old(totals)).covered(rows@, height),
    ensures
        match spend_one(staged_of(old(coins), old(totals)), rows@, height, spender, input) {
            Ok(after) => res is Ok && staged_of(final(coins), final(totals)) == after,
            Err(e) => res == Err::<(), IndexError>(e),
        },
        res is Ok ==> staged_of(final(coins), final(totals)).wf(height),
        res is Ok ==> staged_of(final(coins), final(totals)).covered(rows@, height),
{
    let ghost before = staged_of(coins, totals);
    match find_coin(coins, input) {
        None => Ok(()),
        Some(i) => {
            proof {
                assert(before.coins[i as int] == coins@[i as int]@);
                lemma_coin_position(before.coins, input, i as int);
            }
            if coins[i].spent_by.is_some() {
                return Err(IndexError::DoubleSpend);
            }
            let denom = coins[i].denom;
            let value = coins[i].value;
            proof {
                lemma_spend_covered(before, rows@, height, spender, i as int);
            }
            debit_total(totals, rows, height, denom, value);
            coins[i].spent_by = Some(spender);
            proof {
                let after = staged_of(coins, totals);
                let marked = CoinRecordView { spent_by: Some(spender), ..before.coins[i as int] };
                assert(after.coins =~= before.coins.update(i as int, marked));
            }
            Ok(())
        },
    }
}

/// Applies the inputs of the transaction `spender`, in order.
fn spend_inputs(
    coins: &mut Vec<CoinRecord>,
    totals: &mut Vec<SupplySnapshot>,
    rows: &Vec<SupplySnapshot>,
    height: BlockHeight,
    spender: TxHash,
    inputs: &Vec<CoinID>,
) -> (res: Result<(), IndexError>)
    requires
        height >= 1,
        ordered_snapshots(rows@),
        staged_of(old(coins), old(totals)).wf(height),
        staged_of(old(coins), old(totals)).covered(rows@, height),
    ensures
        match spend_all(staged_of(old(coins), old(totals)), rows@, height, spender, inputs@) {
            Ok(after) => res is Ok && staged_of(final(coins), final(totals)) == after,
            Err(e) => res == Err::<(), IndexError>(e),
        },
        res is Ok ==> staged_of(final(coins), final(totals)).wf(height),
        res is Ok ==> staged_of(final(coins), final(totals)).covered(rows@, height),
{
    let ghost whole = spend_all(staged_of(coins, totals), rows@, height, spender, inputs@);
    let mut i: usize = 0;
    assert(inputs@.skip(0) =~= inputs@);
    while i < inputs.len()
        invariant
            i <= inputs.len(),
            height >= 1,
            ordered_snapshots(rows@),
            staged_of(coins, totals).wf(height),
            staged_of(coins, totals).covered(rows@, height),
            whole == spend_all(staged_of(old(coins), old(totals)), rows@, height, spender, inputs@),
            spend_all(staged_of(coins, totals), rows@, height, spender, inputs@.skip(i as int)) == whole,
        decreases inputs.len() - i,
    {
        let ghost rest = inputs@.skip(i as int);
        assert(rest[0] == inputs@[i as int]);
        assert(rest.skip(1) =~= inputs@.skip(i + 1));
        match spend_input(coins, totals, rows, height, spender, inputs[i]) {
            Err(e) => {
                return Err(e);
            },
            Ok(()) => {},
        }
        i = i + 1;
    }
    Ok(())
}

/// Applies the output at place `index` of the transaction `txhash`.
fn create_output(
    coins: &mut Vec<CoinRecord>,
    totals: &mut Vec<SupplySnapshot>,
    rows: &Vec<SupplySnapshot>,
    height: BlockHeight,
    txhash: TxHash,
    index: usize,
    output: CoinData,
) -> (res: Result<(), IndexError>)
    requires
        height >= 1,
        ordered_snapshots(rows@),
        staged_of(old(coins), old(totals)).wf(height),
        staged_of(old(coins), old(totals)).covered(rows@, height),
    ensures
        match create_one(
            staged_of(old(coins), old(totals)),
            rows@,
            height,
            txhash,
            index as int,
            output@,
        ) {
            Ok(after) => res is Ok && staged_of(final(coins), final(totals)) == after,
            Err(e) => res == Err::<(), IndexError>(e),
        },
        res is Ok ==> staged_of(final(coins), final(totals)).wf(height),
        res is Ok ==> staged_of(final(coins), final(totals)).covered(rows@, height),
{
    let ghost before = staged_of(coins, totals);
    if index > 255 {
        return Err(IndexError::TooManyOutputs);
    }
    let coin_id = CoinID { txhash, index: index as u8 };
    if find_coin(coins, coin_id).is_some() {
        proof {
            let i = find_coin_witness(coins, coin_id);
            assert(before.coins[i] == coins@[i]@);
        }
        return Err(IndexError::DuplicateCoin);
    }
    match credit_total(totals, rows, height, output.denom, output.value) {
        Err(e) => Err(e),
        Ok(()) => {
            let record = CoinRecord {
                coin_id,
                denom: output.denom,
                value: output.value,
                additional_data: output.additional_data,
                created_height: height,
                spent_by: None,
            };
            coins.push(record);
            proof {
                let after = staged_of(coins, totals);
                assert(after.coins =~= before.coins.push(record@));
                lemma_create_covered(before, rows@, height, record@);
                assert forall|a: int, b: int| 0 <= a < b < after.coins.len() implies (
                #[trigger] after.coins[a]).coin_id != (#[trigger] after.coins[b]).coin_id by {
                    if b == after.coins.len() - 1 {
                        assert(before.coins[a].coin_id != coin_id);
                    }
                }
            }
            Ok(())
        },
    }
}

/// A place at which the table holds coin `id`, for a table known to hold it.
spec fn find_coin_witness(coins: &Vec<CoinRecord>, id: CoinID) -> int {
    choose|i: int| 0 <= i < coins@.len() && (#[trigger] coins@[i]).coin_id == id
}

/// Applies the outputs of the transaction `txhash`, in order.
fn create_outputs(
    coins: &mut Vec<CoinRecord>,
    totals: &mut Vec<SupplySnapshot>,
    rows: &Vec<SupplySnapshot>,
    height: BlockHeight,
    txhash: TxHash,
    outputs: Vec<CoinData>,
) -> (res: Result<(), IndexError>)
    requires
        height >= 1,
        ordered_snapshots(rows@),
        staged_of(old(coins), old(totals)).wf(height),
        staged_of(old(coins), old(totals)).covered(rows@, height),
    ensures
        match create_all(
            staged_of(old(coins), old(totals)),
            rows@,
            height,
            txhash,
            0,
            outputs.deep_view(),
        ) {
            Ok(after) => res is Ok && staged_of(final(coins), final(totals)) == after,
            Err(e) => res == Err::<(), IndexError>(e),
        },
        res is Ok ==> staged_of(final(coins), final(totals)).wf(height),
        res is Ok ==> staged_of(final(coins), final(totals)).covered(rows@, height),
{
    let ghost views = outputs.deep_view();
    let ghost whole = create_all(staged_of(coins, totals), rows@, height, txhash, 0, views);
    assert(views.skip(0) =~= views);
    let mut index: usize = 0;
    for output in it: outputs.into_iter()
        invariant
            index == it.index(),
            it.seq() == outputs@,
            views == outputs.deep_view(),
            height >= 1,
            ordered_snapshots(rows@),
            staged_of(coins, totals).wf(height),
            staged_of(coins, totals).covered(rows@, height),
            whole == create_all(staged_of(old(coins), old(totals)), rows@, height, txhash, 0, views),
            create_all(
                staged_of(coins, totals),
                rows@,
                height,
                txhash,
                index as int,
                views.skip(index as int),
            ) == whole,
    {
        let ghost rest = views.skip(index as int);
        assert(rest[0] == output@);
        assert(rest.skip(1) =~= views.skip(index + 1));
        match create_output(coins, totals, rows, height, txhash, index, output) {
            Err(e) => {
                return Err(e);
            },
            Ok(()) => {},
        }
        index = index + 1;
    }
    Ok(())
}

/// Applies one transaction to the working tables: inputs, then outputs.
fn apply_one_transaction(
    coins: &mut Vec<CoinRecord>,
    totals: &mut Vec<SupplySnapshot>,
    rows: &Vec<SupplySnapshot>,
    height: BlockHeight,
    tx: Transaction,
) -> (res: Result<(), IndexError>)
    requires
        height >= 1,
        ordered_snapshots(rows@),
        staged_of(old(coins), old(totals)).wf(height),
        staged_of(old(coins), old(totals)).covered(rows@, height),
    ensures
        match apply_transaction(staged_of(old(coins), old(totals)), rows@, height, tx@) {
            Ok(after) => res is Ok && staged_of(final(coins), final(totals)) == after,
            Err(e) => res == Err::<(), IndexError>(e),
        },
        res is Ok ==> staged_of(final(coins), final(totals)).wf(height),
        res is Ok ==> staged_of(final(coins), final(totals)).covered(rows@, height),
{
    match spend_inputs(coins, totals, rows, height, tx.hash, &tx.inputs) {
        Err(e) => Err(e),
        Ok(()) => create_outputs(coins, totals, rows, height, tx.hash, tx.outputs),
    }
}

/// Applies the transactions of a block to the working tables, in order.
fn apply_all_transactions(
    coins: &mut Vec<CoinRecord>,
    totals: &mut Vec<SupplySnapshot>,
    rows: &Vec<SupplySnapshot>,
    height: BlockHeight,
    txs: Vec<Transaction>,
) -> (res: Result<(), IndexError>)
    requires
        height >= 1,
        ordered_snapshots(rows@),
        staged_of(old(coins), old(totals)).wf(height),
        staged_of(old(coins), old(totals)).covered(rows@, height),
    ensures
        match apply_transactions(
            staged_of(old(coins), old(totals)),
            rows@,
            height,
            txs.deep_view(),
        ) {
            Ok(after) => res is Ok && staged_of(final(coins), final(totals)) == after,
            Err(e) => res == Err::<(), IndexError>(e),
        },
        res is Ok ==> staged_of(final(coins), final(totals)).wf(height),
        res is Ok ==> staged_of(final(coins), final(totals)).covered(rows@, height),
{
    let ghost views = txs.deep_view();
    let ghost whole = apply_transactions(staged_of(coins, totals), rows@, height, views);
    assert(views.skip(0) =~= views);
    for tx in it: txs.into_iter()
        invariant
            it.seq() == txs@,
            views == txs.deep_view(),
            height >= 1,
            ordered_snapshots(rows@),
            staged_of(coins, totals).wf(height),
            staged_of(coins, totals).covered(rows@, height),
            whole == apply_transactions(staged_of(old(coins), old(totals)), rows@, height, views),
            apply_transactions(staged_of(coins, totals), rows@, height, views.skip(it.index() as int))
                == whole,
    {
        let ghost rest = views.skip(it.index() as int);
        assert(rest[0] == tx@);
        assert(rest.skip(1) =~= views.skip(it.index() + 1));
        match apply_one_transaction(coins, totals, rows, height, tx) {
            Err(e) => {
                return Err(e);
            },
            Ok(()) => {},
        }
    }
    Ok(())
}

/// What the unspent coins of `denom` hold, or `None` where that exceeds
/// 128 bits.
fn unspent_total(coins: &Vec<CoinRecord>, denom: Denom) -> (held: Option<u128>)
    ensures
        held == (if unspent_value(coins.deep_view(), denom) <= u128::MAX {
            Some(unspent_value(coins.deep_view(), denom) as u128)
        } else {
            None
        }),
        0 <= unspent_value(coins.deep_view(), denom),
{
    let ghost views = coins.deep_view();
    let mut held: u128 = 0;
    let mut i: usize = 0;
    assert(views.take(0) =~= Seq::<CoinRecordView>::empty());
    proof {
        lemma_unspent_grows(views, 0, denom);
    }
    while i < coins.len()
        invariant
            i <= coins.len(),
            views == coins.deep_view(),
            held == unspent_value(views.take(i as int), denom),
            0 <= unspent_value(views, denom),
        decreases coins.len() - i,
    {
        proof {
            assert(views.take(i + 1).drop_last() =~= views.take(i as int));
            assert(views.take(i + 1).last() == coins@[i as int]@);
            lemma_unspent_grows(views, i + 1, denom);
        }
        if coins[i].denom == denom && coins[i].spent_by.is_none() {
            match held.checked_add(coins[i].value) {
                None => {
                    return None;
                },
                Some(sum) => {
                    held = sum;
                },
            }
        }
        i = i + 1;
    }
    assert(views.take(views.len() as int) =~= views);
    Some(held)
}

/// A copy of the coin table.
fn copy_records(coins: &Vec<CoinRecord>) -> (copy: Vec<CoinRecord>)
    ensures
        copy.deep_view() == coins.deep_view(),
{
    let mut copy: Vec<CoinRecord> = Vec::new();
    let mut i: usize = 0;
    while i < coins.len()
        invariant
            i <= coins.len(),
            copy@.len() == i,
            forall|k: int| 0 <= k < i ==> (#[trigger] copy@[k])@ == coins@[k]@,
        decreases coins.len() - i,
    {
        copy.push(coins[i].clone());
        i = i + 1;
    }
    assert(copy.deep_view() =~= coins.deep_view());
    copy
}

/// The derived index. It holds one header per indexed height, one record
/// per coin created at an indexed height, and the supply snapshots of every
/// indexed height; blocks enter it one by one, in order of height.
pub struct Indexer {
    headers: Vec<Vec<u8>>,
    coins: Vec<CoinRecord>,
    supply: Vec<SupplySnapshot>,
}

/// The snapshots of one height, in their order.
pub open spec fn snapshots_of(rows: Seq<SupplySnapshot>, height: BlockHeight) -> Seq<SupplySnapshot>
    decreases rows.len(),
{
    if rows.len() == 0 {
        Seq::empty()
    } else if rows.last().height == height {
        snapshots_of(rows.drop_last(), height).push(rows.last())
    } else {
        snapshots_of(rows.drop_last(), height)
    }
}

/// The records of the coins created at one height, in their order.
pub open spec fn created_in(coins: Seq<CoinRecordView>, height: BlockHeight) -> Seq<CoinRecordView>
    decreases coins.len(),
{
    if coins.len() == 0 {
        Seq::empty()
    } else if coins.last().created_height == height {
        created_in(coins.drop_last(), height).push(coins.last())
    } else {
        created_in(coins.drop_last(), height)
    }
}

/// The coins among `inputs` of which the table holds a record, in the
/// order of the inputs, each with `spender`.
pub open spec fn held_inputs(coins: Seq<CoinRecordView>, spender: TxHash, inputs: Seq<CoinID>) -> Seq<
    (CoinID, TxHash),
>
    decreases inputs.len(),
{
    if inputs.len() == 0 {
        Seq::empty()
    } else if has_coin(coins, inputs.last()) {
        held_inputs(coins, spender, inputs.drop_last()).push((inputs.last(), spender))
    } else {
        held_inputs(coins, spender, inputs.drop_last())
    }
}

/// The coins of the table that the transactions spend, each with the
/// hash of the transaction that spends it: transaction by transaction
/// and input by input, the inputs of which the table holds a record.
pub open spec fn spends_in(coins: Seq<CoinRecordView>, txs: Seq<TransactionView>) -> Seq<
    (CoinID, TxHash),
>
    decreases txs.len(),
{
    if txs.len() == 0 {
        Seq::empty()
    } else {
        spends_in(coins, txs.drop_last()) + held_inputs(coins, txs.last().hash, txs.last().inputs)
    }
}

/// The index that three tables stand for.
pub open spec fn tables_view(
    headers: Seq<Vec<u8>>,
    coins: Seq<CoinRecordView>,
    supply: Seq<SupplySnapshot>,
) -> IndexView {
    IndexView { headers: Seq::new(headers.len(), |i: int| headers[i]@), coins, supply }
}

impl View for Indexer {
    type V = IndexView;

    closed spec fn view(&self) -> IndexView {
        tables_view(self.headers@, self.coins.deep_view(), self.supply@)
    }
}

impl Indexer {
    #[verifier::type_invariant]
    spec fn consistent(self) -> bool {
        self@.wf()
    }

    /// An index that holds nothing.
    pub fn new() -> (index: Indexer)
        ensures
            index@ == IndexView::empty(),
            index@.wf(),
    {
        let index = Indexer { headers: Vec::new(), coins: Vec::new(), supply: Vec::new() };
        assert(index@.headers =~= Seq::empty());
        assert(index@.coins =~= Seq::empty());
        index
    }

    /// The highest indexed height; zero while nothing is indexed.
    pub fn max_height(&self) -> (height: BlockHeight)
        ensures
            height == self@.max_height(),
    {
        proof {
            use_type_invariant(self);
        }
        self.headers.len() as u64
    }

    /// Applies `block`, whose proposer was rewarded `reward`, as one unit:
    /// either the whole block enters the index, or the index is left as it
    /// was and the reason is returned.
    pub fn apply_block(&mut self, block: Block, reward: u128) -> (res: Result<(), IndexError>)
        ensures
            match apply_block(old(self)@, block@, reward) {
                Ok(after) => res is Ok && final(self)@ == after,
                Err(e) => res == Err::<(), IndexError>(e) && final(self)@ == old(self)@,
            },
            final(self)@.wf(),
    {
        proof {
            use_type_invariant(&*self);
        }
        let height = block.header.height;
        let indexed = self.headers.len() as u64;
        if indexed == u64::MAX || height != indexed + 1 {
            return Err(IndexError::NotNextHeight);
        }
        let mut totals: Vec<SupplySnapshot> = Vec::new();
        match credit_total(&mut totals, &self.supply, height, Denom::Mel, reward) {
            Err(e) => {
                return Err(e);
            },
            Ok(()) => {},
        }
        let mut coins = copy_records(&self.coins);
        proof {
            let none = Seq::<SupplySnapshot>::empty();
            assert forall|denom: Denom| #[trigger]
                unspent_value(coins.deep_view(), denom) <= running_total(
                    totals@,
                    self.supply@,
                    height,
                    denom,
                ) by {
                lemma_credit_effect(none, self.supply@, height, Denom::Mel, reward, denom);
                assert(!has_total(none, denom));
                assert(unspent_value(self@.coins, denom) <= supply_after(
                    self@.supply,
                    self@.max_height(),
                    denom,
                ));
            }
        }
        match apply_all_transactions(&mut coins, &mut totals, &self.supply, height, block.transactions) {
            Err(e) => {
                return Err(e);
            },
            Ok(()) => {},
        }
        let ghost before = self@;
        let ghost staged = staged_of(&coins, &totals);
        proof {
            assert forall|i: int| 0 <= i < before.supply.len() implies (
            #[trigger] before.supply[i]).height < height by {
                assert(before.indexed(before.supply[i].height as int));
            }
            assert forall|denom: Denom| #[trigger]
                unspent_value(staged.coins, denom) <= supply_after(
                    before.supply + staged.totals,
                    height as int,
                    denom,
                ) by {
                lemma_supply_at_new_height(before.supply, staged.totals, height, denom);
                assert(unspent_value(staged.coins, denom) <= running_total(
                    staged.totals,
                    before.supply,
                    height,
                    denom,
                ));
            }
        }
        let mut headers: Vec<Vec<u8>> = Vec::new();
        let mut supply: Vec<SupplySnapshot> = Vec::new();
        self.coins = Vec::new();
        std::mem::swap(&mut self.supply, &mut supply);
        std::mem::swap(&mut self.headers, &mut headers);
        headers.push(block.header.encoded);
        supply.append(&mut totals);
        let after = Indexer { headers, coins, supply };
        proof {
            assert(after@.headers =~= before.headers.push(block.header.encoded@));
            assert(after@.supply =~= before.supply + staged.totals);
        }
        *self = after;
        Ok(())
    }

    /// Supply of `denom` immediately after block `height`: the most recent
    /// snapshot at or below `height`, zero where there is none, and `None`
    /// where `height` has not been indexed.
    ///
    /// No block stands at height zero, and of a height above the highest
    /// indexed one the index knows nothing yet: both give `None`, "unknown",
    /// not zero and not the latest value, which a later block may change.
    /// So a supply that was once answered for a height stays the answer
    /// for it.
    pub fn supply_at(&self, height: BlockHeight, denom: Denom) -> (supply: Option<u128>)
        ensures
            supply == (if self@.indexed(height as int) {
                Some(self@.supply_at(height as int, denom))
            } else {
                None
            }),
    {
        proof {
            use_type_invariant(self);
        }
        if height == 0 || height > self.max_height() {
            None
        } else {
            Some(latest_supply(&self.supply, height, denom))
        }
    }

    /// The record of coin `id`, where the index holds one.
    pub fn get_coin(&self, id: CoinID) -> (record: Option<CoinRecord>)
        ensures
            match record {
                Some(r) => has_coin(self@.coins, id) && r@ == self@.coins[coin_position(self@.coins, id)],
                None => !has_coin(self@.coins, id),
            },
    {
        proof {
            use_type_invariant(self);
        }
        match find_coin(&self.coins, id) {
            None => None,
            Some(i) => {
                proof {
                    assert(self@.coins[i as int] == self.coins@[i as int]@);
                    lemma_coin_position(self@.coins, id, i as int);
                }
                Some(self.coins[i].clone())
            },
        }
    }

    /// The encoded header of an indexed height.
    pub fn get_header(&self, height: BlockHeight) -> (header: Option<Vec<u8>>)
        ensures
            match header {
                Some(h) => self@.indexed(height as int) && h@ == self@.headers[height - 1],
                None => !self@.indexed(height as int),
            },
    {
        proof {
            use_type_invariant(self);
        }
        let indexed = self.headers.len();
        if height == 0 || height > indexed as u64 {
            None
        } else {
            let place = (height - 1) as usize;
            let header = self.headers[place].clone();
            assert(header@ =~= self.headers@[place as int]@);
            Some(header)
        }
    }

    /// The number of coin records.
    pub fn coin_count(&self) -> (n: usize)
        ensures
            n == self@.coins.len(),
    {
        self.coins.len()
    }

    /// What to do next when the chain's tip stands at `tip`: fetch the
    /// block above the highest indexed one, unless that lies above the tip.
    pub fn next_step(&self, tip: BlockHeight) -> (step: IndexerStep)
        ensures
            self@.max_height() >= tip ==> step == IndexerStep::Idle,
            self@.max_height() < tip ==> step.fetches(self@.max_height() + 1),
    {
        let indexed = self.max_height();
        if indexed >= tip {
            IndexerStep::Idle
        } else {
            let height = indexed + 1;
            IndexerStep::Fetch { height, reward_coin: reward_coin(height) }
        }
    }

    /// Takes a run of deliveries, each in its turn: a block that applies
    /// enters the index, one that does not leaves it as it was. Returns how
    /// many blocks entered.
    pub fn ingest(&mut self, feed: Vec<Delivery>) -> (applied: usize)
        ensures
            final(self)@ == ingest(old(self)@, feed.deep_view()),
            final(self)@.wf(),
            applied == final(self)@.max_height() - old(self)@.max_height(),
    {
        let ghost views = feed.deep_view();
        let mut applied: usize = 0;
        let count = feed.len();
        assert(views.skip(0) =~= views);
        proof {
            use_type_invariant(&*self);
        }
        for delivery in it: feed.into_iter()
            invariant
                it.seq() == feed@,
                feed@.len() == count,
                views == feed.deep_view(),
                self@.wf(),
                applied <= it.index(),
                applied == self@.max_height() - old(self)@.max_height(),
                ingest(self@, views.skip(it.index() as int)) == ingest(old(self)@, views),
        {
            let ghost rest = views.skip(it.index() as int);
            assert(rest[0] == delivery@);
            assert(rest.skip(1) =~= views.skip(it.index() + 1));
            match self.apply_block(delivery.block, delivery.reward) {
                Ok(()) => {
                    applied = applied + 1;
                },
                Err(_) => {},
            }
        }
        applied
    }

    /// The three tables of the index, in the order of their rows: the
    /// encoded headers from height one on, the coin records, and the supply
    /// snapshots. [`Indexer::restore`] makes the index again from them.
    pub fn into_tables(self) -> (tables: (Vec<Vec<u8>>, Vec<CoinRecord>, Vec<SupplySnapshot>))
        ensures
            tables_view(tables.0@, tables.1.deep_view(), tables.2@) == self@,
            self@.wf(),
    {
        proof {
            use_type_invariant(&self);
        }
        (self.headers, self.coins, self.supply)
    }

    /// Makes an index from its three tables, as after a restart: the
    /// encoded headers from height one on, the coin records, and the supply
    /// snapshots, each in the order of its rows. `None` where the tables
    /// are not consistent with each other.
    pub fn restore(
        headers: Vec<Vec<u8>>,
        coins: Vec<CoinRecord>,
        supply: Vec<SupplySnapshot>,
    ) -> (index: Option<Indexer>)
        ensures
            match index {
                Some(i) => i@ == tables_view(headers@, coins.deep_view(), supply@) && i@.wf(),
                None => !tables_view(headers@, coins.deep_view(), supply@).wf(),
            },
    {
        let ghost view = tables_view(headers@, coins.deep_view(), supply@);
        let indexed = headers.len() as u64;
        let mut i: usize = 0;
        while i < coins.len()
            invariant
                i <= coins.len(),
                indexed == headers@.len(),
                view == tables_view(headers@, coins.deep_view(), supply@),
                forall|a: int, b: int|
                    0 <= a < b < coins@.len() && a < i ==> (#[trigger] view.coins[a]).coin_id != (
                    #[trigger] view.coins[b]).coin_id,
                forall|a: int|
                    0 <= a < i ==> view.indexed((#[trigger] view.coins[a]).created_height as int),
            decreases coins.len() - i,
        {
            assert(view.coins[i as int] == coins@[i as int]@);
            if coins[i].created_height == 0 || coins[i].created_height > indexed {
                return None;
            }
            let mut j: usize = i + 1;
            while j < coins.len()
                invariant
                    i < j <= coins.len(),
                    view == tables_view(headers@, coins.deep_view(), supply@),
                    forall|b: int|
                        i < b < j ==> view.coins[i as int].coin_id != (#[trigger] view.coins[b]).coin_id,
                decreases coins.len() - j,
            {
                assert(view.coins[i as int] == coins@[i as int]@);
                assert(view.coins[j as int] == coins@[j as int]@);
                if coins[i].coin_id == coins[j].coin_id {
                    return None;
                }
                j = j + 1;
            }
            i = i + 1;
        }
        let mut k: usize = 0;
        while k < supply.len()
            invariant
                k <= supply.len(),
                indexed == headers@.len(),
                view == tables_view(headers@, coins.deep_view(), supply@),
                forall|a: int| 0 <= a < k ==> view.indexed((#[trigger] supply@[a]).height as int),
                forall|a: int, b: int|
                    0 <= a < b < supply@.len() && a < k ==> (#[trigger] supply@[a]).height <= (
                    #[trigger] supply@[b]).height && !(supply@[a].height == supply@[b].height
                        && supply@[a].denom == supply@[b].denom),
            decreases supply.len() - k,
        {
            if supply[k].height == 0 || supply[k].height > indexed {
                return None;
            }
            let mut j: usize = k + 1;
            while j < supply.len()
                invariant
                    k < j <= supply.len(),
                    forall|b: int|
                        k < b < j ==> supply@[k as int].height <= (#[trigger] supply@[b]).height && !(
                        supply@[k as int].height == supply@[b].height && supply@[k as int].denom
                            == supply@[b].denom),
                decreases supply.len() - j,
            {
                if supply[k].height > supply[j].height || (supply[k].height == supply[j].height
                    && supply[k].denom == supply[j].denom) {
                    return None;
                }
                j = j + 1;
            }
            k = k + 1;
        }
        let mut c: usize = 0;
        while c < coins.len()
            invariant
                c <= coins.len(),
                indexed == headers@.len(),
                view == tables_view(headers@, coins.deep_view(), supply@),
                ordered_snapshots(supply@),
                forall|a: int|
                    0 <= a < c && (#[trigger] view.coins[a]).spent_by is None ==> unspent_value(
                        view.coins,
                        view.coins[a].denom,
                    ) <= supply_after(supply@, indexed as int, view.coins[a].denom),
            decreases coins.len() - c,
        {
            assert(view.coins[c as int] == coins@[c as int]@);
            if coins[c].spent_by.is_none() {
                let denom = coins[c].denom;
                let held = match unspent_total(&coins, denom) {
                    None => {
                        return None;
                    },
                    Some(held) => held,
                };
                if held > latest_supply(&supply, indexed, denom) {
                    return None;
                }
            }
            c = c + 1;
        }
        proof {
            assert forall|denom: Denom| #[trigger]
                unspent_value(view.coins, denom) <= supply_after(view.supply, view.max_height(), denom) by {
                if exists|a: int|
                    0 <= a < view.coins.len() && (#[trigger] view.coins[a]).denom == denom
                        && view.coins[a].spent_by is None {
                    let a = choose|a: int|
                        0 <= a < view.coins.len() && (#[trigger] view.coins[a]).denom == denom
                            && view.coins[a].spent_by is None;
                    assert(view.coins[a].spent_by is None);
                } else {
                    lemma_unspent_of_none(view.coins, denom);
                }
            }
        }
        Some(Indexer { headers, coins, supply })
    }

    /// The supply snapshots that the block at `height` left, in the order
    /// in which its denominations were first touched.
    pub fn snapshots_at(&self, height: BlockHeight) -> (rows: Vec<SupplySnapshot>)
        ensures
            rows@ == snapshots_of(self@.supply, height),
    {
        let mut rows: Vec<SupplySnapshot> = Vec::new();
        let mut i: usize = 0;
        assert(self.supply@.take(0) =~= Seq::<SupplySnapshot>::empty());
        while i < self.supply.len()
            invariant
                i <= self.supply.len(),
                rows@ == snapshots_of(self.supply@.take(i as int), height),
            decreases self.supply.len() - i,
        {
            assert(self.supply@.take(i + 1).drop_last() =~= self.supply@.take(i as int));
            assert(self.supply@.take(i + 1).last() == self.supply@[i as int]);
            if self.supply[i].height == height {
                rows.push(self.supply[i]);
            }
            i = i + 1;
        }
        assert(self.supply@.take(self.supply@.len() as int) =~= self.supply@);
        rows
    }

    /// The records of the coins that the block at `height` created, as
    /// they are now, in the order of their creation.
    pub fn coins_created_at(&self, height: BlockHeight) -> (records: Vec<CoinRecord>)
        ensures
            records.deep_view() == created_in(self@.coins, height),
    {
        let ghost views = self.coins.deep_view();
        let mut records: Vec<CoinRecord> = Vec::new();
        let mut i: usize = 0;
        assert(views.take(0) =~= Seq::<CoinRecordView>::empty());
        assert(records.deep_view() =~= created_in(views.take(0), height));
        while i < self.coins.len()
            invariant
                i <= self.coins.len(),
                views == self.coins.deep_view(),
                records.deep_view() == created_in(views.take(i as int), height),
            decreases self.coins.len() - i,
        {
            assert(views.take(i + 1).drop_last() =~= views.take(i as int));
            assert(views.take(i + 1).last() == self.coins@[i as int]@);
            let ghost before = records.deep_view();
            if self.coins[i].created_height == height {
                records.push(self.coins[i].clone());
                assert(records.deep_view() =~= before.push(self.coins@[i as int]@));
            }
            i = i + 1;
        }
        assert(views.take(views.len() as int) =~= views);
        records
    }

    /// The coins of the index that the block spends, each with the hash
    /// of the transaction that spends it. Asked before the block is
    /// applied, it tells which of the records that the index holds the
    /// block will mark, and with which spender, where it applies.
    pub fn spends_of(&self, block: &Block) -> (spends: Vec<(CoinID, TxHash)>)
        ensures
            spends@ == spends_in(self@.coins, block@.transactions),
    {
        let ghost coins = self@.coins;
        let ghost txs = block@.transactions;
        let mut spends: Vec<(CoinID, TxHash)> = Vec::new();
        let mut t: usize = 0;
        assert(txs.take(0) =~= Seq::<TransactionView>::empty());
        while t < block.transactions.len()
            invariant
                t <= block.transactions.len(),
                coins == self@.coins,
                txs == block@.transactions,
                spends@ == spends_in(coins, txs.take(t as int)),
            decreases block.transactions.len() - t,
        {
            let tx = &block.transactions[t];
            let ghost done = spends@;
            let ghost inputs = tx@.inputs;
            let mut k: usize = 0;
            assert(inputs.take(0) =~= Seq::<CoinID>::empty());
            assert(spends@ =~= done + held_inputs(coins, tx.hash, inputs.take(0)));
            while k < tx.inputs.len()
                invariant
                    k <= tx.inputs.len(),
                    coins == self@.coins,
                    inputs == tx.inputs@,
                    spends@ == done + held_inputs(coins, tx.hash, inputs.take(k as int)),
                decreases tx.inputs.len() - k,
            {
                let input = tx.inputs[k];
                assert(inputs.take(k + 1).drop_last() =~= inputs.take(k as int));
                assert(inputs.take(k + 1).last() == input);
                match find_coin(&self.coins, input) {
                    Some(place) => {
                        assert(coins[place as int] == self.coins@[place as int]@);
                        spends.push((input, tx.hash));
                        assert(spends@ =~= done + held_inputs(
                            coins,
                            tx.hash,
                            inputs.take(k + 1),
                        ));
                    },
                    None => {
                        assert(spends@ =~= done + held_inputs(
                            coins,
                            tx.hash,
                            inputs.take(k + 1),
                        ));
                    },
                }
                k = k + 1;
            }
            proof {
                assert(inputs.take(inputs.len() as int) =~= inputs);
                assert(txs.take(t + 1).drop_last() =~= txs.take(t as int));
                assert(txs.take(t + 1).last() == tx@);
            }
            t = t + 1;
        }
        assert(txs.take(txs.len() as int) =~= txs);
        spends
    }
}

} // verus!
