//! What holds of the index whatever blocks it is fed: its tables stay
//! consistent, a coin keeps what it was created with and the spender it
//! once got, the supply moves by what was minted and burned, and an
//! interrupted ingestion ends where an uninterrupted one does.

use vstd::prelude::*;
use crate::structs::{BlockHeight, BlockView, CoinDataView, CoinID, Denom, TransactionView, TxHash};
use crate::indexer::{
    apply_block, apply_transaction, apply_transactions, coin_position, create_all, create_one,
    credit, debit, distinct_coins, distinct_totals, has_coin, has_snapshot, has_total,
    lemma_coin_position, lemma_total_position, ordered_snapshots, snapshot_value, spend_all,
    advance, held_inputs, ingest, running_total, spend_one, spends_in, supply_after,
    total_position, touch, unspent_value,
    CoinRecordView, DeliveryView, IndexError, IndexView, Staged, SupplySnapshot,
};

verus! {

/// Whatever holds of the staged tables and is kept by every input that is
/// spent, holds after all inputs of a transaction.
proof fn lemma_spend_all_keeps(
    kept: spec_fn(Staged) -> bool,
    staged: Staged,
    rows: Seq<SupplySnapshot>,
    height: BlockHeight,
    spender: TxHash,
    inputs: Seq<CoinID>,
)
    requires
        kept(staged),
        forall|s: Staged, input: CoinID|
            kept(s) && (#[trigger] spend_one(s, rows, height, spender, input)) is Ok ==> kept(
                spend_one(s, rows, height, spender, input)->Ok_0,
            ),
    ensures
        spend_all(staged, rows, height, spender, inputs) matches Ok(after) ==> kept(after),
    decreases inputs.len(),
{
    if inputs.len() > 0 {
        match spend_one(staged, rows, height, spender, inputs[0]) {
            Err(_) => {},
            Ok(next) => {
                lemma_spend_all_keeps(kept, next, rows, height, spender, inputs.skip(1));
            },
        }
    }
}

/// Whatever holds of the staged tables and is kept by every output that is
/// created, holds after all outputs of a transaction.
proof fn lemma_create_all_keeps(
    kept: spec_fn(Staged) -> bool,
    staged: Staged,
    rows: Seq<SupplySnapshot>,
    height: BlockHeight,
    txhash: TxHash,
    index: int,
    outputs: Seq<CoinDataView>,
)
    requires
        kept(staged),
        forall|s: Staged, i: int, output: CoinDataView|
            kept(s) && (#[trigger] create_one(s, rows, height, txhash, i, output)) is Ok ==> kept(
                create_one(s, rows, height, txhash, i, output)->Ok_0,
            ),
    ensures
        create_all(staged, rows, height, txhash, index, outputs) matches Ok(after) ==> kept(after),
    decreases outputs.len(),
{
    if outputs.len() > 0 {
        match create_one(staged, rows, height, txhash, index, outputs[0]) {
            Err(_) => {},
            Ok(next) => {
                lemma_create_all_keeps(kept, next, rows, height, txhash, index + 1, outputs.skip(1));
            },
        }
    }
}

/// Every step of applying a block at `height` keeps `kept`.
spec fn kept_by_steps(kept: spec_fn(Staged) -> bool, rows: Seq<SupplySnapshot>, height: BlockHeight) -> bool {
    &&& forall|s: Staged, spender: TxHash, input: CoinID|
        kept(s) && (#[trigger] spend_one(s, rows, height, spender, input)) is Ok ==> kept(
            spend_one(s, rows, height, spender, input)->Ok_0,
        )
    &&& forall|s: Staged, txhash: TxHash, i: int, output: CoinDataView|
        kept(s) && (#[trigger] create_one(s, rows, height, txhash, i, output)) is Ok ==> kept(
            create_one(s, rows, height, txhash, i, output)->Ok_0,
        )
}

/// Whatever holds of the staged tables and is kept by every step, holds
/// after all transactions of a block.
proof fn lemma_apply_transactions_keeps(
    kept: spec_fn(Staged) -> bool,
    staged: Staged,
    rows: Seq<SupplySnapshot>,
    height: BlockHeight,
    txs: Seq<TransactionView>,
)
    requires
        kept(staged),
        kept_by_steps(kept, rows, height),
    ensures
        apply_transactions(staged, rows, height, txs) matches Ok(after) ==> kept(after),
    decreases txs.len(),
{
    if txs.len() > 0 {
        let tx = txs[0];
        lemma_spend_all_keeps(kept, staged, rows, height, tx.hash, tx.inputs);
        match spend_all(staged, rows, height, tx.hash, tx.inputs) {
            Err(_) => {},
            Ok(spent) => {
                lemma_create_all_keeps(kept, spent, rows, height, tx.hash, 0, tx.outputs);
                match apply_transaction(staged, rows, height, tx) {
                    Err(_) => {},
                    Ok(next) => {
                        lemma_apply_transactions_keeps(kept, next, rows, height, txs.skip(1));
                    },
                }
            },
        }
    }
}

/// Two records tell the same of a coin's creation.
pub open spec fn same_coin(a: CoinRecordView, b: CoinRecordView) -> bool {
    &&& a.coin_id == b.coin_id
    &&& a.denom == b.denom
    &&& a.value == b.value
    &&& a.additional_data == b.additional_data
    &&& a.created_height == b.created_height
}

/// The coin table `after` continues the table `before`: every record of
/// `before` stands where it stood and tells the same of the coin's
/// creation, a spender once set is still the same spender, and every
/// further record was created at `height`.
pub open spec fn grows_from(
    before: Seq<CoinRecordView>,
    after: Seq<CoinRecordView>,
    height: BlockHeight,
) -> bool {
    &&& before.len() <= after.len()
    &&& forall|i: int|
        0 <= i < before.len() ==> same_coin(before[i], #[trigger] after[i]) && (before[i].spent_by is Some
            ==> after[i].spent_by == before[i].spent_by)
    &&& forall|i: int| before.len() <= i < after.len() ==> (#[trigger] after[i]).created_height == height
}

/// The coin at place `i` was spent between `before` and `after`.
pub open spec fn newly_spent(before: Seq<CoinRecordView>, after: Seq<CoinRecordView>, i: int) -> bool {
    after[i].spent_by is Some && (i >= before.len() || before[i].spent_by is None)
}

/// Value of the coins of `denom` among the first `n` of `after` that were
/// spent between `before` and `after`.
pub open spec fn burned_among(
    before: Seq<CoinRecordView>,
    after: Seq<CoinRecordView>,
    denom: Denom,
    n: int,
) -> int
    decreases n,
{
    if n <= 0 {
        0
    } else {
        burned_among(before, after, denom, n - 1) + (if newly_spent(before, after, n - 1) && after[n
            - 1].denom == denom {
            after[n - 1].value as int
        } else {
            0
        })
    }
}

/// Value of the coins of `denom` that were spent between `before` and `after`.
pub open spec fn burned(before: Seq<CoinRecordView>, after: Seq<CoinRecordView>, denom: Denom) -> int {
    burned_among(before, after, denom, after.len() as int)
}

/// Value of the coins of `denom` among the first `n` of `after` that
/// `before` does not hold yet.
pub open spec fn created_among(
    before: Seq<CoinRecordView>,
    after: Seq<CoinRecordView>,
    denom: Denom,
    n: int,
) -> int
    decreases n,
{
    if n <= 0 {
        0
    } else {
        created_among(before, after, denom, n - 1) + (if n - 1 >= before.len() && after[n - 1].denom
            == denom {
            after[n - 1].value as int
        } else {
            0
        })
    }
}

/// Value of the coins of `denom` that were created between `before` and `after`.
pub open spec fn created(before: Seq<CoinRecordView>, after: Seq<CoinRecordView>, denom: Denom) -> int {
    created_among(before, after, denom, after.len() as int)
}

/// What stays the same while a block is applied: the running total of
/// `denom`, with what was burned added back and what was created taken off.
spec fn balance(
    staged: Staged,
    rows: Seq<SupplySnapshot>,
    height: BlockHeight,
    before: Seq<CoinRecordView>,
    denom: Denom,
) -> int {
    running_total(staged.totals, rows, height, denom) + burned(before, staged.coins, denom) - created(
        before,
        staged.coins,
        denom,
    )
}

/// The staged tables are consistent, continue `before`, and balance to `base`.
spec fn sound(
    staged: Staged,
    rows: Seq<SupplySnapshot>,
    height: BlockHeight,
    before: Seq<CoinRecordView>,
    denom: Denom,
    base: int,
) -> bool {
    &&& staged.wf(height)
    &&& staged.covered(rows, height)
    &&& grows_from(before, staged.coins, height)
    &&& balance(staged, rows, height, before, denom) == base
}

pub proof fn lemma_touch_effect(
    totals: Seq<SupplySnapshot>,
    rows: Seq<SupplySnapshot>,
    height: BlockHeight,
    denom: Denom,
    other: Denom,
)
    requires
        distinct_totals(totals),
        forall|i: int| 0 <= i < totals.len() ==> (#[trigger] totals[i]).height == height,
    ensures
        distinct_totals(touch(totals, rows, height, denom)),
        forall|i: int|
            0 <= i < touch(totals, rows, height, denom).len() ==> (#[trigger] touch(
                totals,
                rows,
                height,
                denom,
            )[i]).height == height,
        has_total(touch(totals, rows, height, denom), denom),
        0 <= total_position(touch(totals, rows, height, denom), denom) < touch(
            totals,
            rows,
            height,
            denom,
        ).len(),
        touch(totals, rows, height, denom)[total_position(
            touch(totals, rows, height, denom),
            denom,
        )].denom == denom,
        running_total(touch(totals, rows, height, denom), rows, height, other) == running_total(
            totals,
            rows,
            height,
            other,
        ),
{
    let touched = touch(totals, rows, height, denom);
    if has_total(totals, denom) {
    } else {
        let last = totals.len() as int;
        assert(touched[last].denom == denom);
        assert forall|i: int, j: int| 0 <= i < j < touched.len() implies (#[trigger] touched[i]).denom
            != (#[trigger] touched[j]).denom by {
            if j == last {
                assert(totals[i].denom != denom);
            } else {
                assert(totals[i].denom != totals[j].denom);
            }
        }
        lemma_total_position(touched, denom, last);
        if other == denom {
        } else if has_total(totals, other) {
            let k = total_position(totals, other);
            assert(touched[k] == totals[k]);
            lemma_total_position(touched, other, k);
        } else {
            if has_total(touched, other) {
                let k = total_position(touched, other);
                if k < last {
                    assert(totals[k].denom == other);
                }
            }
        }
    }
}

pub proof fn lemma_update_effect(
    touched: Seq<SupplySnapshot>,
    rows: Seq<SupplySnapshot>,
    height: BlockHeight,
    denom: Denom,
    value: u128,
    other: Denom,
)
    requires
        distinct_totals(touched),
        forall|i: int| 0 <= i < touched.len() ==> (#[trigger] touched[i]).height == height,
        has_total(touched, denom),
    ensures
        ({
            let i = total_position(touched, denom);
            let after = touched.update(i, SupplySnapshot { height, denom, value });
            &&& distinct_totals(after)
            &&& forall|k: int| 0 <= k < after.len() ==> (#[trigger] after[k]).height == height
            &&& running_total(after, rows, height, other) == (if other == denom {
                value as int
            } else {
                running_total(touched, rows, height, other)
            })
        }),
{
    let i = total_position(touched, denom);
    let after = touched.update(i, SupplySnapshot { height, denom, value });
    assert forall|a: int, b: int| 0 <= a < b < after.len() implies (#[trigger] after[a]).denom != (
    #[trigger] after[b]).denom by {
        assert(touched[a].denom != touched[b].denom);
    }
    lemma_total_position(after, denom, i);
    if other != denom {
        if has_total(touched, other) {
            let k = total_position(touched, other);
            assert(after[k] == touched[k]);
            lemma_total_position(after, other, k);
        } else if has_total(after, other) {
            let k = total_position(after, other);
            assert(touched[k].denom == other);
        }
    }
}

pub proof fn lemma_credit_effect(
    totals: Seq<SupplySnapshot>,
    rows: Seq<SupplySnapshot>,
    height: BlockHeight,
    denom: Denom,
    amount: u128,
    other: Denom,
)
    requires
        distinct_totals(totals),
        forall|i: int| 0 <= i < totals.len() ==> (#[trigger] totals[i]).height == height,
        credit(totals, rows, height, denom, amount) is Ok,
    ensures
        ({
            let after = credit(totals, rows, height, denom, amount)->Ok_0;
            &&& distinct_totals(after)
            &&& forall|k: int| 0 <= k < after.len() ==> (#[trigger] after[k]).height == height
            &&& running_total(after, rows, height, other) == running_total(totals, rows, height, other)
                + (if other == denom {
                amount as int
            } else {
                0
            })
        }),
{
    let touched = touch(totals, rows, height, denom);
    lemma_touch_effect(totals, rows, height, denom, other);
    lemma_touch_effect(totals, rows, height, denom, denom);
    let i = total_position(touched, denom);
    lemma_update_effect(touched, rows, height, denom, (touched[i].value + amount) as u128, other);
}

pub proof fn lemma_debit_effect(
    totals: Seq<SupplySnapshot>,
    rows: Seq<SupplySnapshot>,
    height: BlockHeight,
    denom: Denom,
    amount: u128,
    other: Denom,
)
    requires
        distinct_totals(totals),
        forall|i: int| 0 <= i < totals.len() ==> (#[trigger] totals[i]).height == height,
        running_total(totals, rows, height, denom) >= amount,
    ensures
        ({
            let after = debit(totals, rows, height, denom, amount);
            &&& distinct_totals(after)
            &&& forall|k: int| 0 <= k < after.len() ==> (#[trigger] after[k]).height == height
            &&& running_total(after, rows, height, other) == running_total(totals, rows, height, other)
                - (if other == denom {
                amount as int
            } else {
                0
            })
        }),
{
    let touched = touch(totals, rows, height, denom);
    lemma_touch_effect(totals, rows, height, denom, other);
    lemma_touch_effect(totals, rows, height, denom, denom);
    let i = total_position(touched, denom);
    lemma_update_effect(touched, rows, height, denom, (touched[i].value - amount) as u128, other);
}

/// What the unspent coins of a denomination hold is not negative, and
/// grows with the table.
pub proof fn lemma_unspent_grows(coins: Seq<CoinRecordView>, n: int, denom: Denom)
    requires
        0 <= n <= coins.len(),
    ensures
        0 <= unspent_value(coins.take(n), denom) <= unspent_value(coins, denom),
    decreases coins.len() - n,
{
    if n < coins.len() {
        assert(coins.take(n + 1).drop_last() =~= coins.take(n));
        lemma_unspent_grows(coins, n + 1, denom);
        lemma_unspent_not_negative(coins.take(n), denom);
    } else {
        assert(coins.take(n) =~= coins);
        lemma_unspent_not_negative(coins, denom);
    }
}

proof fn lemma_unspent_not_negative(coins: Seq<CoinRecordView>, denom: Denom)
    ensures
        0 <= unspent_value(coins, denom),
    decreases coins.len(),
{
    if coins.len() > 0 {
        lemma_unspent_not_negative(coins.drop_last(), denom);
    }
}

/// What the unspent coins of a denomination hold is at least what one of
/// them holds.
pub proof fn lemma_unspent_at_least(coins: Seq<CoinRecordView>, i: int, denom: Denom)
    requires
        0 <= i < coins.len(),
    ensures
        0 <= unspent_value(coins, denom),
        coins[i].denom == denom && coins[i].spent_by is None ==> coins[i].value <= unspent_value(
            coins,
            denom,
        ),
{
    lemma_unspent_grows(coins, i + 1, denom);
    lemma_unspent_grows(coins, i, denom);
    assert(coins.take(i + 1).drop_last() =~= coins.take(i));
    assert(coins.take(i + 1).last() == coins[i]);
}

/// Where no unspent coin has the denomination, the unspent coins hold
/// nothing of it.
pub proof fn lemma_unspent_of_none(coins: Seq<CoinRecordView>, denom: Denom)
    requires
        forall|i: int|
            0 <= i < coins.len() ==> !((#[trigger] coins[i]).denom == denom && coins[i].spent_by is None),
    ensures
        unspent_value(coins, denom) == 0,
    decreases coins.len(),
{
    if coins.len() > 0 {
        assert(coins.last() == coins[coins.len() - 1]);
        assert forall|i: int| 0 <= i < coins.drop_last().len() implies !((
        #[trigger] coins.drop_last()[i]).denom == denom && coins.drop_last()[i].spent_by is None) by {
            assert(coins.drop_last()[i] == coins[i]);
        }
        lemma_unspent_of_none(coins.drop_last(), denom);
    }
}

/// Marking a coin as spent takes its value from what the unspent coins of
/// its denomination hold.
pub proof fn lemma_unspent_after_spend(
    coins: Seq<CoinRecordView>,
    i: int,
    spender: TxHash,
    denom: Denom,
)
    requires
        0 <= i < coins.len(),
        coins[i].spent_by is None,
    ensures
        unspent_value(
            coins.update(i, CoinRecordView { spent_by: Some(spender), ..coins[i] }),
            denom,
        ) == unspent_value(coins, denom) - (if coins[i].denom == denom {
            coins[i].value as int
        } else {
            0
        }),
    decreases coins.len(),
{
    let marked = coins.update(i, CoinRecordView { spent_by: Some(spender), ..coins[i] });
    if i == coins.len() - 1 {
        assert(marked.drop_last() =~= coins.drop_last());
    } else {
        assert(marked.drop_last() =~= coins.drop_last().update(
            i,
            CoinRecordView { spent_by: Some(spender), ..coins[i] },
        ));
        lemma_unspent_after_spend(coins.drop_last(), i, spender, denom);
    }
}

/// A new unspent coin adds its value to what the unspent coins of its
/// denomination hold.
pub proof fn lemma_unspent_after_create(
    coins: Seq<CoinRecordView>,
    record: CoinRecordView,
    denom: Denom,
)
    requires
        record.spent_by is None,
    ensures
        unspent_value(coins.push(record), denom) == unspent_value(coins, denom) + (if record.denom
            == denom {
            record.value as int
        } else {
            0
        }),
{
    assert(coins.push(record).drop_last() =~= coins);
}

/// Spending an unspent coin keeps the running totals above what the
/// unspent coins hold, and the total that the coin's value is taken from
/// holds that much.
pub proof fn lemma_spend_covered(
    staged: Staged,
    rows: Seq<SupplySnapshot>,
    height: BlockHeight,
    spender: TxHash,
    i: int,
)
    requires
        staged.wf(height),
        staged.covered(rows, height),
        0 <= i < staged.coins.len(),
        staged.coins[i].spent_by is None,
    ensures
        ({
            let coin = staged.coins[i];
            let after = Staged {
                coins: staged.coins.update(i, CoinRecordView { spent_by: Some(spender), ..coin }),
                totals: debit(staged.totals, rows, height, coin.denom, coin.value),
            };
            &&& running_total(staged.totals, rows, height, coin.denom) >= coin.value
            &&& after.covered(rows, height)
        }),
{
    let coin = staged.coins[i];
    let after = Staged {
        coins: staged.coins.update(i, CoinRecordView { spent_by: Some(spender), ..coin }),
        totals: debit(staged.totals, rows, height, coin.denom, coin.value),
    };
    lemma_unspent_at_least(staged.coins, i, coin.denom);
    assert(unspent_value(staged.coins, coin.denom) <= running_total(
        staged.totals,
        rows,
        height,
        coin.denom,
    ));
    assert forall|denom: Denom| #[trigger]
        unspent_value(after.coins, denom) <= running_total(after.totals, rows, height, denom) by {
        lemma_unspent_after_spend(staged.coins, i, spender, denom);
        lemma_debit_effect(staged.totals, rows, height, coin.denom, coin.value, denom);
        assert(unspent_value(staged.coins, denom) <= running_total(staged.totals, rows, height, denom));
    }
}

/// Creating a coin whose value was credited keeps the running totals
/// above what the unspent coins hold.
pub proof fn lemma_create_covered(
    staged: Staged,
    rows: Seq<SupplySnapshot>,
    height: BlockHeight,
    record: CoinRecordView,
)
    requires
        staged.wf(height),
        staged.covered(rows, height),
        record.spent_by is None,
        credit(staged.totals, rows, height, record.denom, record.value) is Ok,
    ensures
        (Staged {
            coins: staged.coins.push(record),
            totals: credit(staged.totals, rows, height, record.denom, record.value)->Ok_0,
        }).covered(rows, height),
{
    let after = Staged {
        coins: staged.coins.push(record),
        totals: credit(staged.totals, rows, height, record.denom, record.value)->Ok_0,
    };
    assert forall|denom: Denom| #[trigger]
        unspent_value(after.coins, denom) <= running_total(after.totals, rows, height, denom) by {
        lemma_unspent_after_create(staged.coins, record, denom);
        lemma_credit_effect(staged.totals, rows, height, record.denom, record.value, denom);
        assert(unspent_value(staged.coins, denom) <= running_total(staged.totals, rows, height, denom));
    }
}

proof fn lemma_sums_after_spend(
    before: Seq<CoinRecordView>,
    coins: Seq<CoinRecordView>,
    i: int,
    spender: TxHash,
    denom: Denom,
    n: int,
)
    requires
        0 <= i < coins.len(),
        0 <= n <= coins.len(),
        coins[i].spent_by is None,
        i < before.len() ==> before[i].spent_by is None,
    ensures
        ({
            let marked = coins.update(i, CoinRecordView { spent_by: Some(spender), ..coins[i] });
            &&& burned_among(before, marked, denom, n) == burned_among(before, coins, denom, n) + (if i
                < n && coins[i].denom == denom {
                coins[i].value as int
            } else {
                0
            })
            &&& created_among(before, marked, denom, n) == created_among(before, coins, denom, n)
        }),
    decreases n,
{
    if n > 0 {
        lemma_sums_after_spend(before, coins, i, spender, denom, n - 1);
    }
}

proof fn lemma_sums_after_create(
    before: Seq<CoinRecordView>,
    coins: Seq<CoinRecordView>,
    record: CoinRecordView,
    denom: Denom,
    n: int,
)
    requires
        0 <= n <= coins.len(),
    ensures
        burned_among(before, coins.push(record), denom, n) == burned_among(before, coins, denom, n),
        created_among(before, coins.push(record), denom, n) == created_among(before, coins, denom, n),
    decreases n,
{
    if n > 0 {
        lemma_sums_after_create(before, coins, record, denom, n - 1);
    }
}

proof fn lemma_spend_one_sound(
    staged: Staged,
    rows: Seq<SupplySnapshot>,
    height: BlockHeight,
    before: Seq<CoinRecordView>,
    denom: Denom,
    base: int,
    spender: TxHash,
    input: CoinID,
)
    requires
        sound(staged, rows, height, before, denom, base),
        spend_one(staged, rows, height, spender, input) is Ok,
    ensures
        sound(spend_one(staged, rows, height, spender, input)->Ok_0, rows, height, before, denom, base),
{
    if has_coin(staged.coins, input) {
        let i = coin_position(staged.coins, input);
        let coin = staged.coins[i];
        let after = spend_one(staged, rows, height, spender, input)->Ok_0;
        lemma_spend_covered(staged, rows, height, spender, i);
        lemma_debit_effect(staged.totals, rows, height, coin.denom, coin.value, denom);
        assert forall|a: int, b: int| 0 <= a < b < after.coins.len() implies (
        #[trigger] after.coins[a]).coin_id != (#[trigger] after.coins[b]).coin_id by {
            assert(staged.coins[a].coin_id != staged.coins[b].coin_id);
        }
        assert forall|k: int| 0 <= k < after.coins.len() implies 1 <= (
        #[trigger] after.coins[k]).created_height <= height by {
            assert(1 <= staged.coins[k].created_height <= height);
        }
        if i < before.len() {
            assert(same_coin(before[i], staged.coins[i]));
        }
        assert forall|k: int| 0 <= k < before.len() implies same_coin(
            before[k],
            #[trigger] after.coins[k],
        ) && (before[k].spent_by is Some ==> after.coins[k].spent_by == before[k].spent_by) by {
            assert(same_coin(before[k], staged.coins[k]));
        }
        assert forall|k: int| before.len() <= k < after.coins.len() implies (
        #[trigger] after.coins[k]).created_height == height by {
            assert(staged.coins[k].created_height == height);
        }
        lemma_sums_after_spend(before, staged.coins, i, spender, denom, staged.coins.len() as int);
    }
}

proof fn lemma_create_one_sound(
    staged: Staged,
    rows: Seq<SupplySnapshot>,
    height: BlockHeight,
    before: Seq<CoinRecordView>,
    denom: Denom,
    base: int,
    txhash: TxHash,
    index: int,
    output: CoinDataView,
)
    requires
        height >= 1,
        sound(staged, rows, height, before, denom, base),
        create_one(staged, rows, height, txhash, index, output) is Ok,
    ensures
        sound(
            create_one(staged, rows, height, txhash, index, output)->Ok_0,
            rows,
            height,
            before,
            denom,
            base,
        ),
{
    let after = create_one(staged, rows, height, txhash, index, output)->Ok_0;
    let coin_id = CoinID { txhash, index: index as u8 };
    let record = after.coins[staged.coins.len() as int];
    lemma_create_covered(staged, rows, height, record);
    lemma_credit_effect(staged.totals, rows, height, output.denom, output.value, denom);
    assert forall|a: int, b: int| 0 <= a < b < after.coins.len() implies (
    #[trigger] after.coins[a]).coin_id != (#[trigger] after.coins[b]).coin_id by {
        if b == staged.coins.len() {
            assert(staged.coins[a].coin_id != coin_id);
        } else {
            assert(staged.coins[a].coin_id != staged.coins[b].coin_id);
        }
    }
    assert forall|k: int| 0 <= k < after.coins.len() implies 1 <= (
    #[trigger] after.coins[k]).created_height <= height by {
        if k < staged.coins.len() {
            assert(1 <= staged.coins[k].created_height <= height);
        }
    }
    assert forall|k: int| 0 <= k < before.len() implies same_coin(before[k], #[trigger] after.coins[k])
        && (before[k].spent_by is Some ==> after.coins[k].spent_by == before[k].spent_by) by {
        assert(same_coin(before[k], staged.coins[k]));
    }
    assert forall|k: int| before.len() <= k < after.coins.len() implies (
    #[trigger] after.coins[k]).created_height == height by {
        if k < staged.coins.len() {
            assert(staged.coins[k].created_height == height);
        }
    }
    lemma_sums_after_create(before, staged.coins, record, denom, staged.coins.len() as int);
}

/// The part of a block's reward that enters the supply of `denom`.
pub open spec fn reward_in(denom: Denom, reward: u128) -> int {
    if denom == Denom::Mel {
        reward as int
    } else {
        0
    }
}

proof fn lemma_sums_of_nothing(coins: Seq<CoinRecordView>, denom: Denom, n: int)
    requires
        0 <= n <= coins.len(),
    ensures
        burned_among(coins, coins, denom, n) == 0,
        created_among(coins, coins, denom, n) == 0,
    decreases n,
{
    if n > 0 {
        lemma_sums_of_nothing(coins, denom, n - 1);
    }
}

/// The staged tables at the start of a block that applies, with the
/// reward credited, are consistent, continue the coin table and balance to
/// the supply before the block plus the reward.
proof fn lemma_first_sound(index: IndexView, block: BlockView, reward: u128, denom: Denom)
    requires
        index.wf(),
        apply_block(index, block, reward) is Ok,
    ensures
        block.header.height >= 1,
        sound(
            Staged {
                coins: index.coins,
                totals: credit(
                    Seq::empty(),
                    index.supply,
                    block.header.height,
                    Denom::Mel,
                    reward,
                )->Ok_0,
            },
            index.supply,
            block.header.height,
            index.coins,
            denom,
            supply_after(index.supply, block.header.height - 1, denom) + reward_in(denom, reward),
        ),
{
    let height = block.header.height;
    let rows = index.supply;
    let before = index.coins;
    let none = Seq::<SupplySnapshot>::empty();
    let start = credit(none, rows, height, Denom::Mel, reward)->Ok_0;
    let first = Staged { coins: before, totals: start };
    lemma_credit_effect(none, rows, height, Denom::Mel, reward, denom);
    assert(!has_total(none, denom));
    lemma_sums_of_nothing(before, denom, before.len() as int);
    assert forall|k: int| 0 <= k < before.len() implies 1 <= (#[trigger] before[k]).created_height
        <= height by {
        assert(index.indexed(before[k].created_height as int));
    }
    assert forall|k: int| 0 <= k < before.len() implies same_coin(before[k], #[trigger] before[k])
        && (before[k].spent_by is Some ==> before[k].spent_by == before[k].spent_by) by {}
    assert forall|d: Denom| #[trigger]
        unspent_value(first.coins, d) <= running_total(first.totals, rows, height, d) by {
        lemma_credit_effect(none, rows, height, Denom::Mel, reward, d);
        assert(!has_total(none, d));
        assert(unspent_value(index.coins, d) <= supply_after(index.supply, index.max_height(), d));
    }
}

/// The staged tables at the end of a block that applies are consistent,
/// continue the coin table and balance to the supply before the block
/// plus the reward.
proof fn lemma_block_sound(index: IndexView, block: BlockView, reward: u128, denom: Denom)
    requires
        index.wf(),
        apply_block(index, block, reward) is Ok,
    ensures
        ({
            let height = block.header.height;
            let start = credit(Seq::empty(), index.supply, height, Denom::Mel, reward)->Ok_0;
            let staged = apply_transactions(
                Staged { coins: index.coins, totals: start },
                index.supply,
                height,
                block.transactions,
            )->Ok_0;
            &&& apply_block(index, block, reward)->Ok_0 == (IndexView {
                headers: index.headers.push(block.header.encoded),
                coins: staged.coins,
                supply: index.supply + staged.totals,
            })
            &&& sound(
                staged,
                index.supply,
                height,
                index.coins,
                denom,
                supply_after(index.supply, height - 1, denom) + reward_in(denom, reward),
            )
        }),
{
    let height = block.header.height;
    let rows = index.supply;
    let before = index.coins;
    let base = supply_after(rows, height - 1, denom) + reward_in(denom, reward);
    let start = credit(Seq::empty(), rows, height, Denom::Mel, reward)->Ok_0;
    let first = Staged { coins: before, totals: start };
    lemma_first_sound(index, block, reward, denom);
    let kept = |s: Staged| sound(s, rows, height, before, denom, base);
    assert forall|s: Staged, spender: TxHash, input: CoinID|
        kept(s) && (#[trigger] spend_one(s, rows, height, spender, input)) is Ok implies kept(
        spend_one(s, rows, height, spender, input)->Ok_0,
    ) by {
        lemma_spend_one_sound(s, rows, height, before, denom, base, spender, input);
    }
    assert forall|s: Staged, txhash: TxHash, i: int, output: CoinDataView|
        kept(s) && (#[trigger] create_one(s, rows, height, txhash, i, output)) is Ok implies kept(
        create_one(s, rows, height, txhash, i, output)->Ok_0,
    ) by {
        lemma_create_one_sound(s, rows, height, before, denom, base, txhash, i, output);
    }
    assert(kept_by_steps(kept, rows, height));
    lemma_apply_transactions_keeps(kept, first, rows, height, block.transactions);
}

proof fn lemma_supply_stable(
    rows: Seq<SupplySnapshot>,
    totals: Seq<SupplySnapshot>,
    height: BlockHeight,
    past: int,
    denom: Denom,
)
    requires
        ordered_snapshots(rows),
        forall|i: int| 0 <= i < totals.len() ==> (#[trigger] totals[i]).height == height,
        past < height,
    ensures
        supply_after(rows + totals, past, denom) == supply_after(rows, past, denom),
    decreases past,
{
    let all = rows + totals;
    if has_snapshot(all, past, denom) {
        let k = choose|k: int|
            0 <= k < all.len() && (#[trigger] all[k]).height == past && all[k].denom == denom;
        if k >= rows.len() {
            assert(all[k] == totals[k - rows.len()]);
        }
        assert(all[k] == rows[k]);
        assert(has_snapshot(rows, past, denom));
        let j = choose|j: int|
            0 <= j < rows.len() && (#[trigger] rows[j]).height == past && rows[j].denom == denom;
        if j < k {
            assert(!(rows[j].height == rows[k].height && rows[j].denom == rows[k].denom));
        } else if k < j {
            assert(!(rows[k].height == rows[j].height && rows[k].denom == rows[j].denom));
        }
    } else {
        if has_snapshot(rows, past, denom) {
            let j = choose|j: int|
                0 <= j < rows.len() && (#[trigger] rows[j]).height == past && rows[j].denom == denom;
            assert(all[j] == rows[j]);
        }
        if past > 0 {
            lemma_supply_stable(rows, totals, height, past - 1, denom);
        }
    }
}

pub proof fn lemma_supply_at_new_height(
    rows: Seq<SupplySnapshot>,
    totals: Seq<SupplySnapshot>,
    height: BlockHeight,
    denom: Denom,
)
    requires
        height >= 1,
        ordered_snapshots(rows),
        forall|i: int| 0 <= i < rows.len() ==> (#[trigger] rows[i]).height < height,
        forall|i: int| 0 <= i < totals.len() ==> (#[trigger] totals[i]).height == height,
        distinct_totals(totals),
    ensures
        supply_after(rows + totals, height as int, denom) == running_total(totals, rows, height, denom),
{
    let all = rows + totals;
    if has_total(totals, denom) {
        let j = total_position(totals, denom);
        assert(all[rows.len() + j] == totals[j]);
        assert(has_snapshot(all, height as int, denom));
        let k = choose|k: int|
            0 <= k < all.len() && (#[trigger] all[k]).height == height && all[k].denom == denom;
        if k < rows.len() {
            assert(all[k] == rows[k]);
        }
        assert(all[k] == totals[k - rows.len()]);
        lemma_total_position(totals, denom, k - rows.len());
    } else {
        if has_snapshot(all, height as int, denom) {
            let k = choose|k: int|
                0 <= k < all.len() && (#[trigger] all[k]).height == height && all[k].denom == denom;
            if k < rows.len() {
                assert(all[k] == rows[k]);
            } else {
                assert(all[k] == totals[k - rows.len()]);
            }
        }
        lemma_supply_stable(rows, totals, height, height - 1, denom);
    }
}

/// A block that applies leaves the tables consistent.
pub proof fn lemma_apply_block_consistent(index: IndexView, block: BlockView, reward: u128)
    requires
        index.wf(),
    ensures
        apply_block(index, block, reward) matches Ok(after) ==> after.wf() && after.max_height()
            == index.max_height() + 1 && after.max_height() == block.header.height,
{
    if apply_block(index, block, reward) is Ok {
        let after = apply_block(index, block, reward)->Ok_0;
        let height = block.header.height;
        lemma_block_sound(index, block, reward, Denom::Mel);
        let rows = index.supply;
        let start = credit(Seq::empty(), rows, height, Denom::Mel, reward)->Ok_0;
        let staged = apply_transactions(
            Staged { coins: index.coins, totals: start },
            rows,
            height,
            block.transactions,
        )->Ok_0;
        assert forall|i: int| 0 <= i < rows.len() implies (#[trigger] rows[i]).height < height by {
            assert(index.indexed(rows[i].height as int));
        }
        assert forall|d: Denom| #[trigger]
            unspent_value(after.coins, d) <= supply_after(after.supply, after.max_height(), d) by {
            lemma_supply_at_new_height(rows, staged.totals, height, d);
            assert(unspent_value(staged.coins, d) <= running_total(staged.totals, rows, height, d));
        }
        assert forall|i: int| 0 <= i < after.coins.len() implies after.indexed(
            (#[trigger] after.coins[i]).created_height as int,
        ) by {
            assert(1 <= staged.coins[i].created_height <= height);
        }
        assert forall|i: int| 0 <= i < after.supply.len() implies after.indexed(
            (#[trigger] after.supply[i]).height as int,
        ) by {
            if i < rows.len() {
                assert(after.supply[i] == rows[i]);
                assert(index.indexed(rows[i].height as int));
            } else {
                assert(after.supply[i] == staged.totals[i - rows.len()]);
            }
        }
        assert forall|i: int, j: int| 0 <= i < j < after.supply.len() implies (
        #[trigger] after.supply[i]).height <= (#[trigger] after.supply[j]).height && !(
        after.supply[i].height == after.supply[j].height && after.supply[i].denom
            == after.supply[j].denom) by {
            if j < rows.len() {
                assert(after.supply[i] == rows[i]);
                assert(after.supply[j] == rows[j]);
                assert(rows[i].height <= rows[j].height);
                assert(!(rows[i].height == rows[j].height && rows[i].denom == rows[j].denom));
            } else if i < rows.len() {
                assert(after.supply[i] == rows[i]);
                assert(after.supply[j] == staged.totals[j - rows.len()]);
                assert(index.indexed(rows[i].height as int));
            } else {
                assert(after.supply[i] == staged.totals[i - rows.len()]);
                assert(after.supply[j] == staged.totals[j - rows.len()]);
                assert(staged.totals[i - rows.len()].denom != staged.totals[j - rows.len()].denom);
            }
        }
    }
}

/// The lifecycle of coins. A block that applies leaves every record where
/// it stood, with the coin, denomination, value, data and height of
/// creation that it had; a record that had a spender has the same spender;
/// and the records that the block adds were created at its height. A
/// block at a height already indexed does not apply, so that feeding a
/// block again changes no record.
pub proof fn lemma_coin_lifecycle(index: IndexView, block: BlockView, reward: u128)
    requires
        index.wf(),
    ensures
        apply_block(index, block, reward) matches Ok(after) ==> grows_from(
            index.coins,
            after.coins,
            block.header.height,
        ),
        block.header.height <= index.max_height() ==> apply_block(index, block, reward) == Err::<
            IndexView,
            IndexError,
        >(IndexError::NotNextHeight),
{
    if apply_block(index, block, reward) is Ok {
        lemma_block_sound(index, block, reward, Denom::Mel);
    }
}

/// The supply moves by what was minted and burned. After a block that
/// applies, the supply of a denomination at the block's height is its
/// supply at the height below, plus the reward where the denomination is
/// the primary one, plus the value of the coins of that denomination that
/// the block created, which is what its outputs hold of it, less the
/// value of those that it spent. The supply at every height below is what
/// it was.
pub proof fn lemma_supply_step(index: IndexView, block: BlockView, reward: u128, denom: Denom)
    requires
        index.wf(),
        apply_block(index, block, reward) is Ok,
    ensures
        ({
            let after = apply_block(index, block, reward)->Ok_0;
            let height = block.header.height as int;
            &&& after.supply_at(height, denom) == index.supply_at(height - 1, denom) + reward_in(
                denom,
                reward,
            ) + created(index.coins, after.coins, denom) - burned(index.coins, after.coins, denom)
            &&& created(index.coins, after.coins, denom) == minted_by(block.transactions, denom)
            &&& forall|past: int|
                past < height ==> #[trigger] after.supply_at(past, denom) == index.supply_at(
                    past,
                    denom,
                )
        }),
{
    let after = apply_block(index, block, reward)->Ok_0;
    let height = block.header.height;
    let rows = index.supply;
    lemma_block_sound(index, block, reward, denom);
    lemma_created_is_minted(index, block, reward, denom);
    let start = credit(Seq::empty(), rows, height, Denom::Mel, reward)->Ok_0;
    let staged = apply_transactions(
        Staged { coins: index.coins, totals: start },
        rows,
        height,
        block.transactions,
    )->Ok_0;
    assert forall|i: int| 0 <= i < rows.len() implies (#[trigger] rows[i]).height < height by {
        assert(index.indexed(rows[i].height as int));
    }
    lemma_supply_at_new_height(rows, staged.totals, height, denom);
    assert forall|past: int| past < height implies #[trigger] after.supply_at(past, denom)
        == index.supply_at(past, denom) by {
        lemma_supply_stable(rows, staged.totals, height, past, denom);
    }
}

/// A run of deliveries leaves the tables consistent, and no height that
/// was indexed is lost.
pub proof fn lemma_ingest_consistent(index: IndexView, feed: Seq<DeliveryView>)
    requires
        index.wf(),
    ensures
        ingest(index, feed).wf(),
        index.max_height() <= ingest(index, feed).max_height() <= index.max_height() + feed.len(),
    decreases feed.len(),
{
    if feed.len() > 0 {
        lemma_apply_block_consistent(index, feed[0].block, feed[0].reward);
        lemma_ingest_consistent(advance(index, feed[0]), feed.skip(1));
    }
}

/// Stopping and starting again changes nothing. Let a run of deliveries be
/// cut at any place: the index that took the first part, and then takes
/// the rest, ends as the index that took the whole run without a stop.
pub proof fn lemma_resume(index: IndexView, feed: Seq<DeliveryView>, cut: int)
    requires
        0 <= cut <= feed.len(),
    ensures
        ingest(ingest(index, feed.take(cut)), feed.skip(cut)) == ingest(index, feed),
    decreases cut,
{
    if cut == 0 {
        assert(feed.skip(0) =~= feed);
    } else {
        let first = feed.take(cut);
        assert(first[0] == feed[0]);
        assert(first.skip(1) =~= feed.skip(1).take(cut - 1));
        assert(feed.skip(cut) =~= feed.skip(1).skip(cut - 1));
        lemma_resume(advance(index, feed[0]), feed.skip(1), cut - 1);
    }
}

/// The coin table `after` keeps the table `before`: every record of
/// `before` stands where it stood and tells the same of the coin's
/// creation, and a spender once set is still the same spender.
pub open spec fn keeps_coins(before: Seq<CoinRecordView>, after: Seq<CoinRecordView>) -> bool {
    &&& before.len() <= after.len()
    &&& forall|i: int|
        0 <= i < before.len() ==> same_coin(before[i], #[trigger] after[i]) && (before[i].spent_by is Some
            ==> after[i].spent_by == before[i].spent_by)
}

/// The lifecycle of coins over a run of deliveries: whatever is fed, and
/// however often, a record is created once and keeps what it was created
/// with, and a spender once set never changes.
pub proof fn lemma_ingest_lifecycle(index: IndexView, feed: Seq<DeliveryView>)
    requires
        index.wf(),
    ensures
        keeps_coins(index.coins, ingest(index, feed).coins),
    decreases feed.len(),
{
    if feed.len() > 0 {
        let next = advance(index, feed[0]);
        let last = ingest(next, feed.skip(1));
        lemma_apply_block_consistent(index, feed[0].block, feed[0].reward);
        lemma_coin_lifecycle(index, feed[0].block, feed[0].reward);
        lemma_ingest_lifecycle(next, feed.skip(1));
        assert forall|i: int| 0 <= i < index.coins.len() implies same_coin(
            index.coins[i],
            #[trigger] last.coins[i],
        ) && (index.coins[i].spent_by is Some ==> last.coins[i].spent_by
            == index.coins[i].spent_by) by {
            assert(same_coin(index.coins[i], next.coins[i]));
            assert(same_coin(next.coins[i], last.coins[i]));
        }
    }
}

/// What one delivery adds to the supply of `denom`: the reward, where the
/// denomination is the primary one, and the value of the coins created,
/// less the value of the coins spent; nothing where the block does not
/// apply.
pub open spec fn net_change(index: IndexView, delivery: DeliveryView, denom: Denom) -> int {
    match apply_block(index, delivery.block, delivery.reward) {
        Ok(after) => reward_in(denom, delivery.reward) + created(index.coins, after.coins, denom)
            - burned(index.coins, after.coins, denom),
        Err(_) => 0,
    }
}

/// What a run of deliveries adds to the supply of `denom`, delivery by
/// delivery.
pub open spec fn net_changes(index: IndexView, feed: Seq<DeliveryView>, denom: Denom) -> int
    decreases feed.len(),
{
    if feed.len() == 0 {
        0
    } else {
        net_change(index, feed[0], denom) + net_changes(advance(index, feed[0]), feed.skip(1), denom)
    }
}

/// Snapshots are never rewritten: after a run of deliveries the supply at
/// every height that was indexed before, and below, is what it was.
pub proof fn lemma_supply_history(index: IndexView, feed: Seq<DeliveryView>, past: int, denom: Denom)
    requires
        index.wf(),
        past <= index.max_height(),
    ensures
        ingest(index, feed).supply_at(past, denom) == index.supply_at(past, denom),
    decreases feed.len(),
{
    if feed.len() > 0 {
        let next = advance(index, feed[0]);
        lemma_apply_block_consistent(index, feed[0].block, feed[0].reward);
        if apply_block(index, feed[0].block, feed[0].reward) is Ok {
            lemma_supply_step(index, feed[0].block, feed[0].reward, denom);
            assert(next.supply_at(past, denom) == index.supply_at(past, denom));
        }
        lemma_supply_history(next, feed.skip(1), past, denom);
    }
}

/// The supply between two indexed heights. Let `h1` be the highest height
/// of an index and `h2` its highest height after a run of deliveries.
/// Then the supply of a denomination at `h2` less its supply at `h1` is the
/// net of what the blocks above `h1`, up to `h2`, minted and burned.
pub proof fn lemma_supply_between(index: IndexView, feed: Seq<DeliveryView>, denom: Denom)
    requires
        index.wf(),
    ensures
        ({
            let after = ingest(index, feed);
            let h1 = index.max_height();
            let h2 = after.max_height();
            &&& after.supply_at(h1, denom) == index.supply_at(h1, denom)
            &&& after.supply_at(h2, denom) - after.supply_at(h1, denom) == net_changes(
                index,
                feed,
                denom,
            )
        }),
    decreases feed.len(),
{
    lemma_supply_history(index, feed, index.max_height(), denom);
    if feed.len() > 0 {
        let next = advance(index, feed[0]);
        lemma_apply_block_consistent(index, feed[0].block, feed[0].reward);
        if apply_block(index, feed[0].block, feed[0].reward) is Ok {
            lemma_supply_step(index, feed[0].block, feed[0].reward, denom);
        }
        lemma_supply_between(next, feed.skip(1), denom);
    }
}

/// The table holds a record of the coin `id`, created at `height` with
/// what `output` holds.
pub open spec fn records_output(
    coins: Seq<CoinRecordView>,
    id: CoinID,
    output: CoinDataView,
    height: BlockHeight,
) -> bool {
    exists|i: int|
        0 <= i < coins.len() && {
            let record = #[trigger] coins[i];
            &&& record.coin_id == id
            &&& record.denom == output.denom
            &&& record.value == output.value
            &&& record.additional_data == output.additional_data
            &&& record.created_height == height
        }
}

proof fn lemma_record_kept(
    rows: Seq<SupplySnapshot>,
    height: BlockHeight,
    id: CoinID,
    output: CoinDataView,
)
    ensures
        kept_by_steps(|s: Staged| records_output(s.coins, id, output, height), rows, height),
{
    let kept = |s: Staged| records_output(s.coins, id, output, height);
    assert forall|s: Staged, spender: TxHash, input: CoinID|
        kept(s) && (#[trigger] spend_one(s, rows, height, spender, input)) is Ok implies kept(
        spend_one(s, rows, height, spender, input)->Ok_0,
    ) by {
        let after = spend_one(s, rows, height, spender, input)->Ok_0;
        let i = choose|i: int|
            0 <= i < s.coins.len() && {
                let record = #[trigger] s.coins[i];
                &&& record.coin_id == id
                &&& record.denom == output.denom
                &&& record.value == output.value
                &&& record.additional_data == output.additional_data
                &&& record.created_height == height
            };
        assert(after.coins[i].coin_id == id);
    }
    assert forall|s: Staged, txhash: TxHash, at: int, other: CoinDataView|
        kept(s) && (#[trigger] create_one(s, rows, height, txhash, at, other)) is Ok implies kept(
        create_one(s, rows, height, txhash, at, other)->Ok_0,
    ) by {
        let after = create_one(s, rows, height, txhash, at, other)->Ok_0;
        let i = choose|i: int|
            0 <= i < s.coins.len() && {
                let record = #[trigger] s.coins[i];
                &&& record.coin_id == id
                &&& record.denom == output.denom
                &&& record.value == output.value
                &&& record.additional_data == output.additional_data
                &&& record.created_height == height
            };
        assert(after.coins[i] == s.coins[i]);
    }
}

proof fn lemma_create_all_records(
    staged: Staged,
    rows: Seq<SupplySnapshot>,
    height: BlockHeight,
    txhash: TxHash,
    index: int,
    outputs: Seq<CoinDataView>,
    o: int,
)
    requires
        0 <= index,
        0 <= o < outputs.len(),
        create_all(staged, rows, height, txhash, index, outputs) is Ok,
    ensures
        index + o <= u8::MAX,
        records_output(
            create_all(staged, rows, height, txhash, index, outputs)->Ok_0.coins,
            CoinID { txhash, index: (index + o) as u8 },
            outputs[o],
            height,
        ),
    decreases outputs.len(),
{
    let next = create_one(staged, rows, height, txhash, index, outputs[0])->Ok_0;
    if o == 0 {
        let id = CoinID { txhash, index: index as u8 };
        assert(next.coins[staged.coins.len() as int].coin_id == id);
        assert(records_output(next.coins, id, outputs[0], height));
        lemma_record_kept(rows, height, id, outputs[0]);
        lemma_create_all_keeps(
            |s: Staged| records_output(s.coins, id, outputs[0], height),
            next,
            rows,
            height,
            txhash,
            index + 1,
            outputs.skip(1),
        );
    } else {
        lemma_create_all_records(next, rows, height, txhash, index + 1, outputs.skip(1), o - 1);
    }
}

proof fn lemma_transactions_record(
    staged: Staged,
    rows: Seq<SupplySnapshot>,
    height: BlockHeight,
    txs: Seq<TransactionView>,
    t: int,
    o: int,
)
    requires
        0 <= t < txs.len(),
        0 <= o < txs[t].outputs.len(),
        apply_transactions(staged, rows, height, txs) is Ok,
    ensures
        o <= u8::MAX,
        records_output(
            apply_transactions(staged, rows, height, txs)->Ok_0.coins,
            CoinID { txhash: txs[t].hash, index: o as u8 },
            txs[t].outputs[o],
            height,
        ),
    decreases txs.len(),
{
    let next = apply_transaction(staged, rows, height, txs[0])->Ok_0;
    if t == 0 {
        let tx = txs[0];
        let spent = spend_all(staged, rows, height, tx.hash, tx.inputs)->Ok_0;
        lemma_create_all_records(spent, rows, height, tx.hash, 0, tx.outputs, o);
        let id = CoinID { txhash: tx.hash, index: o as u8 };
        lemma_record_kept(rows, height, id, tx.outputs[o]);
        lemma_apply_transactions_keeps(
            |s: Staged| records_output(s.coins, id, tx.outputs[o], height),
            next,
            rows,
            height,
            txs.skip(1),
        );
    } else {
        lemma_transactions_record(next, rows, height, txs.skip(1), t - 1, o);
    }
}

/// Every coin is recorded when the transaction that produces it is
/// ingested. After a block that applies, the index holds, for every output
/// of every transaction of the block, one record of the coin that the
/// output creates, with what the output holds and the height of the block.
pub proof fn lemma_outputs_recorded(
    index: IndexView,
    block: BlockView,
    reward: u128,
    t: int,
    o: int,
)
    requires
        index.wf(),
        apply_block(index, block, reward) is Ok,
        0 <= t < block.transactions.len(),
        0 <= o < block.transactions[t].outputs.len(),
    ensures
        o <= u8::MAX,
        ({
            let after = apply_block(index, block, reward)->Ok_0;
            let tx = block.transactions[t];
            let id = CoinID { txhash: tx.hash, index: o as u8 };
            let record = after.coins[coin_position(after.coins, id)];
            &&& has_coin(after.coins, id)
            &&& record.coin_id == id
            &&& record.denom == tx.outputs[o].denom
            &&& record.value == tx.outputs[o].value
            &&& record.additional_data == tx.outputs[o].additional_data
            &&& record.created_height == block.header.height
        }),
{
    let height = block.header.height;
    let after = apply_block(index, block, reward)->Ok_0;
    let tx = block.transactions[t];
    let id = CoinID { txhash: tx.hash, index: o as u8 };
    let start = credit(Seq::empty(), index.supply, height, Denom::Mel, reward)->Ok_0;
    lemma_transactions_record(
        Staged { coins: index.coins, totals: start },
        index.supply,
        height,
        block.transactions,
        t,
        o,
    );
    lemma_apply_block_consistent(index, block, reward);
    let i = choose|i: int|
        0 <= i < after.coins.len() && {
            let record = #[trigger] after.coins[i];
            &&& record.coin_id == id
            &&& record.denom == tx.outputs[o].denom
            &&& record.value == tx.outputs[o].value
            &&& record.additional_data == tx.outputs[o].additional_data
            &&& record.created_height == height
        };
    lemma_coin_position(after.coins, id, i);
}

/// The table holds the coin `id` as spent by `spender`.
pub open spec fn marks_spent(coins: Seq<CoinRecordView>, id: CoinID, spender: TxHash) -> bool {
    exists|i: int|
        0 <= i < coins.len() && (#[trigger] coins[i]).coin_id == id && coins[i].spent_by == Some(
            spender,
        )
}

/// Every step keeps the staged tables sound, keeps the coins that they
/// hold, and keeps the spenders that they hold.
proof fn lemma_sound_kept(
    rows: Seq<SupplySnapshot>,
    height: BlockHeight,
    before: Seq<CoinRecordView>,
    base: int,
    id: CoinID,
    spender: TxHash,
)
    requires
        height >= 1,
    ensures
        kept_by_steps(
            |s: Staged| sound(s, rows, height, before, Denom::Mel, base) && has_coin(s.coins, id),
            rows,
            height,
        ),
        kept_by_steps(
            |s: Staged|
                sound(s, rows, height, before, Denom::Mel, base) && marks_spent(s.coins, id, spender),
            rows,
            height,
        ),
{
    let held = |s: Staged| sound(s, rows, height, before, Denom::Mel, base) && has_coin(s.coins, id);
    let marked = |s: Staged|
        sound(s, rows, height, before, Denom::Mel, base) && marks_spent(s.coins, id, spender);
    assert forall|s: Staged, by: TxHash, input: CoinID|
        held(s) && (#[trigger] spend_one(s, rows, height, by, input)) is Ok implies held(
        spend_one(s, rows, height, by, input)->Ok_0,
    ) by {
        lemma_spend_one_sound(s, rows, height, before, Denom::Mel, base, by, input);
        let after = spend_one(s, rows, height, by, input)->Ok_0;
        let i = coin_position(s.coins, id);
        assert(after.coins[i].coin_id == id);
    }
    assert forall|s: Staged, txhash: TxHash, at: int, output: CoinDataView|
        held(s) && (#[trigger] create_one(s, rows, height, txhash, at, output)) is Ok implies held(
        create_one(s, rows, height, txhash, at, output)->Ok_0,
    ) by {
        lemma_create_one_sound(s, rows, height, before, Denom::Mel, base, txhash, at, output);
        let after = create_one(s, rows, height, txhash, at, output)->Ok_0;
        let i = coin_position(s.coins, id);
        assert(after.coins[i] == s.coins[i]);
    }
    assert forall|s: Staged, by: TxHash, input: CoinID|
        marked(s) && (#[trigger] spend_one(s, rows, height, by, input)) is Ok implies marked(
        spend_one(s, rows, height, by, input)->Ok_0,
    ) by {
        lemma_spend_one_sound(s, rows, height, before, Denom::Mel, base, by, input);
        let after = spend_one(s, rows, height, by, input)->Ok_0;
        let j = choose|j: int|
            0 <= j < s.coins.len() && (#[trigger] s.coins[j]).coin_id == id && s.coins[j].spent_by
                == Some(spender);
        if has_coin(s.coins, input) {
            let i = coin_position(s.coins, input);
            if i == j {
            } else {
                assert(after.coins[j] == s.coins[j]);
            }
        }
        assert(after.coins[j].coin_id == id && after.coins[j].spent_by == Some(spender));
    }
    assert forall|s: Staged, txhash: TxHash, at: int, output: CoinDataView|
        marked(s) && (#[trigger] create_one(s, rows, height, txhash, at, output)) is Ok implies marked(
        create_one(s, rows, height, txhash, at, output)->Ok_0,
    ) by {
        lemma_create_one_sound(s, rows, height, before, Denom::Mel, base, txhash, at, output);
        let after = create_one(s, rows, height, txhash, at, output)->Ok_0;
        let j = choose|j: int|
            0 <= j < s.coins.len() && (#[trigger] s.coins[j]).coin_id == id && s.coins[j].spent_by
                == Some(spender);
        assert(after.coins[j] == s.coins[j]);
    }
}

proof fn lemma_spend_all_marks(
    staged: Staged,
    rows: Seq<SupplySnapshot>,
    height: BlockHeight,
    before: Seq<CoinRecordView>,
    base: int,
    spender: TxHash,
    inputs: Seq<CoinID>,
    k: int,
)
    requires
        height >= 1,
        0 <= k < inputs.len(),
        sound(staged, rows, height, before, Denom::Mel, base),
        has_coin(staged.coins, inputs[k]),
        spend_all(staged, rows, height, spender, inputs) is Ok,
    ensures
        sound(spend_all(staged, rows, height, spender, inputs)->Ok_0, rows, height, before, Denom::Mel, base),
        marks_spent(spend_all(staged, rows, height, spender, inputs)->Ok_0.coins, inputs[k], spender),
    decreases inputs.len(),
{
    let id = inputs[k];
    let next = spend_one(staged, rows, height, spender, inputs[0])->Ok_0;
    lemma_sound_kept(rows, height, before, base, id, spender);
    lemma_spend_one_sound(staged, rows, height, before, Denom::Mel, base, spender, inputs[0]);
    if k == 0 {
        let i = coin_position(staged.coins, id);
        assert(next.coins[i].coin_id == id && next.coins[i].spent_by == Some(spender));
        lemma_spend_all_keeps(
            |s: Staged|
                sound(s, rows, height, before, Denom::Mel, base) && marks_spent(s.coins, id, spender),
            next,
            rows,
            height,
            spender,
            inputs.skip(1),
        );
    } else {
        let held = |s: Staged| sound(s, rows, height, before, Denom::Mel, base) && has_coin(s.coins, id);
        assert(held(staged));
        assert(held(next));
        lemma_spend_all_marks(next, rows, height, before, base, spender, inputs.skip(1), k - 1);
    }
}

proof fn lemma_transactions_mark(
    staged: Staged,
    rows: Seq<SupplySnapshot>,
    height: BlockHeight,
    before: Seq<CoinRecordView>,
    base: int,
    txs: Seq<TransactionView>,
    t: int,
    k: int,
)
    requires
        height >= 1,
        0 <= t < txs.len(),
        0 <= k < txs[t].inputs.len(),
        sound(staged, rows, height, before, Denom::Mel, base),
        has_coin(staged.coins, txs[t].inputs[k]),
        apply_transactions(staged, rows, height, txs) is Ok,
    ensures
        marks_spent(
            apply_transactions(staged, rows, height, txs)->Ok_0.coins,
            txs[t].inputs[k],
            txs[t].hash,
        ),
    decreases txs.len(),
{
    let id = txs[t].inputs[k];
    let spender = txs[t].hash;
    let first = txs[0];
    let next = apply_transaction(staged, rows, height, first)->Ok_0;
    let spent = spend_all(staged, rows, height, first.hash, first.inputs)->Ok_0;
    lemma_sound_kept(rows, height, before, base, id, spender);
    let held = |s: Staged| sound(s, rows, height, before, Denom::Mel, base) && has_coin(s.coins, id);
    let marked = |s: Staged|
        sound(s, rows, height, before, Denom::Mel, base) && marks_spent(s.coins, id, spender);
    if t == 0 {
        lemma_spend_all_marks(staged, rows, height, before, base, spender, first.inputs, k);
        lemma_create_all_keeps(marked, spent, rows, height, first.hash, 0, first.outputs);
        lemma_apply_transactions_keeps(marked, next, rows, height, txs.skip(1));
    } else {
        assert(held(staged));
        lemma_spend_all_keeps(held, staged, rows, height, first.hash, first.inputs);
        lemma_create_all_keeps(held, spent, rows, height, first.hash, 0, first.outputs);
        lemma_transactions_mark(next, rows, height, before, base, txs.skip(1), t - 1, k);
    }
}

/// Every coin is marked when the transaction that consumes it is
/// ingested. After a block that applies, every coin that the index held
/// before and that a transaction of the block has among its inputs is held
/// as spent by that transaction.
pub proof fn lemma_inputs_marked(index: IndexView, block: BlockView, reward: u128, t: int, k: int)
    requires
        index.wf(),
        apply_block(index, block, reward) is Ok,
        0 <= t < block.transactions.len(),
        0 <= k < block.transactions[t].inputs.len(),
        has_coin(index.coins, block.transactions[t].inputs[k]),
    ensures
        ({
            let after = apply_block(index, block, reward)->Ok_0;
            let tx = block.transactions[t];
            let record = after.coins[coin_position(after.coins, tx.inputs[k])];
            &&& has_coin(after.coins, tx.inputs[k])
            &&& record.coin_id == tx.inputs[k]
            &&& record.spent_by == Some(tx.hash)
        }),
{
    let height = block.header.height;
    let after = apply_block(index, block, reward)->Ok_0;
    let tx = block.transactions[t];
    let id = tx.inputs[k];
    let base = supply_after(index.supply, height - 1, Denom::Mel) + reward_in(Denom::Mel, reward);
    let start = credit(Seq::empty(), index.supply, height, Denom::Mel, reward)->Ok_0;
    let first = Staged { coins: index.coins, totals: start };
    lemma_first_sound(index, block, reward, Denom::Mel);
    lemma_transactions_mark(first, index.supply, height, index.coins, base, block.transactions, t, k);
    lemma_apply_block_consistent(index, block, reward);
    let i = choose|i: int|
        0 <= i < after.coins.len() && (#[trigger] after.coins[i]).coin_id == id
            && after.coins[i].spent_by == Some(tx.hash);
    lemma_coin_position(after.coins, id, i);
}

/// What the outputs hold of `denom`.
pub open spec fn outputs_value(outputs: Seq<CoinDataView>, denom: Denom) -> int
    decreases outputs.len(),
{
    if outputs.len() == 0 {
        0
    } else {
        (if outputs[0].denom == denom {
            outputs[0].value as int
        } else {
            0
        }) + outputs_value(outputs.skip(1), denom)
    }
}

/// What the outputs of the transactions hold of `denom`.
pub open spec fn minted_by(txs: Seq<TransactionView>, denom: Denom) -> int
    decreases txs.len(),
{
    if txs.len() == 0 {
        0
    } else {
        outputs_value(txs[0].outputs, denom) + minted_by(txs.skip(1), denom)
    }
}

proof fn lemma_spend_all_created(
    staged: Staged,
    rows: Seq<SupplySnapshot>,
    height: BlockHeight,
    before: Seq<CoinRecordView>,
    denom: Denom,
    base: int,
    spender: TxHash,
    inputs: Seq<CoinID>,
)
    requires
        sound(staged, rows, height, before, denom, base),
        spend_all(staged, rows, height, spender, inputs) is Ok,
    ensures
        sound(spend_all(staged, rows, height, spender, inputs)->Ok_0, rows, height, before, denom, base),
        created(before, spend_all(staged, rows, height, spender, inputs)->Ok_0.coins, denom) == created(
            before,
            staged.coins,
            denom,
        ),
    decreases inputs.len(),
{
    if inputs.len() > 0 {
        let next = spend_one(staged, rows, height, spender, inputs[0])->Ok_0;
        lemma_spend_one_sound(staged, rows, height, before, denom, base, spender, inputs[0]);
        if has_coin(staged.coins, inputs[0]) {
            let i = coin_position(staged.coins, inputs[0]);
            if i < before.len() {
                assert(same_coin(before[i], staged.coins[i]));
            }
            lemma_sums_after_spend(before, staged.coins, i, spender, denom, staged.coins.len() as int);
        }
        lemma_spend_all_created(next, rows, height, before, denom, base, spender, inputs.skip(1));
    }
}

proof fn lemma_create_all_created(
    staged: Staged,
    rows: Seq<SupplySnapshot>,
    height: BlockHeight,
    before: Seq<CoinRecordView>,
    denom: Denom,
    base: int,
    txhash: TxHash,
    index: int,
    outputs: Seq<CoinDataView>,
)
    requires
        height >= 1,
        sound(staged, rows, height, before, denom, base),
        create_all(staged, rows, height, txhash, index, outputs) is Ok,
    ensures
        sound(
            create_all(staged, rows, height, txhash, index, outputs)->Ok_0,
            rows,
            height,
            before,
            denom,
            base,
        ),
        created(before, create_all(staged, rows, height, txhash, index, outputs)->Ok_0.coins, denom)
            == created(before, staged.coins, denom) + outputs_value(outputs, denom),
    decreases outputs.len(),
{
    if outputs.len() > 0 {
        let next = create_one(staged, rows, height, txhash, index, outputs[0])->Ok_0;
        let record = next.coins[staged.coins.len() as int];
        lemma_create_one_sound(staged, rows, height, before, denom, base, txhash, index, outputs[0]);
        lemma_sums_after_create(before, staged.coins, record, denom, staged.coins.len() as int);
        lemma_create_all_created(
            next,
            rows,
            height,
            before,
            denom,
            base,
            txhash,
            index + 1,
            outputs.skip(1),
        );
    }
}

proof fn lemma_transactions_created(
    staged: Staged,
    rows: Seq<SupplySnapshot>,
    height: BlockHeight,
    before: Seq<CoinRecordView>,
    denom: Denom,
    base: int,
    txs: Seq<TransactionView>,
)
    requires
        height >= 1,
        sound(staged, rows, height, before, denom, base),
        apply_transactions(staged, rows, height, txs) is Ok,
    ensures
        created(before, apply_transactions(staged, rows, height, txs)->Ok_0.coins, denom) == created(
            before,
            staged.coins,
            denom,
        ) + minted_by(txs, denom),
    decreases txs.len(),
{
    if txs.len() > 0 {
        let tx = txs[0];
        let spent = spend_all(staged, rows, height, tx.hash, tx.inputs)->Ok_0;
        let next = apply_transaction(staged, rows, height, tx)->Ok_0;
        lemma_spend_all_created(staged, rows, height, before, denom, base, tx.hash, tx.inputs);
        lemma_create_all_created(spent, rows, height, before, denom, base, tx.hash, 0, tx.outputs);
        lemma_transactions_created(next, rows, height, before, denom, base, txs.skip(1));
    }
}

/// What a block creates is what its outputs hold. After a block that
/// applies, the value of the coins of a denomination that the block
/// created is the value that the outputs of its transactions hold of that
/// denomination.
pub proof fn lemma_created_is_minted(index: IndexView, block: BlockView, reward: u128, denom: Denom)
    requires
        index.wf(),
        apply_block(index, block, reward) is Ok,
    ensures
        created(index.coins, apply_block(index, block, reward)->Ok_0.coins, denom) == minted_by(
            block.transactions,
            denom,
        ),
{
    let height = block.header.height;
    let base = supply_after(index.supply, height - 1, denom) + reward_in(denom, reward);
    let start = credit(Seq::empty(), index.supply, height, Denom::Mel, reward)->Ok_0;
    let first = Staged { coins: index.coins, totals: start };
    lemma_first_sound(index, block, reward, denom);
    lemma_sums_of_nothing(index.coins, denom, index.coins.len() as int);
    lemma_transactions_created(first, index.supply, height, index.coins, denom, base, block.transactions);
}

/// The input at place `k` of the transaction at place `t` is the coin
/// `id`, and `spender` is the hash of that transaction.
pub open spec fn is_source(txs: Seq<TransactionView>, t: int, k: int, id: CoinID, spender: TxHash) -> bool {
    &&& 0 <= t < txs.len()
    &&& 0 <= k < txs[t].inputs.len()
    &&& txs[t].inputs[k] == id
    &&& txs[t].hash == spender
}

proof fn lemma_held_inputs_sources(
    coins: Seq<CoinRecordView>,
    spender: TxHash,
    inputs: Seq<CoinID>,
    j: int,
)
    requires
        0 <= j < held_inputs(coins, spender, inputs).len(),
    ensures
        exists|k: int|
            0 <= k < inputs.len() && has_coin(coins, inputs[k]) && held_inputs(
                coins,
                spender,
                inputs,
            )[j] == (#[trigger] inputs[k], spender),
    decreases inputs.len(),
{
    let rest = held_inputs(coins, spender, inputs.drop_last());
    if has_coin(coins, inputs.last()) && j == rest.len() {
        assert(held_inputs(coins, spender, inputs)[j] == (inputs[inputs.len() - 1], spender));
    } else {
        lemma_held_inputs_sources(coins, spender, inputs.drop_last(), j);
        let k = choose|k: int|
            0 <= k < inputs.drop_last().len() && has_coin(coins, inputs.drop_last()[k]) && rest[j] == (
                #[trigger] inputs.drop_last()[k],
                spender,
            );
        assert(inputs.drop_last()[k] == inputs[k]);
    }
}

proof fn lemma_held_inputs_holds(
    coins: Seq<CoinRecordView>,
    spender: TxHash,
    inputs: Seq<CoinID>,
    k: int,
)
    requires
        0 <= k < inputs.len(),
        has_coin(coins, inputs[k]),
    ensures
        held_inputs(coins, spender, inputs).contains((inputs[k], spender)),
    decreases inputs.len(),
{
    let rest = held_inputs(coins, spender, inputs.drop_last());
    let all = held_inputs(coins, spender, inputs);
    if k == inputs.len() - 1 {
        assert(all[rest.len() as int] == (inputs[k], spender));
    } else {
        lemma_held_inputs_holds(coins, spender, inputs.drop_last(), k);
        assert(inputs.drop_last()[k] == inputs[k]);
        let j = choose|j: int| 0 <= j < rest.len() && rest[j] == (inputs[k], spender);
        assert(all[j] == (inputs[k], spender));
    }
}

proof fn lemma_spends_sources(coins: Seq<CoinRecordView>, txs: Seq<TransactionView>, j: int)
    requires
        0 <= j < spends_in(coins, txs).len(),
    ensures
        has_coin(coins, spends_in(coins, txs)[j].0),
        exists|t: int, k: int| #[trigger]
            is_source(txs, t, k, spends_in(coins, txs)[j].0, spends_in(coins, txs)[j].1),
    decreases txs.len(),
{
    let rest = spends_in(coins, txs.drop_last());
    let spend = spends_in(coins, txs)[j];
    if j < rest.len() {
        lemma_spends_sources(coins, txs.drop_last(), j);
        let (t, k) = choose|t: int, k: int| #[trigger]
            is_source(txs.drop_last(), t, k, rest[j].0, rest[j].1);
        assert(txs.drop_last()[t] == txs[t]);
        assert(is_source(txs, t, k, spend.0, spend.1));
    } else {
        let last = txs.last();
        lemma_held_inputs_sources(coins, last.hash, last.inputs, j - rest.len());
        let k = choose|k: int|
            0 <= k < last.inputs.len() && has_coin(coins, last.inputs[k]) && held_inputs(
                coins,
                last.hash,
                last.inputs,
            )[j - rest.len()] == (#[trigger] last.inputs[k], last.hash);
        assert(is_source(txs, txs.len() - 1, k, spend.0, spend.1));
    }
}

proof fn lemma_spends_holds(coins: Seq<CoinRecordView>, txs: Seq<TransactionView>, t: int, k: int)
    requires
        0 <= t < txs.len(),
        0 <= k < txs[t].inputs.len(),
        has_coin(coins, txs[t].inputs[k]),
    ensures
        spends_in(coins, txs).contains((txs[t].inputs[k], txs[t].hash)),
    decreases txs.len(),
{
    let rest = spends_in(coins, txs.drop_last());
    let all = spends_in(coins, txs);
    let spend = (txs[t].inputs[k], txs[t].hash);
    if t == txs.len() - 1 {
        let last = txs.last();
        lemma_held_inputs_holds(coins, last.hash, last.inputs, k);
        let held = held_inputs(coins, last.hash, last.inputs);
        let j = choose|j: int| 0 <= j < held.len() && held[j] == spend;
        assert(all[rest.len() + j] == spend);
    } else {
        assert(txs.drop_last()[t] == txs[t]);
        lemma_spends_holds(coins, txs.drop_last(), t, k);
        let j = choose|j: int| 0 <= j < rest.len() && rest[j] == spend;
        assert(all[j] == spend);
    }
}

/// The spends of a block are recorded. After a block that applies, every
/// coin that the block spends of those that the index held is still
/// held, and is held as spent by the transaction named with it.
pub proof fn lemma_spends_recorded(index: IndexView, block: BlockView, reward: u128, j: int)
    requires
        index.wf(),
        apply_block(index, block, reward) is Ok,
        0 <= j < spends_in(index.coins, block.transactions).len(),
    ensures
        ({
            let after = apply_block(index, block, reward)->Ok_0;
            let spend = spends_in(index.coins, block.transactions)[j];
            &&& has_coin(index.coins, spend.0)
            &&& has_coin(after.coins, spend.0)
            &&& after.coins[coin_position(after.coins, spend.0)].spent_by == Some(spend.1)
        }),
{
    let spend = spends_in(index.coins, block.transactions)[j];
    lemma_spends_sources(index.coins, block.transactions, j);
    let (t, k) = choose|t: int, k: int| #[trigger]
        is_source(block.transactions, t, k, spend.0, spend.1);
    lemma_inputs_marked(index, block, reward, t, k);
}

/// Every record of `before` that was unspent and is spent in `coins` is
/// spent by a transaction of `txs` that has the coin among its inputs,
/// and stands where it stood.
spec fn explained(
    before: Seq<CoinRecordView>,
    coins: Seq<CoinRecordView>,
    txs: Seq<TransactionView>,
) -> bool {
    &&& before.len() <= coins.len()
    &&& forall|i: int| 0 <= i < before.len() ==> (#[trigger] coins[i]).coin_id == before[i].coin_id
    &&& forall|i: int|
        0 <= i < before.len() && before[i].spent_by is None && (#[trigger] coins[i]).spent_by is Some
            ==> exists|t: int, k: int| #[trigger]
            is_source(txs, t, k, coins[i].coin_id, coins[i].spent_by->0)
}

proof fn lemma_spend_all_explains(
    staged: Staged,
    rows: Seq<SupplySnapshot>,
    height: BlockHeight,
    before: Seq<CoinRecordView>,
    txs: Seq<TransactionView>,
    t: int,
    m: int,
)
    requires
        0 <= t < txs.len(),
        0 <= m <= txs[t].inputs.len(),
        explained(before, staged.coins, txs),
    ensures
        spend_all(staged, rows, height, txs[t].hash, txs[t].inputs.skip(m)) matches Ok(after)
            ==> explained(before, after.coins, txs),
    decreases txs[t].inputs.len() - m,
{
    let inputs = txs[t].inputs;
    let spender = txs[t].hash;
    if m < inputs.len() {
        assert(inputs.skip(m)[0] == inputs[m]);
        assert(inputs.skip(m).skip(1) =~= inputs.skip(m + 1));
        match spend_one(staged, rows, height, spender, inputs[m]) {
            Err(_) => {},
            Ok(next) => {
                if has_coin(staged.coins, inputs[m]) {
                    let at = coin_position(staged.coins, inputs[m]);
                    assert(staged.coins[at].coin_id == inputs[m]);
                    assert forall|i: int|
                        0 <= i < before.len() && before[i].spent_by is None && (
                        #[trigger] next.coins[i]).spent_by is Some implies exists|t2: int, k2: int| #[trigger]
                        is_source(txs, t2, k2, next.coins[i].coin_id, next.coins[i].spent_by->0) by {
                        if i == at {
                            assert(next.coins[i].spent_by->0 == spender);
                            assert(is_source(
                                txs,
                                t,
                                m,
                                next.coins[i].coin_id,
                                next.coins[i].spent_by->0,
                            ));
                        } else {
                            assert(next.coins[i] == staged.coins[i]);
                            assert(staged.coins[i].spent_by is Some);
                            let (t2, k2) = choose|t2: int, k2: int| #[trigger]
                                is_source(txs, t2, k2, staged.coins[i].coin_id, staged.coins[i].spent_by->0);
                            assert(is_source(txs, t2, k2, next.coins[i].coin_id, next.coins[i].spent_by->0));
                        }
                    }
                    assert forall|i: int| 0 <= i < before.len() implies (
                    #[trigger] next.coins[i]).coin_id == before[i].coin_id by {
                        assert(staged.coins[i].coin_id == before[i].coin_id);
                    }
                }
                lemma_spend_all_explains(next, rows, height, before, txs, t, m + 1);
            },
        }
    }
}

proof fn lemma_transactions_explain(
    staged: Staged,
    rows: Seq<SupplySnapshot>,
    height: BlockHeight,
    before: Seq<CoinRecordView>,
    txs: Seq<TransactionView>,
    t: int,
)
    requires
        0 <= t <= txs.len(),
        explained(before, staged.coins, txs),
    ensures
        apply_transactions(staged, rows, height, txs.skip(t)) matches Ok(after) ==> explained(
            before,
            after.coins,
            txs,
        ),
    decreases txs.len() - t,
{
    if t < txs.len() {
        let tx = txs[t];
        assert(txs.skip(t)[0] == tx);
        assert(txs.skip(t).skip(1) =~= txs.skip(t + 1));
        assert(tx.inputs.skip(0) =~= tx.inputs);
        lemma_spend_all_explains(staged, rows, height, before, txs, t, 0);
        match spend_all(staged, rows, height, tx.hash, tx.inputs) {
            Err(_) => {},
            Ok(spent) => {
                let kept = |s: Staged| explained(before, s.coins, txs);
                assert forall|s: Staged, i: int, output: CoinDataView|
                    kept(s) && (#[trigger] create_one(s, rows, height, tx.hash, i, output)) is Ok implies kept(
                    create_one(s, rows, height, tx.hash, i, output)->Ok_0,
                ) by {
                    let next = create_one(s, rows, height, tx.hash, i, output)->Ok_0;
                    assert forall|n: int| 0 <= n < before.len() implies #[trigger] next.coins[n]
                        == s.coins[n] by {}
                    assert forall|n: int|
                        0 <= n < before.len() && before[n].spent_by is None && (
                        #[trigger] next.coins[n]).spent_by is Some implies exists|t2: int, k2: int| #[trigger]
                        is_source(txs, t2, k2, next.coins[n].coin_id, next.coins[n].spent_by->0) by {
                        assert(next.coins[n] == s.coins[n]);
                        assert(s.coins[n].spent_by is Some);
                    }
                    assert forall|n: int| 0 <= n < before.len() implies (
                    #[trigger] next.coins[n]).coin_id == before[n].coin_id by {
                        assert(next.coins[n] == s.coins[n]);
                        assert(s.coins[n].coin_id == before[n].coin_id);
                    }
                }
                lemma_create_all_keeps(kept, spent, rows, height, tx.hash, 0, tx.outputs);
                match apply_transaction(staged, rows, height, tx) {
                    Err(_) => {},
                    Ok(next) => {
                        lemma_transactions_explain(next, rows, height, before, txs, t + 1);
                    },
                }
            },
        }
    }
}

/// The spends of a block are all that it changes in the records that the
/// index held. After a block that applies, a record that was unspent and
/// is spent names a coin that is among the spends of the block, with the
/// spender that the record now holds.
pub proof fn lemma_spends_complete(index: IndexView, block: BlockView, reward: u128, i: int)
    requires
        index.wf(),
        apply_block(index, block, reward) is Ok,
        0 <= i < index.coins.len(),
        index.coins[i].spent_by is None,
        apply_block(index, block, reward)->Ok_0.coins[i].spent_by is Some,
    ensures
        ({
            let after = apply_block(index, block, reward)->Ok_0;
            &&& after.coins[i].coin_id == index.coins[i].coin_id
            &&& spends_in(index.coins, block.transactions).contains(
                (index.coins[i].coin_id, after.coins[i].spent_by->0),
            )
        }),
{
    let height = block.header.height;
    let after = apply_block(index, block, reward)->Ok_0;
    let start = credit(Seq::empty(), index.supply, height, Denom::Mel, reward)->Ok_0;
    let first = Staged { coins: index.coins, totals: start };
    assert(block.transactions.skip(0) =~= block.transactions);
    lemma_transactions_explain(first, index.supply, height, index.coins, block.transactions, 0);
    assert(explained(index.coins, after.coins, block.transactions));
    let (t, k) = choose|t: int, k: int| #[trigger]
        is_source(block.transactions, t, k, after.coins[i].coin_id, after.coins[i].spent_by->0);
    assert(has_coin(index.coins, index.coins[i].coin_id));
    lemma_spends_holds(index.coins, block.transactions, t, k);
}

} // verus!
