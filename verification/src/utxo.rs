//! The ledger of unspent transaction outputs, and how a batch of transactions
//! is checked against it and applied.

use std::collections::HashMap;
use vstd::prelude::*;

verus! {

broadcast use vstd::std_specs::hash::group_hash_axioms;

/// An amount of coin.
#[derive(Debug, Copy, Clone, PartialEq)]
pub struct Coin(pub u64);

/// The owner of an output.
#[derive(Debug, Clone, PartialEq)]
pub struct Address(pub String);

/// Names a transaction; outputs of the initial ledger belong to transaction 0.
#[derive(Clone, Copy, Debug, Eq, PartialEq, Hash)]
pub struct TransactionId(pub u32);

/// Points at an output: the `index`-th output of transaction `id`.
#[derive(Debug, PartialEq, Eq, Hash)]
pub struct Input {
    pub index: usize,
    pub id: TransactionId,
}

impl Input {
    pub fn new(index: usize, id: TransactionId) -> (input: Input)
        ensures
            input.index == index,
            input.id == id,
    {
        Input { index, id }
    }
}

/// An amount of coin owned by an address.
#[derive(Debug, Clone, PartialEq)]
pub struct Output {
    pub value: Coin,
    pub address: Address,
}

impl Output {
    pub fn new(value: u64, address: &str) -> (output: Output)
        ensures
            output.value == Coin(value),
            output.address.0@ == address@,
    {
        Output { value: Coin(value), address: Address(address.to_owned()) }
    }
}

/// Spends `inputs` and creates `outputs`, which become the outputs
/// `(0, id)`, `(1, id)`, ... of the ledger.
#[derive(Debug)]
pub struct Transaction {
    pub id: TransactionId,
    pub inputs: Vec<Input>,
    pub outputs: Vec<Output>,
}

impl Transaction {
    pub fn new(id: TransactionId, inputs: Vec<Input>, outputs: Vec<Output>) -> (transaction:
        Transaction)
        ensures
            transaction.id == id,
            transaction.inputs@ == inputs@,
            transaction.outputs@ == outputs@,
    {
        Transaction { id, inputs, outputs }
    }
}

/// Why a transaction was refused; each names the refused transaction.
#[derive(PartialEq, Debug)]
pub enum TransactionError {
    InsufficientAmount(TransactionId),
    InvalidInput(TransactionId),
    InputNotFound(TransactionId),
    EmptyInput(TransactionId),
}

/// The ledger position an input points at.
pub open spec fn outpoint(input: Input) -> (usize, u32) {
    (input.index, input.id.0)
}

/// The ledger seen as a map from positions to outputs.
pub type Ledger = Map<(usize, u32), Output>;

/// The value of the output an input points at.
pub open spec fn input_value(ledger: Ledger, input: Input) -> int {
    ledger[outpoint(input)].value.0 as int
}

/// The total value of the outputs that `inputs` point at.
pub open spec fn inputs_total(ledger: Ledger, inputs: Seq<Input>) -> int
    decreases inputs.len(),
{
    if inputs.len() == 0 {
        0
    } else {
        inputs_total(ledger, inputs.drop_last()) + input_value(ledger, inputs.last())
    }
}

/// The total value of `outputs`.
pub open spec fn outputs_total(outputs: Seq<Output>) -> int
    decreases outputs.len(),
{
    if outputs.len() == 0 {
        0
    } else {
        outputs_total(outputs.drop_last()) + outputs.last().value.0
    }
}

/// Every input points at an output of the ledger.
pub open spec fn all_found(ledger: Ledger, inputs: Seq<Input>) -> bool {
    forall|j: int| 0 <= j < inputs.len() ==> ledger.contains_key(#[trigger] outpoint(inputs[j]))
}

/// Whether the ledger accepts `tx`: it must spend something, every input must
/// exist, and the inputs must cover the outputs; the first failing check names the error.
pub open spec fn validation(ledger: Ledger, tx: Transaction) -> Result<(), TransactionError> {
    if tx.inputs@.len() == 0 {
        Err(TransactionError::EmptyInput(tx.id))
    } else if !all_found(ledger, tx.inputs@) {
        Err(TransactionError::InputNotFound(tx.id))
    } else if inputs_total(ledger, tx.inputs@) < outputs_total(tx.outputs@) {
        Err(TransactionError::InsufficientAmount(tx.id))
    } else {
        Ok(())
    }
}

/// Checking `tx` adds its amounts in `u64`: every running total it forms fits.
pub open spec fn sums_fit(ledger: Ledger, tx: Transaction) -> bool {
    tx.inputs@.len() == 0 || {
        &&& forall|k: int|
            0 <= k <= tx.inputs@.len() && all_found(ledger, tx.inputs@.take(k)) ==> inputs_total(
                ledger,
                #[trigger] tx.inputs@.take(k),
            ) <= u64::MAX
        &&& all_found(ledger, tx.inputs@) ==> forall|k: int|
            0 <= k <= tx.outputs@.len() ==> outputs_total(#[trigger] tx.outputs@.take(k))
                <= u64::MAX
    }
}

/// The verdict on the first `n` transactions of a batch, all checked against
/// the same ledger: the first refusal decides.
pub open spec fn validate_prefix(ledger: Ledger, txs: Seq<Transaction>, n: int) -> Result<
    (),
    TransactionError,
>
    decreases n,
{
    if n <= 0 {
        Ok(())
    } else {
        match validate_prefix(ledger, txs, n - 1) {
            Err(e) => Err(e),
            Ok(_) => validation(ledger, txs[n - 1]),
        }
    }
}

/// Spending `inputs` one after another: each removes its output, and the
/// first one that finds nothing stops the spending, leaving what was removed so far.
pub open spec fn spend_inputs(ledger: Ledger, inputs: Seq<Input>) -> (Ledger, bool)
    decreases inputs.len(),
{
    if inputs.len() == 0 {
        (ledger, true)
    } else {
        let (before, ok) = spend_inputs(ledger, inputs.drop_last());
        if !ok {
            (before, false)
        } else if before.contains_key(outpoint(inputs.last())) {
            (before.remove(outpoint(inputs.last())), true)
        } else {
            (before, false)
        }
    }
}

/// The ledger with `outputs[j]` recorded at position `(j, id)`, replacing
/// what stood there.
pub open spec fn credited(ledger: Ledger, outputs: Seq<Output>, id: u32) -> Ledger {
    Map::new(
        |k: (usize, u32)| ledger.contains_key(k) || (k.1 == id && k.0 < outputs.len()),
        |k: (usize, u32)|
            if k.1 == id && k.0 < outputs.len() {
                outputs[k.0 as int]
            } else {
                ledger[k]
            },
    )
}

/// Applying one transaction: spend its inputs, then record its outputs.
pub open spec fn apply_transaction(ledger: Ledger, tx: Transaction) -> (Ledger, Result<
    (),
    TransactionError,
>) {
    let (spent, ok) = spend_inputs(ledger, tx.inputs@);
    if !ok {
        (spent, Err(TransactionError::InputNotFound(tx.id)))
    } else {
        (credited(spent, tx.outputs@, tx.id.0), Ok(()))
    }
}

/// Applying the first `n` transactions in order; the first failure stops,
/// leaving the ledger as far as it got.
pub open spec fn apply_prefix(ledger: Ledger, txs: Seq<Transaction>, n: int) -> (Ledger, Result<
    (),
    TransactionError,
>)
    decreases n,
{
    if n <= 0 {
        (ledger, Ok(()))
    } else {
        let (before, r) = apply_prefix(ledger, txs, n - 1);
        if r is Err {
            (before, r)
        } else {
            apply_transaction(before, txs[n - 1])
        }
    }
}

/// The hash-map key of a ledger position.
pub open spec fn position_key(index: usize, id: u32) -> u128 {
    (index * 0x1_0000_0000 + id) as u128
}

proof fn lemma_position_key_injective(a: (usize, u32), b: (usize, u32))
    ensures
        position_key(a.0, a.1) == position_key(b.0, b.1) ==> a == b,
{
    let ka: int = a.0 * 0x1_0000_0000 + a.1;
    let kb: int = b.0 * 0x1_0000_0000 + b.1;
    assert(0 <= ka < 0x1_0000_0000_0000_0000_0000_0000) by (nonlinear_arith)
        requires ka == a.0 * 0x1_0000_0000 + a.1, 0 <= a.0 <= usize::MAX, 0 <= a.1 <= u32::MAX, usize::MAX < 0x1_0000_0000_0000_0000;
    assert(0 <= kb < 0x1_0000_0000_0000_0000_0000_0000) by (nonlinear_arith)
        requires kb == b.0 * 0x1_0000_0000 + b.1, 0 <= b.0 <= usize::MAX, 0 <= b.1 <= u32::MAX, usize::MAX < 0x1_0000_0000_0000_0000;
    if position_key(a.0, a.1) == position_key(b.0, b.1) {
        assert(ka == kb);
        assert(a.0 == b.0 && a.1 == b.1) by (nonlinear_arith)
            requires
                a.0 * 0x1_0000_0000 + a.1 == b.0 * 0x1_0000_0000 + b.1,
                0 <= a.1 < 0x1_0000_0000,
                0 <= b.1 < 0x1_0000_0000,
                0 <= a.0,
                0 <= b.0,
        ;
    }
}

fn input_key(input: &Input) -> (key: u128)
    ensures
        key == position_key(input.index, input.id.0),
{
    let index: u128 = input.index as u128;
    assert(index * 0x1_0000_0000 <= 0xffff_ffff_ffff_ffff * 0x1_0000_0000) by (nonlinear_arith)
        requires index <= 0xffff_ffff_ffff_ffff;
    index * 0x1_0000_0000u128 + input.id.0 as u128
}

/// The ledger of unspent transaction outputs.
#[derive(Debug)]
pub struct UTXO {
    store: HashMap<u128, Output>,
}

impl View for UTXO {
    type V = Ledger;

    closed spec fn view(&self) -> Ledger {
        ledger_of(self.store@)
    }
}

/// The ledger that a hash map keyed by `position_key` holds.
spec fn ledger_of(store: Map<u128, Output>) -> Ledger {
    Map::new(
        |k: (usize, u32)| store.contains_key(position_key(k.0, k.1)),
        |k: (usize, u32)| store[position_key(k.0, k.1)],
    )
}

proof fn lemma_ledger_insert(store: Map<u128, Output>, k: (usize, u32), v: Output)
    ensures
        ledger_of(store.insert(position_key(k.0, k.1), v)) == ledger_of(store).insert(k, v),
{
    assert forall|j: (usize, u32)| #[trigger] position_key(j.0, j.1) == position_key(k.0, k.1) implies j == k by {
        lemma_position_key_injective(j, k);
    }
    assert(ledger_of(store.insert(position_key(k.0, k.1), v)) =~= ledger_of(store).insert(k, v));
}

proof fn lemma_ledger_remove(store: Map<u128, Output>, k: (usize, u32))
    ensures
        ledger_of(store.remove(position_key(k.0, k.1))) == ledger_of(store).remove(k),
{
    assert forall|j: (usize, u32)| #[trigger] position_key(j.0, j.1) == position_key(k.0, k.1) implies j == k by {
        lemma_position_key_injective(j, k);
    }
    assert(ledger_of(store.remove(position_key(k.0, k.1))) =~= ledger_of(store).remove(k));
}

impl UTXO {
    /// The output at the position `input` points at, if the ledger holds one.
    pub fn get_output(&self, input: &Input) -> (output: Option<&Output>)
        ensures
            match output {
                Some(o) => self@.contains_key(outpoint(*input)) && *o == self@[outpoint(*input)],
                None => !self@.contains_key(outpoint(*input)),
            },
    {
        let key: u128 = input_key(input);
        self.store.get(&key)
    }

    /// A ledger holding `outs[j]` at position `(j, 0)`, for every `j`.
    pub fn new(outs: Vec<Output>) -> (utxo: UTXO)
        ensures
            utxo@ == credited(Map::empty(), outs@, 0),
    {
        let ghost all = outs@;
        let mut outs = outs;
        let mut store: HashMap<u128, Output> = HashMap::new();
        while outs.len() > 0
            invariant
                outs@ == all.take(outs@.len() as int),
                outs@.len() <= all.len(),
                ledger_of(store@) == Map::new(
                    |k: (usize, u32)| k.1 == 0 && outs@.len() <= k.0 < all.len(),
                    |k: (usize, u32)| all[k.0 as int],
                ),
            decreases outs@.len(),
        {
            let index: usize = outs.len() - 1;
            let output = outs.pop().unwrap();
            let ghost before = store@;
            store.insert(input_key(&Input { index, id: TransactionId(0) }), output);
            proof {
                lemma_ledger_insert(before, (index, 0u32), output);
                assert(outs@ =~= all.take(outs@.len() as int));
                assert(ledger_of(store@) =~= Map::new(
                    |k: (usize, u32)| k.1 == 0 && outs@.len() <= k.0 < all.len(),
                    |k: (usize, u32)| all[k.0 as int],
                ));
            }
        }
        let utxo = UTXO { store };
        assert(utxo@ =~= credited(Map::empty(), all, 0));
        utxo
    }

    /// Checks `transaction` against the ledger as it stands: see `validation`.
    fn validate_transaction(&self, transaction: &Transaction) -> (r: Result<(), TransactionError>)
        requires
            sums_fit(self@, *transaction),
        ensures
            r == validation(self@, *transaction),
    {
        if transaction.inputs.len() == 0 {
            return Err(TransactionError::EmptyInput(transaction.id));
        }
        let ghost ledger = self@;
        let ghost inputs = transaction.inputs@;
        let mut input_sum: u64 = 0;
        let mut i: usize = 0;
        assert(inputs.take(0) =~= Seq::<Input>::empty());
        while i < transaction.inputs.len()
            invariant
                ledger == self@,
                inputs == transaction.inputs@,
                inputs.len() > 0,
                sums_fit(ledger, *transaction),
                i <= inputs.len(),
                all_found(ledger, inputs.take(i as int)),
                input_sum == inputs_total(ledger, inputs.take(i as int)),
            decreases inputs.len() - i,
        {
            let input = &transaction.inputs[i];
            match self.get_output(input) {
                None => {
                    proof {
                        assert(!ledger.contains_key(outpoint(inputs[i as int])));
                    }
                    return Err(TransactionError::InputNotFound(transaction.id));
                },
                Some(output) => {
                    proof {
                        let next = inputs.take(i + 1);
                        assert(next.drop_last() =~= inputs.take(i as int));
                        assert(all_found(ledger, next)) by {
                            assert forall|j: int| 0 <= j < next.len() implies ledger.contains_key(#[trigger] outpoint(next[j])) by {
                                if j < i {
                                    assert(next[j] == inputs.take(i as int)[j]);
                                }
                            }
                        }
                        assert(inputs_total(ledger, next) <= u64::MAX);
                    }
                    input_sum = input_sum + output.value.0;
                },
            }
            i = i + 1;
        }
        assert(inputs.take(inputs.len() as int) =~= inputs);
        let ghost outputs = transaction.outputs@;
        let mut output_sum: u64 = 0;
        let mut j: usize = 0;
        assert(outputs.take(0) =~= Seq::<Output>::empty());
        while j < transaction.outputs.len()
            invariant
                outputs == transaction.outputs@,
                all_found(ledger, inputs),
                sums_fit(ledger, *transaction),
                inputs.len() > 0,
                inputs == transaction.inputs@,
                j <= outputs.len(),
                output_sum == outputs_total(outputs.take(j as int)),
            decreases outputs.len() - j,
        {
            proof {
                let next = outputs.take(j + 1);
                assert(next.drop_last() =~= outputs.take(j as int));
                assert(outputs_total(next) <= u64::MAX);
            }
            output_sum = output_sum + transaction.outputs[j].value.0;
            j = j + 1;
        }
        assert(outputs.take(outputs.len() as int) =~= outputs);
        if input_sum < output_sum {
            return Err(TransactionError::InsufficientAmount(transaction.id));
        }
        Ok(())
    }

    /// Applies `transaction`: see `apply_transaction`.
    fn process_transaction(&mut self, transaction: Transaction) -> (r: Result<(), TransactionError>)
        ensures
            (final(self)@, r) == apply_transaction(old(self)@, transaction),
    {
        let ghost start = self@;
        let ghost inputs = transaction.inputs@;
        let mut i: usize = 0;
        assert(inputs.take(0) =~= Seq::<Input>::empty());
        while i < transaction.inputs.len()
            invariant
                start == old(self)@,
                inputs == transaction.inputs@,
                i <= inputs.len(),
                spend_inputs(start, inputs.take(i as int)) == (self@, true),
            decreases inputs.len() - i,
        {
            let key: u128 = input_key(&transaction.inputs[i]);
            let ghost before = self.store@;
            let removed = self.store.remove(&key);
            proof {
                let next = inputs.take(i + 1);
                assert(next.drop_last() =~= inputs.take(i as int));
                assert(next.last() == inputs[i as int]);
                lemma_ledger_remove(before, outpoint(inputs[i as int]));
            }
            if removed.is_none() {
                proof {
                    assert(!ledger_of(before).contains_key(outpoint(inputs[i as int])));
                    assert(spend_inputs(start, inputs.take(i + 1)) == (self@, false));
                    lemma_spend_stops(start, inputs, i as int);
                    assert(spend_inputs(start, transaction.inputs@) == (self@, false));
                    assert(apply_transaction(start, transaction).0 == self@);
                }
                return Err(TransactionError::InputNotFound(transaction.id));
            }
            proof {
                assert(ledger_of(before).contains_key(outpoint(inputs[i as int])));
                assert(spend_inputs(start, inputs.take(i + 1)) == (self@, true));
            }
            i = i + 1;
        }
        assert(inputs.take(inputs.len() as int) =~= inputs);
        let ghost spent = self@;
        let ghost outputs = transaction.outputs@;
        let id = transaction.id;
        let mut outs = transaction.outputs;
        while outs.len() > 0
            invariant
                outs@ == outputs.take(outs@.len() as int),
                outs@.len() <= outputs.len(),
                self@ == Map::new(
                    |k: (usize, u32)| spent.contains_key(k) || (k.1 == id.0 && outs@.len() <= k.0 < outputs.len()),
                    |k: (usize, u32)|
                        if k.1 == id.0 && outs@.len() <= k.0 < outputs.len() {
                            outputs[k.0 as int]
                        } else {
                            spent[k]
                        },
                ),
            decreases outs@.len(),
        {
            let index: usize = outs.len() - 1;
            let output = outs.pop().unwrap();
            let ghost before = self.store@;
            self.store.insert(input_key(&Input { index, id }), output);
            proof {
                lemma_ledger_insert(before, (index, id.0), output);
                assert(outs@ =~= outputs.take(outs@.len() as int));
                assert(self@ =~= Map::new(
                    |k: (usize, u32)| spent.contains_key(k) || (k.1 == id.0 && outs@.len() <= k.0 < outputs.len()),
                    |k: (usize, u32)|
                        if k.1 == id.0 && outs@.len() <= k.0 < outputs.len() {
                            outputs[k.0 as int]
                        } else {
                            spent[k]
                        },
                ));
            }
        }
        assert(self@ =~= credited(spent, outputs, id.0));
        Ok(())
    }

    /// Checks every transaction of the batch against the ledger as it stands.
    fn validate_batch(&self, transactions: &Vec<Transaction>) -> (r: Result<(), TransactionError>)
        requires
            forall|i: int|
                0 <= i < transactions@.len() && validate_prefix(self@, transactions@, i) is Ok
                    ==> sums_fit(self@, #[trigger] transactions@[i]),
        ensures
            r == validate_prefix(self@, transactions@, transactions@.len() as int),
    {
        let ghost start = self@;
        let ghost txs = transactions@;
        let mut i: usize = 0;
        while i < transactions.len()
            invariant
                self@ == start,
                txs == transactions@,
                i <= txs.len(),
                validate_prefix(start, txs, i as int) is Ok,
                forall|k: int|
                    0 <= k < txs.len() && validate_prefix(start, txs, k) is Ok ==> sums_fit(
                        start,
                        #[trigger] txs[k],
                    ),
            decreases txs.len() - i,
        {
            let checked = self.validate_transaction(&transactions[i]);
            if let Err(err) = checked {
                proof {
                    assert(validate_prefix(start, txs, i + 1) == Err::<(), TransactionError>(err));
                    lemma_validate_prefix_stays(start, txs, i + 1, txs.len() as int);
                }
                return Err(err);
            }
            i = i + 1;
        }
        Ok(())
    }

    /// Applies the transactions of the batch in order, stopping at the first failure.
    fn apply_batch(&mut self, transactions: Vec<Transaction>) -> (r: Result<(), TransactionError>)
        ensures
            (final(self)@, r) == apply_prefix(old(self)@, transactions@, transactions@.len() as int),
    {
        let ghost start = self@;
        let ghost txs = transactions@;
        let count: usize = transactions.len();
        let mut remaining = transactions;
        let mut done: usize = 0;
        assert(txs.skip(0) =~= txs);
        while done < count
            invariant
                remaining@ == txs.skip(done as int),
                done <= txs.len(),
                remaining@.len() == txs.len() - done,
                count == txs.len(),
                start == old(self)@,
                txs == transactions@,
                apply_prefix(start, txs, done as int).0 == self@,
                apply_prefix(start, txs, done as int).1 is Ok,
            decreases remaining@.len(),
        {
            let transaction = remaining.remove(0);
            assert(transaction == txs[done as int]);
            let ghost before = self@;
            let applied = self.process_transaction(transaction);
            assert(apply_prefix(start, txs, done + 1) == apply_transaction(before, txs[done as int]));
            done = done + 1;
            assert(remaining@ =~= txs.skip(done as int));
            if let Err(err) = applied {
                proof {
                    assert(apply_prefix(start, txs, done as int) == (self@, Err::<(), TransactionError>(err)));
                    lemma_apply_prefix_stays(start, txs, done as int, txs.len() as int);
                    assert(apply_prefix(start, txs, txs.len() as int) == (self@, Err::<(), TransactionError>(err)));
                }
                return Err(err);
            }
        }
        Ok(())
    }

    /// Checks every transaction against the ledger as it stands and, when all
    /// pass, applies them in order; a check's refusal leaves the ledger as it
    /// was, while a failure in applying stops there (a later transaction may
    /// find its input spent by an earlier one of the batch).
    pub fn process_transactions(&mut self, transactions: Vec<Transaction>) -> (r: Result<
        (),
        TransactionError,
    >)
        requires
            forall|i: int|
                0 <= i < transactions@.len() && validate_prefix(old(self)@, transactions@, i) is Ok
                    ==> sums_fit(old(self)@, #[trigger] transactions@[i]),
        ensures
            validate_prefix(old(self)@, transactions@, transactions@.len() as int) is Err ==> r
                == validate_prefix(old(self)@, transactions@, transactions@.len() as int)
                && final(self)@ == old(self)@,
            validate_prefix(old(self)@, transactions@, transactions@.len() as int) is Ok ==> (
            final(self)@, r) == apply_prefix(old(self)@, transactions@, transactions@.len() as int),
    {
        if let Err(err) = self.validate_batch(&transactions) {
            return Err(err);
        }
        self.apply_batch(transactions)
    }
}

/// When spending stops at input `i`, spending the whole sequence stops there too.
proof fn lemma_spend_stops(ledger: Ledger, inputs: Seq<Input>, i: int)
    requires
        0 <= i < inputs.len(),
        spend_inputs(ledger, inputs.take(i + 1)).1 == false,
    ensures
        spend_inputs(ledger, inputs) == spend_inputs(ledger, inputs.take(i + 1)),
    decreases inputs.len() - i,
{
    if i + 1 < inputs.len() {
        let next = inputs.take(i + 2);
        assert(next.drop_last() =~= inputs.take(i + 1));
        assert(next.take(i + 1) =~= inputs.take(i + 1));
        lemma_spend_stops(ledger, inputs, i + 1);
    } else {
        assert(inputs.take(i + 1) =~= inputs);
    }
}

/// Once a prefix of the batch is refused, every longer prefix is refused the same way.
proof fn lemma_validate_prefix_stays(ledger: Ledger, txs: Seq<Transaction>, n: int, m: int)
    requires
        0 <= n <= m,
        validate_prefix(ledger, txs, n) is Err,
    ensures
        validate_prefix(ledger, txs, m) == validate_prefix(ledger, txs, n),
    decreases m - n,
{
    if n < m {
        lemma_validate_prefix_stays(ledger, txs, n, m - 1);
    }
}

/// Once applying a prefix of the batch fails, applying any longer prefix ends the same way.
proof fn lemma_apply_prefix_stays(ledger: Ledger, txs: Seq<Transaction>, n: int, m: int)
    requires
        0 <= n <= m,
        apply_prefix(ledger, txs, n).1 is Err,
    ensures
        apply_prefix(ledger, txs, m) == apply_prefix(ledger, txs, n),
    decreases m - n,
{
    if n < m {
        lemma_apply_prefix_stays(ledger, txs, n, m - 1);
    }
}


/// Spending removes exactly the spent positions: a position that spending
/// leaves is one the ledger held and no input spent.
proof fn lemma_spend_inputs_effect(ledger: Ledger, inputs: Seq<Input>)
    ensures
        spend_inputs(ledger, inputs).1 ==> forall|k: (usize, u32)|
            #[trigger] spend_inputs(ledger, inputs).0.contains_key(k) <==> (ledger.contains_key(k)
                && forall|j: int| 0 <= j < inputs.len() ==> outpoint(inputs[j]) != k),
        spend_inputs(ledger, inputs).1 ==> forall|k: (usize, u32)|
            #[trigger] spend_inputs(ledger, inputs).0.contains_key(k) ==> spend_inputs(ledger, inputs).0[k]
                == ledger[k],
    decreases inputs.len(),
{
    if inputs.len() > 0 {
        lemma_spend_inputs_effect(ledger, inputs.drop_last());
        let (before, ok) = spend_inputs(ledger, inputs.drop_last());
        if ok && before.contains_key(outpoint(inputs.last())) {
            let after = before.remove(outpoint(inputs.last()));
            assert forall|k: (usize, u32)| #[trigger] after.contains_key(k) <==> (ledger.contains_key(k)
                && forall|j: int| 0 <= j < inputs.len() ==> outpoint(inputs[j]) != k) by {
                if after.contains_key(k) {
                    assert forall|j: int| 0 <= j < inputs.len() implies outpoint(inputs[j]) != k by {
                        if j < inputs.len() - 1 {
                            assert(inputs.drop_last()[j] == inputs[j]);
                        }
                    }
                }
                if ledger.contains_key(k) && forall|j: int| 0 <= j < inputs.len() ==> outpoint(inputs[j]) != k {
                    assert forall|j: int| 0 <= j < inputs.drop_last().len() implies outpoint(inputs.drop_last()[j]) != k by {
                        assert(inputs.drop_last()[j] == inputs[j]);
                    }
                    assert(outpoint(inputs[inputs.len() - 1]) != k);
                }
            }
        }
    }
}

/// After a transaction is applied, none of the outputs it spent is left,
/// unless the transaction itself recorded a new output at that position; its
/// outputs stand at `(j, id)`; and every other position is as it was.
pub proof fn lemma_applied_transaction(ledger: Ledger, tx: Transaction)
    requires
        apply_transaction(ledger, tx).1 is Ok,
    ensures
        ({
            let after = apply_transaction(ledger, tx).0;
            &&& forall|j: int|
                0 <= j < tx.inputs@.len() && after.contains_key(#[trigger] outpoint(tx.inputs@[j]))
                    ==> outpoint(tx.inputs@[j]).1 == tx.id.0 && outpoint(tx.inputs@[j]).0
                    < tx.outputs@.len()
            &&& forall|j: usize|
                j < tx.outputs@.len() ==> after.contains_key((j, tx.id.0))
                    && after[(j, tx.id.0)] == #[trigger] tx.outputs@[j as int]
            &&& forall|k: (usize, u32)|
                !(k.1 == tx.id.0 && k.0 < tx.outputs@.len()) && (forall|j: int|
                    0 <= j < tx.inputs@.len() ==> outpoint(tx.inputs@[j]) != k) ==> (
                #[trigger] after.contains_key(k) <==> ledger.contains_key(k)) && (after.contains_key(k)
                    ==> after[k] == ledger[k])
        }),
{
    lemma_spend_inputs_effect(ledger, tx.inputs@);
}

/// A transaction that the ledger accepts, and that does not spend one output
/// twice, is applied without failure.
pub proof fn lemma_valid_transaction_applies(ledger: Ledger, tx: Transaction)
    requires
        validation(ledger, tx) is Ok,
        forall|i: int, j: int|
            0 <= i < j < tx.inputs@.len() ==> outpoint(tx.inputs@[i]) != outpoint(tx.inputs@[j]),
    ensures
        apply_transaction(ledger, tx).1 is Ok,
{
    lemma_spend_all_found(ledger, tx.inputs@);
}

proof fn lemma_spend_all_found(ledger: Ledger, inputs: Seq<Input>)
    requires
        all_found(ledger, inputs),
        forall|i: int, j: int|
            0 <= i < j < inputs.len() ==> outpoint(inputs[i]) != outpoint(inputs[j]),
    ensures
        spend_inputs(ledger, inputs).1,
    decreases inputs.len(),
{
    if inputs.len() > 0 {
        let rest = inputs.drop_last();
        assert forall|j: int| 0 <= j < rest.len() implies ledger.contains_key(#[trigger] outpoint(rest[j])) by {
            assert(rest[j] == inputs[j]);
        }
        assert forall|i: int, j: int| 0 <= i < j < rest.len() implies outpoint(rest[i]) != outpoint(rest[j]) by {
            assert(rest[i] == inputs[i] && rest[j] == inputs[j]);
        }
        lemma_spend_all_found(ledger, rest);
        lemma_spend_inputs_effect(ledger, rest);
        let last = outpoint(inputs.last());
        assert(ledger.contains_key(outpoint(inputs[inputs.len() - 1])));
        assert forall|j: int| 0 <= j < rest.len() implies outpoint(rest[j]) != last by {
            assert(rest[j] == inputs[j]);
        }
        assert(spend_inputs(ledger, rest).0.contains_key(last));
    }
}


/// The values of `outputs` added up, left to right.
pub open spec fn sum_of_output_values(outputs: Seq<Output>) -> int {
    outputs.fold_left(0int, |acc: int, o: Output| acc + o.value.0)
}

/// The values of the outputs that `inputs` point at, added up left to right.
pub open spec fn sum_of_spent_values(ledger: Ledger, inputs: Seq<Input>) -> int {
    inputs.fold_left(0int, |acc: int, i: Input| acc + ledger[outpoint(i)].value.0)
}

/// The totals that checking compares are the plain sums of the values: an
/// empty list totals 0, and one more output (or input) adds its value.
pub proof fn lemma_totals_are_sums(ledger: Ledger, inputs: Seq<Input>, outputs: Seq<Output>)
    ensures
        outputs_total(outputs) == sum_of_output_values(outputs),
        inputs_total(ledger, inputs) == sum_of_spent_values(ledger, inputs),
        outputs_total(Seq::<Output>::empty()) == 0,
        inputs_total(ledger, Seq::<Input>::empty()) == 0,
        forall|o: Output| #[trigger] outputs_total(outputs.push(o)) == outputs_total(outputs) + o.value.0,
        forall|i: Input|
            #[trigger] inputs_total(ledger, inputs.push(i)) == inputs_total(ledger, inputs)
                + ledger[outpoint(i)].value.0,
    decreases inputs.len() + outputs.len(),
{
    if outputs.len() > 0 {
        lemma_totals_are_sums(ledger, inputs, outputs.drop_last());
    }
    if inputs.len() > 0 {
        lemma_totals_are_sums(ledger, inputs.drop_last(), outputs);
    }
    assert forall|o: Output| #[trigger] outputs_total(outputs.push(o)) == outputs_total(outputs) + o.value.0 by {
        assert(outputs.push(o).drop_last() =~= outputs);
    }
    assert forall|i: Input|
        #[trigger] inputs_total(ledger, inputs.push(i)) == inputs_total(ledger, inputs) + ledger[outpoint(i)].value.0 by {
        assert(inputs.push(i).drop_last() =~= inputs);
    }
}

/// A transaction the ledger accepts never creates value: its outputs add up to
/// no more than the outputs it spends. It is refused as insufficient exactly
/// when it spends existing outputs worth less than what it creates.
pub proof fn lemma_accepted_transaction_creates_no_value(ledger: Ledger, tx: Transaction)
    ensures
        validation(ledger, tx) is Ok ==> tx.inputs@.len() > 0 && all_found(ledger, tx.inputs@)
            && sum_of_output_values(tx.outputs@) <= sum_of_spent_values(ledger, tx.inputs@),
        (validation(ledger, tx) == Err::<(), TransactionError>(TransactionError::InsufficientAmount(tx.id)))
            <==> (tx.inputs@.len() > 0 && all_found(ledger, tx.inputs@)
            && sum_of_spent_values(ledger, tx.inputs@) < sum_of_output_values(tx.outputs@)),
{
    lemma_totals_are_sums(ledger, tx.inputs@, tx.outputs@);
}

} // verus!
