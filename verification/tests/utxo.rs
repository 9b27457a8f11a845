use nano_chain::utxo::{Input, Output, Transaction, TransactionError, TransactionId, UTXO};
use nano_chain::utxo::TransactionError::{EmptyInput, InputNotFound, InsufficientAmount};

fn initial_outputs() -> Vec<Output> {
    vec![
        Output::new(10000, "Lars"),
        Output::new(100000, "Andres"),
        Output::new(2000000, "Charles"),
        Output::new(10000, "Hiroto"),
    ]
}

fn test_utxo() -> UTXO {
    UTXO::new(initial_outputs())
}

#[test]
fn should_have_inputs() {
    let utxo = test_utxo();
    let outputs = initial_outputs();

    for (index, output) in outputs.iter().enumerate() {
        let input = Input::new(index, TransactionId(0));
        assert_eq!(utxo.get_output(&input), Some(output));
    }
}

#[test]
fn process_single_transaction() {
    let mut inputs: Vec<Input> = Vec::new();

    for num in 0..2 {
        let input = Input::new(num, TransactionId(0));
        inputs.push(input);
    }

    let outputs = vec![Output::new(1000, "Dog"), Output::new(20000, "Cat")];

    let outputs_copy = outputs.clone();

    let transaction = vec![Transaction::new(TransactionId(1), inputs, outputs)];

    let mut utxo = test_utxo();
    if let Err(_) = utxo.process_transactions(transaction) {
        assert!(false)
    };

    // Check that inputs/outputs are stored in utxo
    for (index, output) in outputs_copy.iter().enumerate() {
        let input = Input::new(index, TransactionId(1));
        assert_eq!(utxo.get_output(&input), Some(output));
    }

    // Check that inputs are spent
    for num in 0..2 {
        let input = Input::new(num, TransactionId(0));
        assert_eq!(utxo.get_output(&input), None);
    }
}

#[test]
fn invalid_input_should_throw_error() {
    const INVALID_TX_ID: TransactionId = TransactionId(10);

    // Here we create inputs that does not exist in UTXO
    let mut inputs: Vec<Input> = Vec::new();
    for num in 0..2 {
        let input = Input::new(num, INVALID_TX_ID);
        inputs.push(input);
    }

    let outputs = vec![Output::new(1000, "Dog"), Output::new(20000, "Cat")];

    let transaction = Transaction::new(TransactionId(1), inputs, outputs);

    let mut utxo = test_utxo();

    assert_eq!(
        utxo.process_transactions(vec![transaction]),
        Err(InputNotFound(TransactionId(1)))
    );
}

#[test]
fn insufficient_amount_should_throw_error() {
    let mut inputs: Vec<Input> = Vec::new();

    for num in 0..2 {
        let input = Input::new(num, TransactionId(0));
        inputs.push(input);
    }

    let outputs = vec![Output::new(1000000, "Dog"), Output::new(2000000, "Cat")];

    let transaction = Transaction::new(TransactionId(1), inputs, outputs);

    let mut utxo = test_utxo();

    assert_eq!(
        utxo.process_transactions(vec![transaction]),
        Err(InsufficientAmount(TransactionId(1)))
    );
}

#[test]
fn empy_input_should_throw_error() {
    let inputs: Vec<Input> = Vec::new();
    let outputs: Vec<Output> = Vec::new();
    let transaction = Transaction::new(TransactionId(1), inputs, outputs);

    let mut utxo = test_utxo();
    assert_eq!(
        utxo.process_transactions(vec![transaction]),
        Err(EmptyInput(TransactionId(1)))
    )
}

#[test]
fn exact_amount_can_be_spent() {
    let mut inputs: Vec<Input> = Vec::new();
    let mut output_sum = 0;
    let mut utxo = test_utxo();
    for num in 0..2 {
        let input = Input::new(num, TransactionId(0));
        output_sum = output_sum + utxo.get_output(&input).unwrap().value.0;
        inputs.push(input);
    }

    let output = Output::new(output_sum, "Water");
    let output_copy = output.clone();
    let transaction = Transaction::new(TransactionId(1), inputs, vec![output]);

    if let Err(_) = utxo.process_transactions(vec![transaction]) {
        assert!(false)
    };

    let input = Input::new(0, TransactionId(1));
    assert_eq!(utxo.get_output(&input), Some(&output_copy));
}

#[test]
fn refused_batch_leaves_ledger_unchanged() {
    // The second transaction is refused, so not even the first one is applied.
    let good = Transaction::new(
        TransactionId(1),
        vec![Input::new(0, TransactionId(0))],
        vec![Output::new(5000, "Dog")],
    );
    let bad = Transaction::new(
        TransactionId(2),
        vec![Input::new(9, TransactionId(0))],
        vec![Output::new(1, "Cat")],
    );
    let mut utxo = test_utxo();
    assert_eq!(utxo.process_transactions(vec![good, bad]), Err(InputNotFound(TransactionId(2))));
    assert_eq!(utxo.get_output(&Input::new(0, TransactionId(0))), Some(&Output::new(10000, "Lars")));
    assert_eq!(utxo.get_output(&Input::new(0, TransactionId(1))), None);
}

#[test]
fn batch_spending_an_output_twice_stops_midway() {
    // Both transactions pass the check against the initial ledger, but the
    // second finds its input spent by the first: the first stays applied.
    let first = Transaction::new(
        TransactionId(1),
        vec![Input::new(1, TransactionId(0))],
        vec![Output::new(100, "Dog")],
    );
    let second = Transaction::new(
        TransactionId(2),
        vec![Input::new(1, TransactionId(0))],
        vec![Output::new(200, "Cat")],
    );
    let mut utxo = test_utxo();
    assert_eq!(
        utxo.process_transactions(vec![first, second]),
        Err(TransactionError::InputNotFound(TransactionId(2)))
    );
    assert_eq!(utxo.get_output(&Input::new(0, TransactionId(1))), Some(&Output::new(100, "Dog")));
    assert_eq!(utxo.get_output(&Input::new(0, TransactionId(2))), None);
    assert_eq!(utxo.get_output(&Input::new(1, TransactionId(0))), None);
}

#[test]
fn later_transaction_may_spend_earlier_output_only_if_checked_first() {
    // Checking happens against the ledger before the batch, so spending an
    // output created in the same batch is refused.
    let first = Transaction::new(
        TransactionId(1),
        vec![Input::new(0, TransactionId(0))],
        vec![Output::new(100, "Dog")],
    );
    let second = Transaction::new(
        TransactionId(2),
        vec![Input::new(0, TransactionId(1))],
        vec![Output::new(50, "Cat")],
    );
    let mut utxo = test_utxo();
    assert_eq!(
        utxo.process_transactions(vec![first, second]),
        Err(InputNotFound(TransactionId(2)))
    );
    assert_eq!(utxo.get_output(&Input::new(0, TransactionId(0))), Some(&Output::new(10000, "Lars")));
}

#[test]
fn unspent_positions_are_untouched() {
    let tx = Transaction::new(
        TransactionId(7),
        vec![Input::new(2, TransactionId(0))],
        vec![Output::new(1, "A"), Output::new(2, "B"), Output::new(3, "C")],
    );
    let mut utxo = test_utxo();
    assert_eq!(utxo.process_transactions(vec![tx]), Ok(()));
    assert_eq!(utxo.get_output(&Input::new(3, TransactionId(0))), Some(&Output::new(10000, "Hiroto")));
    assert_eq!(utxo.get_output(&Input::new(2, TransactionId(0))), None);
    assert_eq!(utxo.get_output(&Input::new(2, TransactionId(7))), Some(&Output::new(3, "C")));
    assert_eq!(utxo.get_output(&Input::new(3, TransactionId(7))), None);
}

#[test]
fn empty_batch_is_accepted() {
    let mut utxo = test_utxo();
    assert_eq!(utxo.process_transactions(Vec::new()), Ok(()));
    assert_eq!(utxo.get_output(&Input::new(1, TransactionId(0))), Some(&Output::new(100000, "Andres")));
}

#[test]
fn large_positions_do_not_collide() {
    let mut outs = Vec::new();
    outs.push(Output::new(1, "x"));
    let utxo = UTXO::new(outs);
    assert_eq!(utxo.get_output(&Input::new(0, TransactionId(0))), Some(&Output::new(1, "x")));
    assert_eq!(utxo.get_output(&Input::new(0, TransactionId(u32::MAX))), None);
    assert_eq!(utxo.get_output(&Input::new(usize::MAX, TransactionId(0))), None);
}
