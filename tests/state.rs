use tavern_database::{ApplyTxError, Genesis, InitStateError, State, Tx};

fn genesis_of(pairs: &[(&str, u64)]) -> Genesis {
    Genesis {
        genesis_time: "2021-02-25:00:00.000000000Z".to_string(),
        chain_id: "the-blockchain-tavern-ledger".to_string(),
        balances: pairs.iter().map(|(n, v)| (n.to_string(), *v)).collect(),
    }
}

fn genesis_from_json(text: &str) -> Genesis {
    let doc: serde_json::Value = serde_json::from_str(text).unwrap();
    let balances = doc
        .get("balances")
        .unwrap()
        .as_object()
        .unwrap()
        .iter()
        .map(|(k, v)| (k.clone(), v.as_u64().unwrap()))
        .collect();
    Genesis {
        genesis_time: doc.get("genesis_time").unwrap().as_str().unwrap().to_string(),
        chain_id: doc.get("chain_id").unwrap().as_str().unwrap().to_string(),
        balances,
    }
}

fn balance(state: &State, name: &str) -> Option<u64> {
    state.balance(&name.to_string())
}

fn tx(from: &str, to: &str, value: u64, data: &str) -> Tx {
    Tx { from: from.to_string(), to: to.to_string(), value, data: data.to_string() }
}

fn two_accounts() -> State {
    State::from_genesis(&genesis_of(&[("andrej", 100), ("babayaga", 20)]))
}

#[test]
fn new_state() {
    let genesis = r#"
        {
            "genesis_time": "2021-02-25:00:00.000000000Z",
            "chain_id": "the-blockchain-tavern-ledger",
            "balances": {
                "andrej": 1000000,
                "babayaga": 0
            }
        }
        "#;

    let txs = r#" {"from":"andrej","to":"andrej","value":3,"data":""}
            {"from":"andrej","to":"andrej","value":700,"data":"reward"}
            {"from":"andrej","to":"babayaga","value":2000,"data":""}
            {"from":"andrej","to":"andrej","value":100,"data":"reward"}
            {"from":"babayaga","to":"andrej","value":1,"data":""}
            {"from":"andrej","to":"andrej","value":3,"data":""} "#;

    let state = State::new(&genesis_from_json(genesis), txs).unwrap();

    assert_eq!(balance(&state, "andrej").unwrap(), 998801);
    assert_eq!(balance(&state, "babayaga").unwrap(), 1999);
}

#[test]
fn add_reward_transaction() {
    let mut state = two_accounts();

    state
        .add(Tx {
            from: "andrej".to_string(),
            to: "andrej".to_string(),
            value: 100,
            data: "reward".to_string(),
        })
        .unwrap();

    assert_eq!(balance(&state, "andrej").unwrap(), 200);
    assert_eq!(state.pending_txs()[0].from, "andrej");
    assert_eq!(state.pending_txs()[0].to, "andrej");
    assert_eq!(state.pending_txs()[0].value, 100);
    assert_eq!(state.pending_txs()[0].data, "reward");
}

#[test]
fn add_normal_transaction() {
    let mut state = two_accounts();

    state
        .add(Tx {
            from: "andrej".to_string(),
            to: "babayaga".to_string(),
            value: 1,
            data: String::new(),
        })
        .unwrap();

    assert_eq!(balance(&state, "andrej").unwrap(), 99);
    assert_eq!(balance(&state, "babayaga").unwrap(), 21);
    assert_eq!(state.pending_txs()[0].from, "andrej");
    assert_eq!(state.pending_txs()[0].to, "babayaga");
    assert_eq!(state.pending_txs()[0].value, 1);
    assert_eq!(state.pending_txs()[0].data, "");
}

#[test]
fn transaction_with_insufficient_funds() {
    let mut state = two_accounts();

    let result = state.add(Tx {
        from: "andrej".to_string(),
        to: "babayaga".to_string(),
        value: 101,
        data: String::new(),
    });

    assert!(matches!(result, Err(ApplyTxError::InsufficientBalance)));
}

#[test]
fn persist() {
    let mut state = two_accounts();
    state
        .add(Tx {
            from: "andrej".to_string(),
            to: "andrej".to_string(),
            value: 100,
            data: "reward".to_string(),
        })
        .unwrap();
    state
        .add(Tx {
            from: "andrej".to_string(),
            to: "babayaga".to_string(),
            value: 1,
            data: String::new(),
        })
        .unwrap();

    let mut buf = String::new();

    state.persist(&mut buf).unwrap();

    assert_eq!(
        buf,
        r#"{"from":"andrej","to":"andrej","value":100,"data":"reward"}
{"from":"andrej","to":"babayaga","value":1,"data":""}"#
    );
}

#[test]
fn insufficient_funds_leave_balances_and_pending_unchanged() {
    let mut state = two_accounts();
    let result = state.add(tx("andrej", "babayaga", 101, ""));
    assert_eq!(result, Err(ApplyTxError::InsufficientBalance));
    assert_eq!(balance(&state, "andrej"), Some(100));
    assert_eq!(balance(&state, "babayaga"), Some(20));
    assert!(state.pending_txs().is_empty());
}

#[test]
fn transfer_of_whole_balance_is_accepted() {
    let mut state = two_accounts();
    state.add(tx("andrej", "babayaga", 100, "")).unwrap();
    assert_eq!(balance(&state, "andrej"), Some(0));
    assert_eq!(balance(&state, "babayaga"), Some(120));
}

#[test]
fn self_transfer_changes_nothing() {
    let mut state = two_accounts();
    state.add(tx("andrej", "andrej", 60, "")).unwrap();
    assert_eq!(balance(&state, "andrej"), Some(100));
    assert_eq!(balance(&state, "babayaga"), Some(20));
}

#[test]
fn reward_credits_from_and_not_to() {
    let mut state = two_accounts();
    state.add(tx("andrej", "babayaga", 5, "reward")).unwrap();
    assert_eq!(balance(&state, "andrej"), Some(105));
    assert_eq!(balance(&state, "babayaga"), Some(20));
}

#[test]
fn reward_needs_no_balance() {
    let mut state = two_accounts();
    state.add(tx("babayaga", "babayaga", 1000, "reward")).unwrap();
    assert_eq!(balance(&state, "babayaga"), Some(1020));
}

#[test]
fn unknown_sender_is_rejected() {
    for data in ["", "reward"] {
        let mut state = State::from_genesis(&genesis_of(&[("andrej", 100)]));
        let result = state.add(tx("ghost", "andrej", 1, data));
        assert_eq!(result, Err(ApplyTxError::SenderAccountNotFound));
        assert_eq!(balance(&state, "andrej"), Some(100));
        assert!(state.pending_txs().is_empty());
    }
}

#[test]
fn unknown_receiver_is_rejected() {
    for data in ["", "reward"] {
        let mut state = State::from_genesis(&genesis_of(&[("andrej", 100)]));
        let result = state.add(tx("andrej", "ghost", 1, data));
        assert_eq!(result, Err(ApplyTxError::ReceiverAccountNotFound));
        assert_eq!(balance(&state, "andrej"), Some(100));
        assert!(state.pending_txs().is_empty());
    }
}

#[test]
fn receiver_is_checked_before_sender() {
    let mut state = State::from_genesis(&genesis_of(&[("andrej", 100)]));
    let result = state.add(tx("ghost", "phantom", 1, ""));
    assert_eq!(result, Err(ApplyTxError::ReceiverAccountNotFound));
}

#[test]
fn credit_past_the_maximum_is_rejected() {
    let mut state = State::from_genesis(&genesis_of(&[("andrej", u64::MAX), ("babayaga", 1)]));
    assert_eq!(state.add(tx("andrej", "andrej", 1, "reward")), Err(ApplyTxError::BalanceOverflow));
    assert_eq!(state.add(tx("babayaga", "andrej", 1, "")), Err(ApplyTxError::BalanceOverflow));
    assert_eq!(balance(&state, "andrej"), Some(u64::MAX));
    assert_eq!(balance(&state, "babayaga"), Some(1));
    assert!(state.pending_txs().is_empty());
}

#[test]
fn later_genesis_pair_replaces_earlier() {
    let state = State::from_genesis(&genesis_of(&[("andrej", 5), ("andrej", 7)]));
    assert_eq!(balance(&state, "andrej"), Some(7));
    assert_eq!(state.balances().len(), 1);
}

#[test]
fn balances_lists_every_account() {
    let state = two_accounts();
    let mut all = state.balances();
    all.sort();
    assert_eq!(all, vec![("andrej".to_string(), 100), ("babayaga".to_string(), 20)]);
}

#[test]
fn malformed_line_aborts_load() {
    let log = "{\"from\":\"andrej\",\"to\":\"babayaga\",\"value\":1,\"data\":\"\"}\nnot a record";
    let result = State::new(&genesis_of(&[("andrej", 100), ("babayaga", 0)]), log);
    assert!(matches!(result, Err(InitStateError::DeserializeTxError { line: 1 })));
}

#[test]
fn rejected_logged_transaction_aborts_load() {
    let log = "{\"from\":\"andrej\",\"to\":\"babayaga\",\"value\":1,\"data\":\"\"}\n\n{\"from\":\"babayaga\",\"to\":\"andrej\",\"value\":5,\"data\":\"\"}";
    let result = State::new(&genesis_of(&[("andrej", 100), ("babayaga", 0)]), log);
    match result {
        Err(InitStateError::ApplyTxError(t, e)) => {
            assert_eq!(e, ApplyTxError::InsufficientBalance);
            assert_eq!(t.from, "babayaga");
            assert_eq!(t.value, 5);
        }
        _ => panic!("expected a replay failure"),
    }
}

#[test]
fn empty_log_gives_genesis() {
    let state = State::new(&genesis_of(&[("andrej", 100)]), "").unwrap();
    assert_eq!(balance(&state, "andrej"), Some(100));
    assert!(state.pending_txs().is_empty());
}

#[test]
fn persist_appends_and_keeps_pending() {
    let mut state = two_accounts();
    state.add(tx("andrej", "babayaga", 1, "")).unwrap();
    let mut buf = String::from("prefix:");
    state.persist(&mut buf).unwrap();
    assert_eq!(buf, "prefix:{\"from\":\"andrej\",\"to\":\"babayaga\",\"value\":1,\"data\":\"\"}");
    assert_eq!(state.pending_txs().len(), 1);
    state.clear_pending();
    assert!(state.pending_txs().is_empty());
    let mut empty = String::new();
    state.persist(&mut empty).unwrap();
    assert_eq!(empty, "");
}

#[test]
fn persist_escapes_strings() {
    let mut state = State::from_genesis(&genesis_of(&[("a\"b", 12345)]));
    state.add(tx("a\"b", "a\"b", 12345, "line\nbreak")).unwrap();
    let mut buf = String::new();
    state.persist(&mut buf).unwrap();
    assert_eq!(buf, "{\"from\":\"a\\\"b\",\"to\":\"a\\\"b\",\"value\":12345,\"data\":\"line\\nbreak\"}");
}

#[test]
fn is_reward_only_for_exact_tag() {
    assert!(tx("a", "b", 1, "reward").is_reward());
    assert!(!tx("a", "b", 1, "Reward").is_reward());
    assert!(!tx("a", "b", 1, "").is_reward());
}

#[test]
fn persist_after_separates_batches() {
    let mut state = two_accounts();
    let mut empty = String::new();
    state.persist_after("{\"x\":1}", &mut empty).unwrap();
    assert_eq!(empty, "");
    state.add(tx("andrej", "babayaga", 1, "")).unwrap();
    let line = "{\"from\":\"andrej\",\"to\":\"babayaga\",\"value\":1,\"data\":\"\"}";
    let mut a = String::new();
    state.persist_after("", &mut a).unwrap();
    assert_eq!(a, line);
    let mut b = String::new();
    state.persist_after("old\n", &mut b).unwrap();
    assert_eq!(b, line);
    let mut c = String::new();
    state.persist_after("old", &mut c).unwrap();
    assert_eq!(c, format!("\n{}", line));
}

#[test]
fn bad_escape_aborts_load() {
    let log = "{\"from\":\"babayaga\",\"to\":\"andrej\",\"value\":5,\"data\":\"\"}\n{\"from\":\"andrej\",\"to\":\"babayaga\",\"value\":1,\"data\":\"\\q\"}";
    let result = State::new(&genesis_of(&[("andrej", 100), ("babayaga", 0)]), log);
    assert!(matches!(result, Err(InitStateError::DeserializeTxError { line: 1 })));
}
