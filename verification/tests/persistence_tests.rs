use fvm_token::state::{State, Token};
use fvm_token::store::{invoke, method_for, method_number, MethodCall, MethodKind, Store};
use fvm_token::types::{Allowance, Approve, Mint, MintLog, Transfer, TransferFrom, TransferLog};
use fvm_token::uint256::Uint256;
use fvm_token::Error;

fn dec(s: &[u8]) -> Uint256 {
    Uint256::from_decimal(s).unwrap()
}

fn fresh(symbol: &[u8], decimal: u64, total_supply: Uint256) -> State {
    let mut state = State::new(Token {
        symbol: Vec::new(),
        decimal: 0,
        total_supply: Uint256::zero(),
    });
    state.constructor(Token { symbol: symbol.to_vec(), decimal, total_supply });
    state
}

#[test]
fn save_then_load_round_trips() {
    let mut state = fresh(b"wfil", 18, dec(b"100000000000000000000000000000000"));
    state.mint(1, dec(b"4546347290348029834222344344"));
    state.transfer(1, 2, dec(b"98765432123456789")).unwrap();
    state.approve(2, 1, dec(b"777")).unwrap();

    let mut store = Store::new();
    state.save(&mut store);
    let loaded = State::load(&store).unwrap();

    assert_eq!(loaded.symbol(), state.symbol());
    assert_eq!(loaded.decimal(), state.decimal());
    assert_eq!(loaded.total_supply(), state.total_supply());
    assert_eq!(loaded.balance_of(1), state.balance_of(1));
    assert_eq!(loaded.balance_of(2), state.balance_of(2));
    assert_eq!(loaded.balance_of(3), Uint256::zero());
    assert_eq!(loaded.allowance(&2, &1), dec(b"777"));
    assert_eq!(loaded.allowance(&1, &2), Uint256::zero());
}

#[test]
fn encode_decode_round_trips_bytes() {
    let mut state = fresh(b"tok", 6, dec(b"1000000"));
    state.mint(9, dec(b"340282366920938463463374607431768211456"));
    let bytes = state.encode();
    let back = State::decode(&bytes).unwrap();
    assert_eq!(back.encode(), bytes);
    assert_eq!(back.balance_of(9), dec(b"340282366920938463463374607431768211456"));
}

#[test]
fn load_without_root_is_illegal_state() {
    let store = Store::new();
    assert_eq!(State::load(&store).err(), Some(Error::IllegalState));
}

#[test]
fn load_of_garbage_is_serialization_failure() {
    let mut store = Store::new();
    let id = store.put(vec![1, 2, 3]);
    store.set_root(id);
    assert_eq!(State::load(&store).err(), Some(Error::SerializationFailure));
}

#[test]
fn decode_rejects_tampered_streams() {
    let state = fresh(b"tok", 6, dec(b"1000000"));
    let bytes = state.encode();
    // trailing garbage
    let mut longer = bytes.clone();
    longer.push(0);
    assert!(State::decode(&longer).is_err());
    // truncation
    let shorter = &bytes[..bytes.len() - 1];
    assert!(State::decode(shorter).is_err());
    // the empty stream
    assert!(State::decode(&[]).is_err());
}

#[test]
fn invoke_cycle_matches_dispatch_table() {
    let mut store = Store::new();

    // method 1: constructor
    let token = Token { symbol: b"wfil".to_vec(), decimal: 18, total_supply: dec(b"1000000") };
    let r = invoke(&mut store, 7, &MethodCall::Constructor(token)).unwrap();
    assert!(r.is_none());

    // method 2: mint credits the named actor, no response payload
    let mint = Mint { actor: 7, amount: dec(b"123456789123456789") };
    let r = invoke(&mut store, 7, &MethodCall::Mint(mint)).unwrap();
    assert!(r.is_none());

    // method 3: balance as a decimal string
    let r = invoke(&mut store, 7, &MethodCall::BalanceOf).unwrap().unwrap();
    assert_eq!(r, b"123456789123456789".to_vec());

    // method 6: transfer, receipt bytes
    let transfer = Transfer { to: 9, amount: dec(b"89123456789") };
    let r = invoke(&mut store, 7, &MethodCall::Transfer(transfer)).unwrap().unwrap();
    assert_eq!(
        String::from_utf8(r).unwrap(),
        "{\"from\":7,\"to\":9,\"amount\":{\"big_uint\":[21,7,44,192,20]}}"
    );

    // method 7: approve, no payload
    let approve = Approve { actor: 7, amount: dec(b"555") };
    let r = invoke(&mut store, 9, &MethodCall::Approve(approve)).unwrap();
    assert!(r.is_none());

    // method 4: allowance as a decimal string
    let allowance = Allowance { from: 9, to: 7 };
    let r = invoke(&mut store, 1, &MethodCall::Allowance(allowance)).unwrap().unwrap();
    assert_eq!(r, b"555".to_vec());

    // method 5: delegated transfer, receipt bytes
    let tf = TransferFrom { from: 9, to: 7, amount: dec(b"300") };
    let r = invoke(&mut store, 7, &MethodCall::TransferFrom(tf)).unwrap().unwrap();
    assert_eq!(
        String::from_utf8(r).unwrap(),
        "{\"from\":9,\"to\":7,\"amount\":{\"big_uint\":[44,1]}}"
    );
    let allowance = Allowance { from: 9, to: 7 };
    let r = invoke(&mut store, 1, &MethodCall::Allowance(allowance)).unwrap().unwrap();
    assert_eq!(r, b"255".to_vec());

    // method 8: symbol bytes
    let r = invoke(&mut store, 1, &MethodCall::Symbol).unwrap().unwrap();
    assert_eq!(r, b"wfil".to_vec());

    // method 9: decimals as 8 big-endian bytes
    let r = invoke(&mut store, 1, &MethodCall::Decimal).unwrap().unwrap();
    assert_eq!(r, vec![0u8, 0, 0, 0, 0, 0, 0, 18]);

    // method 10: total supply as a big-endian magnitude
    let r = invoke(&mut store, 1, &MethodCall::TotalSupply).unwrap().unwrap();
    assert_eq!(r, dec(b"1000000").to_bytes_be());
}

#[test]
fn invoke_failures_leave_root_unchanged() {
    let mut store = Store::new();
    // nothing persisted yet
    let r = invoke(&mut store, 1, &MethodCall::BalanceOf);
    assert_eq!(r.err(), Some(Error::IllegalState));

    let token = Token { symbol: b"wfil".to_vec(), decimal: 18, total_supply: dec(b"10") };
    invoke(&mut store, 1, &MethodCall::Constructor(token)).unwrap();
    let snapshot = invoke(&mut store, 1, &MethodCall::BalanceOf).unwrap().unwrap();

    let transfer = Transfer { to: 2, amount: dec(b"1") };
    let r = invoke(&mut store, 1, &MethodCall::Transfer(transfer));
    assert_eq!(r.err(), Some(Error::InsufficientBalance));
    // the persisted balance is untouched by the failed call
    let after = invoke(&mut store, 1, &MethodCall::BalanceOf).unwrap().unwrap();
    assert_eq!(after, snapshot);
}

#[test]
fn method_table_numbers() {
    assert_eq!(method_number(&MethodCall::BalanceOf), 3);
    assert_eq!(method_number(&MethodCall::Symbol), 8);
    assert!(matches!(method_for(1), Ok(MethodKind::Constructor)));
    assert!(matches!(method_for(5), Ok(MethodKind::TransferFrom)));
    assert!(matches!(method_for(10), Ok(MethodKind::TotalSupply)));
    assert_eq!(method_for(0).err(), Some(Error::UnhandledMethod));
    assert_eq!(method_for(11).err(), Some(Error::UnhandledMethod));
}

#[test]
fn receipt_bytes_match_wire_format() {
    let log = MintLog::new(3, dec(b"10000000"));
    assert_eq!(
        String::from_utf8(log.to_bytes()).unwrap(),
        "{\"actor\":3,\"amount\":{\"big_uint\":[128,150,152]}}"
    );
    let log = TransferLog::new(1, 2, Uint256::zero());
    assert_eq!(
        String::from_utf8(log.to_bytes()).unwrap(),
        "{\"from\":1,\"to\":2,\"amount\":{\"big_uint\":[0]}}"
    );
}
