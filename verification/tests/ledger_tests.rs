use fvm_token::state::{State, Token};
use fvm_token::uint256::Uint256;
use fvm_token::Error;

fn dec(s: &[u8]) -> Uint256 {
    Uint256::from_decimal(s).unwrap()
}

fn fresh(symbol: &[u8], decimal: u64, total_supply: Uint256) -> State {
    let mut state = State::new(Token {
        symbol: Vec::new(),
        decimal: 0,
        total_supply: Uint256::zero(),
    });
    state.constructor(Token { symbol: symbol.to_vec(), decimal, total_supply });
    state
}

#[test]
fn test_state() {
    let actor: u64 = 1u64;
    let amount = dec(b"4546347290348029834222344344");
    let total_supply = dec(b"100000000000000000000000000000000");
    let mut state = fresh(b"wfil", 18u64, total_supply);

    state.mint(actor, amount.clone());
    let balance = state.balance_of(actor);
    assert_eq!(balance, amount);

    let to_actor: u64 = 2u64;
    let amount = dec(b"4546347290348029834222");
    let from_old_balance = state.balance_of(actor);
    let to_old_balance = state.balance_of(to_actor);
    state.transfer(actor, to_actor, amount.clone()).unwrap();
    let from_balance = state.balance_of(actor);
    let to_balance = state.balance_of(to_actor);
    assert_eq!(from_old_balance, from_balance.add(&amount));
    assert_eq!(to_balance, to_old_balance.add(&amount));

    let amount = dec(b"4546347290348029");
    state.approve(actor, to_actor, amount.clone()).unwrap();
    let allowance_balance = state.allowance(&actor, &to_actor);
    assert_eq!(allowance_balance, amount);

    let amount = dec(b"454634729034");
    let from_old_balance = state.balance_of(actor);
    let to_old_balance = state.balance_of(to_actor);
    let allowance_old = state.allowance(&actor, &to_actor);
    state.transfer_from(actor, to_actor, amount.clone()).unwrap();
    let from_balance = state.balance_of(actor);
    let to_balance = state.balance_of(to_actor);
    let allowance = state.allowance(&actor, &to_actor);
    assert_eq!(from_old_balance, from_balance.add(&amount));
    assert_eq!(to_balance, to_old_balance.add(&amount));
    assert_eq!(allowance_old, allowance.add(&amount));
}

#[test]
fn full_scenario_exact_figures() {
    let mut state = fresh(b"wfil", 18, dec(b"100000000000000000000000000000000"));
    state.mint(1, dec(b"4546347290348029834222344344"));
    assert_eq!(state.balance_of(1), dec(b"4546347290348029834222344344"));

    state.transfer(1, 2, dec(b"4546347290348029834222")).unwrap();
    assert_eq!(state.balance_of(1), dec(b"4546342744000739486192510122"));
    assert_eq!(state.balance_of(2), dec(b"4546347290348029834222"));

    state.approve(2, 1, dec(b"4546347290348029")).unwrap();
    assert_eq!(state.allowance(&2, &1), dec(b"4546347290348029"));

    state.transfer_from(2, 1, dec(b"454634729034")).unwrap();
    assert_eq!(state.allowance(&2, &1), dec(b"4545892655618995"));
    assert_eq!(state.balance_of(2), dec(b"4546347289893395105188"));
    assert_eq!(state.balance_of(1), dec(b"4546342744000739940827239156"));

    assert_eq!(state.symbol(), b"wfil".to_vec());
    assert_eq!(state.decimal(), 18);
    assert_eq!(state.total_supply(), dec(b"100000000000000000000000000000000"));
}

#[test]
fn untouched_actor_has_zero_balance() {
    let mut state = fresh(b"wfil", 18, dec(b"1000"));
    assert_eq!(state.balance_of(42), Uint256::zero());
    state.mint(1, dec(b"77"));
    state.transfer(1, 2, dec(b"7")).unwrap();
    assert_eq!(state.balance_of(42), Uint256::zero());
    assert_eq!(state.allowance(&42, &1), Uint256::zero());
}

#[test]
fn repeated_mints_accumulate() {
    let mut state = fresh(b"wfil", 18, dec(b"1000"));
    state.mint(5, dec(b"99999999999999999999"));
    state.mint(5, dec(b"1"));
    assert_eq!(state.balance_of(5), dec(b"100000000000000000000"));
    // minting is not bounded by the declared total supply
    state.mint(5, dec(b"100000000000000000000000000000000000"));
    assert_eq!(state.balance_of(5), dec(b"100000000000000100000000000000000000"));
}

#[test]
fn transfer_insufficient_fails_without_change() {
    let mut state = fresh(b"wfil", 18, dec(b"1000"));
    state.mint(1, dec(b"10"));
    let r = state.transfer(1, 2, dec(b"11"));
    assert_eq!(r.err(), Some(Error::InsufficientBalance));
    assert_eq!(state.balance_of(1), dec(b"10"));
    assert_eq!(state.balance_of(2), Uint256::zero());
    // an actor with no entry cannot send a positive amount
    let r = state.transfer(3, 2, dec(b"1"));
    assert_eq!(r.err(), Some(Error::InsufficientBalance));
}

#[test]
fn transfer_preserves_combined_balance() {
    let mut state = fresh(b"wfil", 18, dec(b"1000"));
    state.mint(1, dec(b"123456789"));
    state.mint(2, dec(b"1000"));
    state.transfer(1, 2, dec(b"456789")).unwrap();
    let total = state.balance_of(1).add(&state.balance_of(2));
    assert_eq!(total, dec(b"123457789"));
    assert_eq!(state.balance_of(1), dec(b"123000000"));
    assert_eq!(state.balance_of(2), dec(b"457789"));
}

#[test]
fn approve_overwrites_and_checks_balance() {
    let mut state = fresh(b"wfil", 18, dec(b"1000"));
    state.mint(1, dec(b"100"));
    state.approve(1, 2, dec(b"60")).unwrap();
    state.approve(1, 2, dec(b"20")).unwrap();
    assert_eq!(state.allowance(&1, &2), dec(b"20"));
    // checked against the current balance only
    let r = state.approve(1, 2, dec(b"101"));
    assert_eq!(r.err(), Some(Error::InsufficientBalance));
    assert_eq!(state.allowance(&1, &2), dec(b"20"));
}

#[test]
fn transfer_from_requires_entries_and_decrements() {
    let mut state = fresh(b"wfil", 18, dec(b"1000"));
    state.mint(1, dec(b"100"));
    // no allowance entry at all: even a zero pull is refused
    let r = state.transfer_from(1, 2, Uint256::zero());
    assert_eq!(r.err(), Some(Error::InsufficientBalance));

    state.approve(1, 2, dec(b"60")).unwrap();
    let r = state.transfer_from(1, 2, dec(b"61"));
    assert_eq!(r.err(), Some(Error::InsufficientBalance));

    state.transfer_from(1, 2, dec(b"25")).unwrap();
    assert_eq!(state.allowance(&1, &2), dec(b"35"));
    assert_eq!(state.balance_of(1), dec(b"75"));
    assert_eq!(state.balance_of(2), dec(b"25"));

    // the allowance may exceed what the owner still holds
    state.transfer(1, 3, dec(b"50")).unwrap();
    let r = state.transfer_from(1, 2, dec(b"30"));
    assert_eq!(r.err(), Some(Error::InsufficientBalance));
    assert_eq!(state.allowance(&1, &2), dec(b"35"));
    assert_eq!(state.balance_of(2), dec(b"25"));
}

#[test]
fn constructor_resets_everything() {
    let mut state = fresh(b"wfil", 18, dec(b"1000"));
    state.mint(1, dec(b"5"));
    state.approve(1, 2, dec(b"3")).unwrap();
    state.constructor(Token { symbol: b"neue".to_vec(), decimal: 6, total_supply: dec(b"42") });
    assert_eq!(state.balance_of(1), Uint256::zero());
    assert_eq!(state.allowance(&1, &2), Uint256::zero());
    assert_eq!(state.symbol(), b"neue".to_vec());
    assert_eq!(state.decimal(), 6);
    assert_eq!(state.total_supply(), dec(b"42"));
}
