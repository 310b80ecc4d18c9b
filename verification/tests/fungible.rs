//! The imbalance algebra and the concrete ledgers behind the fungible
//! traits.

use nomination_pools::fungible::{
    credit, debt, AssetsLedger, Balanced, CurrencyLedger, DecreaseIssuance, DispatchError,
    Fungibles, HandleImbalanceDrop, Imbalance, IncreaseIssuance, InspectFungibles, Unbalanced,
    UnderOver, WithdrawConsequence,
};

#[test]
fn imbalance_algebra() {
    assert_eq!(Imbalance::zero().peek(), 0);
    assert_eq!(Imbalance::new(7).peek(), 7);
    assert_eq!(credit(3).peek(), 3);
    assert_eq!(debt(4).peek(), 4);

    assert!(Imbalance::zero().drop_zero().is_ok());
    assert_eq!(Imbalance::new(1).drop_zero().unwrap_err().peek(), 1);
    assert!(Imbalance::zero().try_drop().is_ok());

    let (cut, rest) = Imbalance::new(10).split(3);
    assert_eq!((cut.peek(), rest.peek()), (3, 7));
    let (cut, rest) = Imbalance::new(2).split(3);
    assert_eq!((cut.peek(), rest.peek()), (2, 0));

    assert_eq!(Imbalance::new(2).merge(Imbalance::new(3)).peek(), 5);
    let mut a = Imbalance::new(2);
    a.subsume(Imbalance::new(4));
    assert_eq!(a.peek(), 6);

    assert_eq!(Imbalance::new(5).offset(Imbalance::new(5)), UnderOver::Exact);
    match Imbalance::new(7).offset(Imbalance::new(5)) {
        UnderOver::Under(rest) => assert_eq!(rest.peek(), 2),
        _ => panic!("expected an under"),
    }
    match Imbalance::new(5).offset(Imbalance::new(7)) {
        UnderOver::Over(rest) => assert_eq!(rest.peek(), 2),
        _ => panic!("expected an over"),
    }
}

#[test]
fn issuance_handlers_count() {
    let mut up = IncreaseIssuance { total_issuance: 10 };
    up.handle(5);
    assert_eq!(up.total_issuance, 15);
    let mut down = DecreaseIssuance { total_issuance: 10 };
    down.handle(15);
    assert_eq!(down.total_issuance, 0);
}

#[test]
fn unbalanced_ledger_respects_the_minimum() {
    let mut l = CurrencyLedger::new(5);
    assert_eq!(l.minimum_balance(), 5);
    assert_eq!(l.balance(1), 0);
    l.set_balance(1, 100).expect("set");
    assert_eq!(l.balance(1), 100);

    assert_eq!(l.decrease_balance(1, 200), Err(DispatchError::BalanceLow));
    // A decrease that leaves dust takes the dust along.
    assert_eq!(l.decrease_balance(1, 97), Ok(100));
    assert_eq!(l.balance(1), 0);

    l.set_balance(1, 100).expect("set");
    assert_eq!(l.decrease_balance(1, 40), Ok(40));
    assert_eq!(l.balance(1), 60);

    assert_eq!(l.decrease_balance_at_most(1, 1000), 60);
    assert_eq!(l.balance(1), 0);
    l.set_balance(1, 100).expect("set");
    assert_eq!(l.decrease_balance_at_most(1, 98), 100);
    assert_eq!(l.balance(1), 0);

    // An increase below the minimum is refused outright.
    assert_eq!(l.increase_balance(1, 3), Err(DispatchError::AmountTooLow));
    assert_eq!(l.increase_balance(1, 7), Ok(7));
    assert_eq!(l.balance(1), 7);
    assert_eq!(l.increase_balance_at_most(2, 3), 0);
    assert_eq!(l.increase_balance_at_most(2, 9), 9);
    assert_eq!(l.balance(2), 9);

    l.set_total_issuance(500);
    assert_eq!(l.total_issuance(), 500);
}

#[test]
fn balanced_ledger_moves_issuance_through_imbalances() {
    let mut l = CurrencyLedger::new(0);
    l.set_total_issuance(100);
    let d = l.rescind(30);
    assert_eq!((d.peek(), l.total_issuance()), (30, 70));
    let c = l.issue(50);
    assert_eq!((c.peek(), l.total_issuance()), (50, 120));
    let (d2, c2) = l.pair(10);
    assert_eq!((d2.peek(), c2.peek()), (10, 10));
    assert_eq!(l.total_issuance(), 120);

    l.set_balance(1, 40).expect("set");
    let (taken, short) = l.slash(1, 100);
    assert_eq!((taken.peek(), short), (40, 60));
    assert_eq!(l.balance(1), 0);

    let dep = l.deposit(1, 25).expect("deposit");
    assert_eq!((dep.peek(), l.balance(1)), (25, 25));
    let wd = l.withdraw(1, 10).expect("withdraw");
    assert_eq!((wd.peek(), l.balance(1)), (10, 15));
    assert!(l.withdraw(1, 100).is_err());

    l.resolve(2, credit(8)).expect("resolve");
    assert_eq!(l.balance(2), 8);
    let dust = l.settle(2, debt(8)).expect("settle");
    assert_eq!((dust.peek(), l.balance(2)), (0, 0));
    assert_eq!(l.settle(2, debt(5)).unwrap_err().peek(), 5);
}

#[test]
fn fungibles_transfer_checks_both_sides() {
    let mut a = AssetsLedger::new();
    assert_eq!(a.balance(1, 10), 0);
    assert_eq!(a.minimum_balance(1), 0);
    a.deposit(1, 10, 100).expect("deposit");
    assert_eq!(a.balance(1, 10), 100);
    assert_eq!(a.total_issuance(1), 0);
    assert!(a.can_deposit(1, 11, 50));
    assert!(!a.can_deposit(1, 10, u128::MAX));
    assert_eq!(a.can_withdraw(1, 10, 50), WithdrawConsequence::Success);
    assert_eq!(a.can_withdraw(1, 10, 150), WithdrawConsequence::NoFunds);

    a.transfer(1, 10, 11, 60).expect("transfer");
    assert_eq!(a.balance(1, 10), 40);
    assert_eq!(a.balance(1, 11), 60);
    // Balances of another asset class are separate.
    assert_eq!(a.balance(2, 10), 0);

    assert_eq!(a.transfer(1, 10, 11, 60), Err(DispatchError::BalanceLow));
    a.deposit(1, 12, u128::MAX).expect("deposit");
    assert_eq!(a.transfer(1, 10, 12, 1), Err(DispatchError::CannotDeposit));
    assert_eq!(a.withdraw(1, 11, 61), Err(DispatchError::BalanceLow));
    a.withdraw(1, 11, 60).expect("withdraw");
    assert_eq!(a.balance(1, 11), 0);
}
