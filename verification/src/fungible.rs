//! Fungible-token plumbing: the imbalance type that keeps unbalanced
//! operations adding up, the traits for balance sets that manage total
//! issuance, and a concrete in-memory ledger that implements them.
//!
//! Identities are plain integers here — an account is a `u64`, an asset
//! class a `u32`, a balance a `u128` — and an imbalance acts only when its
//! holder applies it, never implicitly on drop.

use vstd::prelude::*;
use crate::alist::{
    alist_find, alist_position, lemma_alist_find_push, lemma_alist_find_update_first,
};
use crate::sat::{cap_u128, sat_add_u128, sat_sub_u128};

verus! {

/// Why a balance operation was refused.
#[derive(Clone, Copy, PartialEq, Eq, Structural, Debug)]
pub enum DispatchError {
    /// The account holds less than the requested decrease.
    BalanceLow,
    /// The requested increase leaves the account below its minimum.
    AmountTooLow,
    /// The destination cannot take the deposit.
    CannotDeposit,
}

/// An as-yet-unaccounted difference between some account's balance and the
/// total issuance. The holder settles it explicitly; nothing happens on
/// drop.
#[derive(PartialEq, Eq, Structural, Debug)]
pub struct Imbalance {
    amount: u128,
}

/// The two ways an offset of opposite imbalances can come out uneven.
#[derive(PartialEq, Eq, Structural, Debug)]
pub enum UnderOver {
    Exact,
    Under(Imbalance),
    Over(Imbalance),
}

impl Imbalance {
    /// The balance difference this imbalance stands for.
    pub closed spec fn value(self) -> u128 {
        self.amount
    }

    /// An imbalance of nothing.
    pub fn zero() -> (r: Self)
        ensures
            r.value() == 0,
    {
        Imbalance { amount: 0 }
    }

    /// An imbalance of `amount`.
    pub fn new(amount: u128) -> (r: Self)
        ensures
            r.value() == amount,
    {
        Imbalance { amount }
    }

    /// Drop an instance cleanly; only an imbalance of nothing may go.
    pub fn drop_zero(self) -> (r: Result<(), Self>)
        ensures
            r is Ok <==> self.value() == 0,
            r is Err ==> r.unwrap_err() == self,
    {
        if self.amount == 0 {
            Result::Ok(())
        } else {
            Result::Err(self)
        }
    }

    /// Drop an instance cleanly; only an imbalance of nothing may go.
    pub fn try_drop(self) -> (r: Result<(), Self>)
        ensures
            r is Ok <==> self.value() == 0,
            r is Err ==> r.unwrap_err() == self,
    {
        self.drop_zero()
    }

    /// Split off up to `amount`, returning the cut and the rest.
    pub fn split(self, amount: u128) -> (r: (Self, Self))
        ensures
            r.0.value() == if self.value() < amount {
                self.value() as int
            } else {
                amount as int
            },
            r.0.value() + r.1.value() == self.value(),
    {
        let first = if self.amount < amount {
            self.amount
        } else {
            amount
        };
        let second = self.amount - first;
        (Imbalance { amount: first }, Imbalance { amount: second })
    }

    /// Fold another imbalance of the same direction in, saturating.
    pub fn merge(self, other: Self) -> (r: Self)
        ensures
            r.value() == cap_u128(self.value() + other.value()),
    {
        Imbalance { amount: sat_add_u128(self.amount, other.amount) }
    }

    /// Fold another imbalance of the same direction in place, saturating.
    pub fn subsume(&mut self, other: Self)
        ensures
            final(self).value() == cap_u128(old(self).value() + other.value()),
    {
        self.amount = sat_add_u128(self.amount, other.amount);
    }

    /// Cancel against an imbalance of the opposite direction: exact, or a
    /// remainder on whichever side was larger.
    pub fn offset(self, other: Self) -> (r: UnderOver)
        ensures
            match r {
                UnderOver::Exact => self.value() == other.value(),
                UnderOver::Under(rest) => self.value() > other.value() && rest.value()
                    == self.value() - other.value(),
                UnderOver::Over(rest) => self.value() < other.value() && rest.value()
                    == other.value() - self.value(),
            },
    {
        let (a, b) = (self.amount, other.amount);
        if a == b {
            UnderOver::Exact
        } else if a > b {
            UnderOver::Under(Imbalance { amount: a - b })
        } else {
            UnderOver::Over(Imbalance { amount: b - a })
        }
    }

    /// The difference held, without consuming it.
    pub fn peek(&self) -> (r: u128)
        ensures
            r == self.value(),
    {
        self.amount
    }
}

/// A credit: an imbalance to be resolved by crediting some account.
pub fn credit(amount: u128) -> (r: Imbalance)
    ensures
        r.value() == amount,
{
    Imbalance::new(amount)
}

/// A debt: an imbalance to be settled by debiting some account.
pub fn debt(amount: u128) -> (r: Imbalance)
    ensures
        r.value() == amount,
{
    Imbalance::new(amount)
}

/// A handler that absorbs an otherwise unaccounted imbalance into a total
/// issuance count; a holder of one of these cells applies it explicitly.
pub trait HandleImbalanceDrop: Sized {
    /// The issuance count the handler maintains.
    spec fn spec_issuance(&self) -> u128;

    /// Absorb an unaccounted `amount` into the issuance count.
    fn handle(&mut self, amount: u128);
}

/// Counts absorbed imbalances up into a total issuance, saturating.
#[derive(Clone, Copy, PartialEq, Eq, Structural, Debug)]
pub struct IncreaseIssuance {
    pub total_issuance: u128,
}

impl HandleImbalanceDrop for IncreaseIssuance {
    open spec fn spec_issuance(&self) -> u128 {
        self.total_issuance
    }

    fn handle(&mut self, amount: u128)
        ensures
            final(self).total_issuance == cap_u128(old(self).total_issuance + amount),
    {
        self.total_issuance = sat_add_u128(self.total_issuance, amount);
    }
}

/// Counts absorbed imbalances down out of a total issuance, saturating.
#[derive(Clone, Copy, PartialEq, Eq, Structural, Debug)]
pub struct DecreaseIssuance {
    pub total_issuance: u128,
}

impl HandleImbalanceDrop for DecreaseIssuance {
    open spec fn spec_issuance(&self) -> u128 {
        self.total_issuance
    }

    fn handle(&mut self, amount: u128)
        ensures
            final(self).total_issuance == if old(self).total_issuance >= amount {
                old(self).total_issuance - amount
            } else {
                0
            },
    {
        self.total_issuance = sat_sub_u128(self.total_issuance, amount);
    }
}

/// A set of one fungible token whose balances can be rewritten one account
/// at a time, leaving the issuance to the caller.
pub trait Unbalanced: Sized {
    /// The balance the set records for `who`.
    spec fn spec_balance(&self, who: u64) -> u128;

    /// The recorded total issuance.
    spec fn spec_total_issuance(&self) -> u128;

    /// The minimum balance any single account may keep.
    spec fn spec_minimum_balance(&self) -> u128;

    fn balance(&self, who: u64) -> (r: u128)
        ensures
            r == self.spec_balance(who),
    ;

    fn total_issuance(&self) -> (r: u128)
        ensures
            r == self.spec_total_issuance(),
    ;

    fn minimum_balance(&self) -> (r: u128)
        ensures
            r == self.spec_minimum_balance(),
    ;

    /// Set the balance of `who` to `amount`, exactly.
    fn set_balance(&mut self, who: u64, amount: u128) -> (r: Result<(), DispatchError>)
        ensures
            r is Ok,
            final(self).spec_balance(who) == amount,
            forall|w: u64|
                w != who ==> final(self).spec_balance(w) == old(self).spec_balance(w),
            final(self).spec_total_issuance() == old(self).spec_total_issuance(),
            final(self).spec_minimum_balance() == old(self).spec_minimum_balance(),
    ;

    /// Set the total issuance to `amount`.
    fn set_total_issuance(&mut self, amount: u128)
        ensures
            final(self).spec_total_issuance() == amount,
            forall|w: u64| final(self).spec_balance(w) == old(self).spec_balance(w),
            final(self).spec_minimum_balance() == old(self).spec_minimum_balance(),
    ;

    /// Reduce the balance of `who` by `amount`, or refuse and change
    /// nothing. A remainder below the minimum balance is dusted along, so
    /// the return may exceed `amount` by up to the minimum less one.
    fn decrease_balance(&mut self, who: u64, amount: u128) -> (r: Result<u128, DispatchError>)
        ensures
            r is Ok <==> old(self).spec_balance(who) >= amount,
            r is Err ==> r == Result::<u128, DispatchError>::Err(DispatchError::BalanceLow)
                && *final(self) == *old(self),
            r is Ok ==> ({
                let ob = old(self).spec_balance(who);
                &&& (ob - amount < old(self).spec_minimum_balance() ==> r.unwrap() == ob && final(self).spec_balance(who) == 0)
                &&& (ob - amount >= old(self).spec_minimum_balance() ==> r.unwrap() == amount
                    && final(self).spec_balance(who) == ob - amount)
                &&& (forall|w: u64|
                    w != who ==> final(self).spec_balance(w) == old(self).spec_balance(w))
                &&& final(self).spec_total_issuance() == old(self).spec_total_issuance()
                &&& final(self).spec_minimum_balance() == old(self).spec_minimum_balance()
            }),
    ;

    /// Reduce the balance of `who` by the most that is possible, up to
    /// `amount`, and return by how much it shrank (dust included).
    fn decrease_balance_at_most(&mut self, who: u64, amount: u128) -> (r: u128)
        ensures
            ({
                let ob = old(self).spec_balance(who);
                let taken = if ob < amount {
                    ob as int
                } else {
                    amount as int
                };
                &&& (ob - taken < old(self).spec_minimum_balance() ==> r == ob && final(self).spec_balance(who) == 0)
                &&& (ob - taken >= old(self).spec_minimum_balance() ==> r == taken && final(self).spec_balance(who) == ob - taken)
                &&& (forall|w: u64|
                    w != who ==> final(self).spec_balance(w) == old(self).spec_balance(w))
                &&& final(self).spec_total_issuance() == old(self).spec_total_issuance()
                &&& final(self).spec_minimum_balance() == old(self).spec_minimum_balance()
            }),
    ;

    /// Increase the balance of `who` by `amount`, or refuse and change
    /// nothing when the result would sit below the minimum balance.
    fn increase_balance(&mut self, who: u64, amount: u128) -> (r: Result<u128, DispatchError>)
        ensures
            r is Ok <==> cap_u128(old(self).spec_balance(who) + amount) >= old(self).spec_minimum_balance(),
            r is Err ==> r == Result::<u128, DispatchError>::Err(DispatchError::AmountTooLow)
                && *final(self) == *old(self),
            r is Ok ==> r.unwrap() == amount && final(self).spec_balance(who) == cap_u128(
                old(self).spec_balance(who) + amount,
            ) && (forall|w: u64|
                w != who ==> final(self).spec_balance(w) == old(self).spec_balance(w)) && final(self).spec_total_issuance() == old(self).spec_total_issuance() && final(self).spec_minimum_balance() == old(self).spec_minimum_balance(),
    ;

    /// Increase the balance of `who` by the most that is possible, up to
    /// `amount`; below the minimum balance nothing is credited.
    fn increase_balance_at_most(&mut self, who: u64, amount: u128) -> (r: u128)
        ensures
            ({
                let nb = cap_u128(old(self).spec_balance(who) + amount);
                &&& (nb < old(self).spec_minimum_balance() ==> r == 0 && final(self).spec_balance(
                    who,
                ) == 0)
                &&& (nb >= old(self).spec_minimum_balance() ==> r == amount && final(self).spec_balance(who) == nb)
                &&& (forall|w: u64|
                    w != who ==> final(self).spec_balance(w) == old(self).spec_balance(w))
                &&& final(self).spec_total_issuance() == old(self).spec_total_issuance()
                &&& final(self).spec_minimum_balance() == old(self).spec_minimum_balance()
            }),
    ;
}

/// A set of one fungible token that manages its total issuance through
/// imbalances, without requiring atomic balanced operations.
pub trait Balanced: Unbalanced {
    /// Reduce the total issuance by `amount` and return the debt.
    fn rescind(&mut self, amount: u128) -> (r: Imbalance)
        ensures
            r.value() == amount,
            final(self).spec_total_issuance() == if old(self).spec_total_issuance() >= amount {
                old(self).spec_total_issuance() - amount
            } else {
                0
            },
            forall|w: u64| final(self).spec_balance(w) == old(self).spec_balance(w),
            final(self).spec_minimum_balance() == old(self).spec_minimum_balance(),
    ;

    /// Increase the total issuance by `amount` and return the credit.
    fn issue(&mut self, amount: u128) -> (r: Imbalance)
        ensures
            r.value() == amount,
            final(self).spec_total_issuance() == cap_u128(
                old(self).spec_total_issuance() + amount,
            ),
            forall|w: u64| final(self).spec_balance(w) == old(self).spec_balance(w),
            final(self).spec_minimum_balance() == old(self).spec_minimum_balance(),
    ;

    /// Produce a debt and a credit of `amount` that cancel exactly, leaving
    /// the issuance where it was whenever it had room both ways.
    fn pair(&mut self, amount: u128) -> (r: (Imbalance, Imbalance))
        ensures
            r.0.value() == amount,
            r.1.value() == amount,
            final(self).spec_total_issuance() == cap_u128(
                (if old(self).spec_total_issuance() >= amount {
                    old(self).spec_total_issuance() - amount
                } else {
                    0
                }) + amount,
            ),
            forall|w: u64| final(self).spec_balance(w) == old(self).spec_balance(w),
            final(self).spec_minimum_balance() == old(self).spec_minimum_balance(),
    ;

    /// Deduct up to `amount` from `who`. The credit is what actually left
    /// the account; the second value is the shortfall.
    fn slash(&mut self, who: u64, amount: u128) -> (r: (Imbalance, u128))
        ensures
            ({
                let ob = old(self).spec_balance(who);
                let taken = if ob < amount {
                    ob as int
                } else {
                    amount as int
                };
                let slashed = if ob - taken < old(self).spec_minimum_balance() {
                    ob as int
                } else {
                    taken
                };
                &&& r.0.value() == slashed
                &&& r.1 == if amount >= slashed {
                    amount - slashed
                } else {
                    0
                }
                &&& final(self).spec_balance(who) == ob - slashed
                &&& (forall|w: u64|
                    w != who ==> final(self).spec_balance(w) == old(self).spec_balance(w))
                &&& final(self).spec_total_issuance() == old(self).spec_total_issuance()
            }),
    ;

    /// Mint exactly `value` into the account of `who`, or refuse.
    fn deposit(&mut self, who: u64, value: u128) -> (r: Result<Imbalance, DispatchError>)
        ensures
            r is Ok <==> cap_u128(old(self).spec_balance(who) + value) >= old(self).spec_minimum_balance(),
            r is Err ==> *final(self) == *old(self),
            r is Ok ==> r.unwrap().value() == value && final(self).spec_balance(who) == cap_u128(
                old(self).spec_balance(who) + value,
            ) && (forall|w: u64|
                w != who ==> final(self).spec_balance(w) == old(self).spec_balance(w)) && final(self).spec_total_issuance() == old(self).spec_total_issuance(),
    ;

    /// Remove `value` balance from `who` if possible; the credit may exceed
    /// `value` by dust below the minimum balance.
    fn withdraw(&mut self, who: u64, value: u128) -> (r: Result<Imbalance, DispatchError>)
        ensures
            r is Ok <==> old(self).spec_balance(who) >= value,
            r is Err ==> *final(self) == *old(self),
            r is Ok ==> ({
                let ob = old(self).spec_balance(who);
                &&& (ob - value < old(self).spec_minimum_balance() ==> r.unwrap().value() == ob
                    && final(self).spec_balance(who) == 0)
                &&& (ob - value >= old(self).spec_minimum_balance() ==> r.unwrap().value() == value
                    && final(self).spec_balance(who) == ob - value)
                &&& (forall|w: u64|
                    w != who ==> final(self).spec_balance(w) == old(self).spec_balance(w))
                &&& final(self).spec_total_issuance() == old(self).spec_total_issuance()
            }),
    ;

    /// Increase the balance of `who` to counter `credit`, or hand the
    /// credit back untouched.
    fn resolve(&mut self, who: u64, credit: Imbalance) -> (r: Result<(), Imbalance>)
        ensures
            r is Ok <==> cap_u128(old(self).spec_balance(who) + credit.value()) >= old(self).spec_minimum_balance(),
            r is Err ==> r.unwrap_err() == credit && *final(self) == *old(self),
            r is Ok ==> final(self).spec_balance(who) == cap_u128(
                old(self).spec_balance(who) + credit.value(),
            ) && (forall|w: u64|
                w != who ==> final(self).spec_balance(w) == old(self).spec_balance(w)) && final(self).spec_total_issuance() == old(self).spec_total_issuance(),
    ;

    /// Decrease the balance of `who` to counter `debt`, or hand the debt
    /// back untouched. What came out beyond the debt is returned as dust.
    fn settle(&mut self, who: u64, debt: Imbalance) -> (r: Result<Imbalance, Imbalance>)
        ensures
            r is Ok <==> old(self).spec_balance(who) >= debt.value(),
            r is Err ==> r.unwrap_err() == debt && *final(self) == *old(self),
            r is Ok ==> ({
                let ob = old(self).spec_balance(who);
                let v = debt.value();
                &&& (ob - v < old(self).spec_minimum_balance() ==> r.unwrap().value() == ob - v
                    && final(self).spec_balance(who) == 0)
                &&& (ob - v >= old(self).spec_minimum_balance() ==> r.unwrap().value() == 0
                    && final(self).spec_balance(who) == ob - v)
                &&& (forall|w: u64|
                    w != who ==> final(self).spec_balance(w) == old(self).spec_balance(w))
                &&& final(self).spec_total_issuance() == old(self).spec_total_issuance()
            }),
    ;
}

/// An in-memory single-token ledger: balances by account, a total issuance,
/// and a fixed minimum balance.
pub struct CurrencyLedger {
    accounts: Vec<(u64, u128)>,
    total: u128,
    minimum: u128,
}

impl CurrencyLedger {
    /// An empty ledger with the given minimum balance.
    pub fn new(minimum_balance: u128) -> (r: Self)
        ensures
            r.spec_minimum_balance() == minimum_balance,
            r.spec_total_issuance() == 0,
            forall|w: u64| r.spec_balance(w) == 0,
    {
        let r = CurrencyLedger { accounts: Vec::new(), total: 0, minimum: minimum_balance };
        proof {
            assert forall|w: u64| r.spec_balance(w) == 0 by {
                assert(alist_find(r.accounts@, w) is None);
            }
        }
        r
    }

    /// Store `amount` under `who`, in place or as a fresh entry.
    fn write_balance(&mut self, who: u64, amount: u128)
        ensures
            final(self).spec_balance(who) == amount,
            forall|w: u64|
                w != who ==> final(self).spec_balance(w) == old(self).spec_balance(w),
            final(self).total == old(self).total,
            final(self).minimum == old(self).minimum,
    {
        let ghost prev = *self;
        match alist_position(&self.accounts, who) {
            Option::Some(i) => {
                self.accounts.set(i, (who, amount));
                proof {
                    assert forall|w: u64| alist_find(self.accounts@, w) == (if w == who {
                        Option::Some(amount)
                    } else {
                        alist_find(prev.accounts@, w)
                    }) by {
                        lemma_alist_find_update_first(prev.accounts@, i as int, (who, amount), w);
                    }
                }
            },
            Option::None => {
                self.accounts.push((who, amount));
                proof {
                    assert forall|w: u64| alist_find(self.accounts@, w) == (if w == who {
                        Option::Some(amount)
                    } else {
                        alist_find(prev.accounts@, w)
                    }) by {
                        lemma_alist_find_push(prev.accounts@, (who, amount), w);
                    }
                }
            },
        }
    }
}

impl Unbalanced for CurrencyLedger {
    closed spec fn spec_balance(&self, who: u64) -> u128 {
        match alist_find(self.accounts@, who) {
            Option::Some(b) => b,
            Option::None => 0,
        }
    }

    closed spec fn spec_total_issuance(&self) -> u128 {
        self.total
    }

    closed spec fn spec_minimum_balance(&self) -> u128 {
        self.minimum
    }

    fn balance(&self, who: u64) -> (r: u128) {
        match alist_position(&self.accounts, who) {
            Option::Some(i) => self.accounts[i].1,
            Option::None => 0,
        }
    }

    fn total_issuance(&self) -> (r: u128) {
        self.total
    }

    fn minimum_balance(&self) -> (r: u128) {
        self.minimum
    }

    fn set_balance(&mut self, who: u64, amount: u128) -> (r: Result<(), DispatchError>) {
        self.write_balance(who, amount);
        Result::Ok(())
    }

    fn set_total_issuance(&mut self, amount: u128) {
        self.total = amount;
    }

    fn decrease_balance(&mut self, who: u64, amount: u128) -> (r: Result<u128, DispatchError>) {
        let old_balance = self.balance(who);
        if old_balance < amount {
            return Result::Err(DispatchError::BalanceLow);
        }
        let mut new_balance = old_balance - amount;
        let mut amount_taken = amount;
        if new_balance < self.minimum_balance() {
            amount_taken = sat_add_u128(amount_taken, new_balance);
            new_balance = 0;
        }
        self.write_balance(who, new_balance);
        Result::Ok(amount_taken)
    }

    fn decrease_balance_at_most(&mut self, who: u64, amount: u128) -> (r: u128) {
        let old_balance = self.balance(who);
        let (mut new_balance, mut amount_taken) = if old_balance < amount {
            (0, old_balance)
        } else {
            (old_balance - amount, amount)
        };
        if new_balance < self.minimum_balance() {
            amount_taken = sat_add_u128(amount_taken, new_balance);
            new_balance = 0;
        }
        self.write_balance(who, new_balance);
        amount_taken
    }

    fn increase_balance(&mut self, who: u64, amount: u128) -> (r: Result<u128, DispatchError>) {
        let old_balance = self.balance(who);
        let new_balance = sat_add_u128(old_balance, amount);
        if new_balance < self.minimum_balance() {
            return Result::Err(DispatchError::AmountTooLow);
        }
        if old_balance != new_balance {
            self.write_balance(who, new_balance);
        } else {
            proof {
                assert(*self == *old(self));
            }
        }
        Result::Ok(amount)
    }

    fn increase_balance_at_most(&mut self, who: u64, amount: u128) -> (r: u128) {
        let old_balance = self.balance(who);
        let mut new_balance = sat_add_u128(old_balance, amount);
        let mut credited = amount;
        if new_balance < self.minimum_balance() {
            new_balance = 0;
            credited = 0;
        }
        self.write_balance(who, new_balance);
        credited
    }
}

impl Balanced for CurrencyLedger {
    fn rescind(&mut self, amount: u128) -> (r: Imbalance) {
        let t = self.total_issuance();
        self.set_total_issuance(sat_sub_u128(t, amount));
        Imbalance::new(amount)
    }

    fn issue(&mut self, amount: u128) -> (r: Imbalance) {
        let t = self.total_issuance();
        self.set_total_issuance(sat_add_u128(t, amount));
        Imbalance::new(amount)
    }

    fn pair(&mut self, amount: u128) -> (r: (Imbalance, Imbalance)) {
        let debt = self.rescind(amount);
        let credit = self.issue(amount);
        (debt, credit)
    }

    fn slash(&mut self, who: u64, amount: u128) -> (r: (Imbalance, u128)) {
        let slashed = self.decrease_balance_at_most(who, amount);
        // The account may not have covered the whole slash.
        (Imbalance::new(slashed), sat_sub_u128(amount, slashed))
    }

    fn deposit(&mut self, who: u64, value: u128) -> (r: Result<Imbalance, DispatchError>) {
        match self.increase_balance(who, value) {
            Result::Ok(increase) => Result::Ok(Imbalance::new(increase)),
            Result::Err(e) => Result::Err(e),
        }
    }

    fn withdraw(&mut self, who: u64, value: u128) -> (r: Result<Imbalance, DispatchError>) {
        match self.decrease_balance(who, value) {
            Result::Ok(decrease) => Result::Ok(Imbalance::new(decrease)),
            Result::Err(e) => Result::Err(e),
        }
    }

    fn resolve(&mut self, who: u64, credit: Imbalance) -> (r: Result<(), Imbalance>) {
        let v = credit.peek();
        match self.deposit(who, v) {
            Result::Err(_) => Result::Err(credit),
            Result::Ok(debt) => {
                // The deposit matched the credit exactly; the offset leaves
                // nothing behind.
                let leftover = credit.offset(debt);
                match leftover {
                    UnderOver::Exact => Result::Ok(()),
                    UnderOver::Under(_) => Result::Ok(()),
                    UnderOver::Over(_) => Result::Ok(()),
                }
            },
        }
    }

    fn settle(&mut self, who: u64, debt: Imbalance) -> (r: Result<Imbalance, Imbalance>) {
        let amount = debt.peek();
        let credit = match self.withdraw(who, amount) {
            Result::Err(_) => {
                return Result::Err(debt);
            },
            Result::Ok(c) => c,
        };
        match credit.offset(debt) {
            UnderOver::Exact => Result::Ok(Imbalance::zero()),
            UnderOver::Under(dust) => Result::Ok(dust),
            UnderOver::Over(rest) => Result::Err(rest),
        }
    }
}

/// A means of identifying one asset class from another: a plain integer
/// here.
pub trait AssetId {

}

impl AssetId for u32 {

}

/// A scalar representing an account's balance: the balance type itself.
pub trait Balance {

}

impl Balance for u128 {

}

/// What would come of withdrawing a given amount.
#[derive(Clone, Copy, PartialEq, Eq, Structural, Debug)]
pub enum WithdrawConsequence {
    Success,
    NoFunds,
}

/// Balance-inspection access to a set of named fungible assets.
pub trait InspectFungibles: Sized {
    /// The balance recorded for `who` in `asset`.
    spec fn spec_asset_balance(&self, asset: u32, who: u64) -> u128;

    /// The recorded total issuance of `asset`.
    spec fn spec_asset_issuance(&self, asset: u32) -> u128;

    fn total_issuance(&self, asset: u32) -> (r: u128)
        ensures
            r == self.spec_asset_issuance(asset),
    ;

    fn minimum_balance(&self, asset: u32) -> (r: u128)
        ensures
            r == 0,
    ;

    fn balance(&self, asset: u32, who: u64) -> (r: u128)
        ensures
            r == self.spec_asset_balance(asset, who),
    ;

    /// Whether the `asset` balance of `who` may grow by `amount`.
    fn can_deposit(&self, asset: u32, who: u64, amount: u128) -> (r: bool)
        ensures
            r == (self.spec_asset_balance(asset, who) + amount <= u128::MAX),
    ;

    /// Whether the `asset` balance of `who` may shrink by `amount`.
    fn can_withdraw(&self, asset: u32, who: u64, amount: u128) -> (r: WithdrawConsequence)
        ensures
            r == WithdrawConsequence::Success <==> self.spec_asset_balance(asset, who) >= amount,
    ;
}

/// A set of named fungible assets whose balances can be created and
/// destroyed.
pub trait Fungibles: InspectFungibles {
    /// Increase the `asset` balance of `who` by `amount`.
    fn deposit(&mut self, asset: u32, who: u64, amount: u128) -> (r: Result<(), DispatchError>)
        ensures
            r is Ok <==> old(self).spec_asset_balance(asset, who) + amount <= u128::MAX,
            r is Err ==> *final(self) == *old(self),
            r is Ok ==> final(self).spec_asset_balance(asset, who) == old(self).spec_asset_balance(asset, who) + amount && (forall|a2: u32, w2: u64|
                a2 != asset || w2 != who ==> final(self).spec_asset_balance(a2, w2) == old(self).spec_asset_balance(a2, w2)),
    ;

    /// Attempt to reduce the `asset` balance of `who` by `amount`.
    fn withdraw(&mut self, asset: u32, who: u64, amount: u128) -> (r: Result<(), DispatchError>)
        ensures
            r is Ok <==> old(self).spec_asset_balance(asset, who) >= amount,
            r is Err ==> *final(self) == *old(self),
            r is Ok ==> final(self).spec_asset_balance(asset, who) == old(self).spec_asset_balance(asset, who) - amount && (forall|a2: u32, w2: u64|
                a2 != asset || w2 != who ==> final(self).spec_asset_balance(a2, w2) == old(self).spec_asset_balance(a2, w2)),
    ;

    /// Transfer funds from one account into another.
    fn transfer(&mut self, asset: u32, source: u64, dest: u64, amount: u128) -> (r: Result<
        (),
        DispatchError,
    >)
        ensures
            source != dest ==> (r is Ok <==> old(self).spec_asset_balance(asset, source) >= amount
                && old(self).spec_asset_balance(asset, dest) + amount <= u128::MAX),
            r is Err ==> *final(self) == *old(self),
            r is Ok && source != dest ==> final(self).spec_asset_balance(asset, source) == old(self).spec_asset_balance(asset, source) - amount && final(self).spec_asset_balance(
                asset,
                dest,
            ) == old(self).spec_asset_balance(asset, dest) + amount,
    ;
}

/// A set of named fungible assets which can only be transferred.
pub trait TransferFungibles: InspectFungibles {
    /// Transfer funds from one account into another.
    fn transfer(&mut self, asset: u32, source: u64, dest: u64, amount: u128) -> (r: Result<
        (),
        DispatchError,
    >);
}

/// A set of named fungible assets which can be reserved.
pub trait ReserveFungibles: InspectFungibles {
    /// Amount of funds held in reserve.
    fn reserved_balance(&self, asset: u32, who: u64) -> (r: u128);

    /// Amount of funds held in total, free and reserved.
    fn total_balance(&self, asset: u32, who: u64) -> (r: u128);

    /// Whether `amount` of `asset` may be reserved on the account of `who`.
    fn can_reserve(&self, asset: u32, who: u64, amount: u128) -> (r: bool);

    /// Reserve some funds in an account.
    fn reserve(&mut self, asset: u32, who: u64, amount: u128) -> (r: Result<(), DispatchError>);

    /// Unreserve some funds in an account.
    fn unreserve(&mut self, asset: u32, who: u64, amount: u128) -> (r: Result<
        (),
        DispatchError,
    >);

    /// Transfer reserved funds into another account.
    fn repatriate_reserved(&mut self, asset: u32, who: u64, dest: u64, amount: u128) -> (r: Result<
        (),
        DispatchError,
    >);
}

/// An in-memory multi-asset ledger: one balance book per asset class, all
/// with a zero minimum balance.
pub struct AssetsLedger {
    assets: Vec<(u64, CurrencyLedger)>,
}

impl AssetsLedger {
    /// An empty ledger of no asset classes.
    pub fn new() -> (r: Self)
        ensures
            forall|a: u32, w: u64| r.spec_asset_balance(a, w) == 0,
            forall|a: u32| r.spec_asset_issuance(a) == 0,
    {
        let r = AssetsLedger { assets: Vec::new() };
        proof {
            assert forall|a: u32, w: u64| r.spec_asset_balance(a, w) == 0 by {
                assert(alist_find(r.assets@, a as u64) is None);
            }
            assert forall|a: u32| r.spec_asset_issuance(a) == 0 by {
                assert(alist_find(r.assets@, a as u64) is None);
            }
        }
        r
    }

    /// Store `amount` under `who` in the book of `asset`, creating the book
    /// if the class is new.
    fn write_asset_balance(&mut self, asset: u32, who: u64, amount: u128)
        ensures
            final(self).spec_asset_balance(asset, who) == amount,
            forall|a2: u32, w2: u64|
                a2 != asset || w2 != who ==> final(self).spec_asset_balance(a2, w2) == old(self).spec_asset_balance(a2, w2),
            forall|a2: u32|
                final(self).spec_asset_issuance(a2) == old(self).spec_asset_issuance(a2),
    {
        let ghost prev = *self;
        let akey = asset as u64;
        match alist_position(&self.assets, akey) {
            Option::Some(i) => {
                let (k, mut ledger) = self.assets.remove(i);
                ledger.write_balance(who, amount);
                self.assets.insert(i, (k, ledger));
                proof {
                    let lg = self.assets@[i as int].1;
                    assert(prev.assets@.remove(i as int).insert(i as int, (akey, lg))
                        =~= prev.assets@.update(i as int, (akey, lg)));
                    assert forall|a2: u32, w2: u64|
                        a2 != asset || w2 != who implies self.spec_asset_balance(a2, w2)
                        == prev.spec_asset_balance(a2, w2) by {
                        lemma_alist_find_update_first(
                            prev.assets@,
                            i as int,
                            (akey, lg),
                            a2 as u64,
                        );
                    }
                    assert forall|a2: u32|
                        self.spec_asset_issuance(a2) == prev.spec_asset_issuance(a2) by {
                        lemma_alist_find_update_first(
                            prev.assets@,
                            i as int,
                            (akey, lg),
                            a2 as u64,
                        );
                    }
                    lemma_alist_find_update_first(prev.assets@, i as int, (akey, lg), akey);
                }
            },
            Option::None => {
                let mut ledger = CurrencyLedger::new(0);
                ledger.write_balance(who, amount);
                self.assets.push((akey, ledger));
                proof {
                    let lg = self.assets@[self.assets@.len() - 1].1;
                    assert forall|a2: u32, w2: u64|
                        a2 != asset || w2 != who implies self.spec_asset_balance(a2, w2)
                        == prev.spec_asset_balance(a2, w2) by {
                        lemma_alist_find_push(prev.assets@, (akey, lg), a2 as u64);
                    }
                    assert forall|a2: u32|
                        self.spec_asset_issuance(a2) == prev.spec_asset_issuance(a2) by {
                        lemma_alist_find_push(prev.assets@, (akey, lg), a2 as u64);
                    }
                    lemma_alist_find_push(prev.assets@, (akey, lg), akey);
                }
            },
        }
    }
}

impl InspectFungibles for AssetsLedger {
    closed spec fn spec_asset_balance(&self, asset: u32, who: u64) -> u128 {
        match alist_find(self.assets@, asset as u64) {
            Option::Some(l) => l.spec_balance(who),
            Option::None => 0,
        }
    }

    closed spec fn spec_asset_issuance(&self, asset: u32) -> u128 {
        match alist_find(self.assets@, asset as u64) {
            Option::Some(l) => l.spec_total_issuance(),
            Option::None => 0,
        }
    }

    fn total_issuance(&self, asset: u32) -> (r: u128) {
        match alist_position(&self.assets, asset as u64) {
            Option::Some(i) => self.assets[i].1.total_issuance(),
            Option::None => 0,
        }
    }

    fn minimum_balance(&self, asset: u32) -> (r: u128) {
        0
    }

    fn balance(&self, asset: u32, who: u64) -> (r: u128) {
        match alist_position(&self.assets, asset as u64) {
            Option::Some(i) => self.assets[i].1.balance(who),
            Option::None => 0,
        }
    }

    fn can_deposit(&self, asset: u32, who: u64, amount: u128) -> (r: bool) {
        let b = self.balance(asset, who);
        amount <= u128::MAX - b
    }

    fn can_withdraw(&self, asset: u32, who: u64, amount: u128) -> (r: WithdrawConsequence) {
        let b = self.balance(asset, who);
        if b >= amount {
            WithdrawConsequence::Success
        } else {
            WithdrawConsequence::NoFunds
        }
    }
}

impl Fungibles for AssetsLedger {
    fn deposit(&mut self, asset: u32, who: u64, amount: u128) -> (r: Result<(), DispatchError>) {
        let b = self.balance(asset, who);
        if amount > u128::MAX - b {
            return Result::Err(DispatchError::CannotDeposit);
        }
        self.write_asset_balance(asset, who, b + amount);
        Result::Ok(())
    }

    fn withdraw(&mut self, asset: u32, who: u64, amount: u128) -> (r: Result<(), DispatchError>) {
        let b = self.balance(asset, who);
        if b < amount {
            return Result::Err(DispatchError::BalanceLow);
        }
        self.write_asset_balance(asset, who, b - amount);
        Result::Ok(())
    }

    fn transfer(&mut self, asset: u32, source: u64, dest: u64, amount: u128) -> (r: Result<
        (),
        DispatchError,
    >) {
        if !self.can_deposit(asset, dest, amount) {
            return Result::Err(DispatchError::CannotDeposit);
        }
        match self.withdraw(asset, source, amount) {
            Result::Err(e) => {
                return Result::Err(e);
            },
            Result::Ok(_) => {},
        }
        // The withdrawal cannot have shrunk the destination's headroom.
        match self.deposit(asset, dest, amount) {
            Result::Err(e) => Result::Err(e),
            Result::Ok(_) => Result::Ok(()),
        }
    }
}

} // verus!
