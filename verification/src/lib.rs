//! Nomination pool accounting: a verified share-accounting engine that lets
//! many small holders pool their stake behind one nominator identity and share
//! its rewards and slashes proportionally.
//!
//! The engine owns the four storage maps (bonded pools, reward pools,
//! unbonding sub-pools, delegators) and the arithmetic over them. The staking
//! engine and the balance ledger are external collaborators: every operation
//! takes their observations (bonded balance, free balance, current era) as
//! plain arguments and returns the calls the host must forward to them.

pub mod sat;
pub mod points;
pub mod wide;
pub mod alist;
pub mod pool;
pub mod engine;
pub mod fungible;
