//! The on-chain account data of a Holdem game.

use vstd::prelude::*;

verus! {

/// Representation of a specific on-chain Holdem game account
#[derive(Debug, Clone, PartialEq)]
pub struct HoldemAccount {
    pub sb: u64,
    pub bb: u64,
    pub ante: u64,
    /// the rake, per thousand
    pub rake: u16,
    /// the maximum rake, in big blinds
    pub rake_cap: u8,
    /// the maximum deposit in chips, usually 100 BB
    pub max_deposit: u64,
    /// an optional theme identifier
    pub theme: Option<String>,
}

impl Default for HoldemAccount {
    fn default() -> (r: Self)
        ensures
            r.sb == 10,
            r.bb == 20,
            r.ante == 0,
            r.rake == 3,
            r.rake_cap == 1,
            r.max_deposit == 2000,
            r.theme is None,
    {
        HoldemAccount { sb: 10, bb: 20, ante: 0, rake: 3, rake_cap: 1, max_deposit: 2000, theme: None }
    }
}

} // verus!
