use vstd::prelude::*;

verus! {

/// The two stages of a game: properties are bought in `Bid`, then sold for
/// checks in `Sell`.
#[derive(Copy, Clone, Debug, PartialEq, Eq, Structural)]
pub enum GamePhase {
    Bid,
    Sell,
}

/// A number of coins.
pub type Coins = u8;

/// The face value of a property.
pub type Property = u8;

/// The face value of a check.
pub type Check = u8;

/// The seat of a player, from 0 on.
pub type Player = u8;

impl GamePhase {
    /// The characters of the phase's display name.
    pub open spec fn name_spec(self) -> Seq<char> {
        match self {
            GamePhase::Bid => seq!['B', 'i', 'd'],
            GamePhase::Sell => seq!['S', 'e', 'l', 'l'],
        }
    }

    /// The phase's display name.
    pub fn name(&self) -> (res: String)
        ensures
            res@ == self.name_spec(),
    {
        match self {
            GamePhase::Bid => {
                proof {
                    reveal_strlit("Bid");
                    assert("Bid"@ =~= seq!['B', 'i', 'd']);
                }
                String::from_str("Bid")
            },
            GamePhase::Sell => {
                proof {
                    reveal_strlit("Sell");
                    assert("Sell"@ =~= seq!['S', 'e', 'l', 'l']);
                }
                String::from_str("Sell")
            },
        }
    }
}

} // verus!
