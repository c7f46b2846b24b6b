//! The mathematical model of a game state, and the rules of the game as
//! functions on that model.

use crate::models::cards::{
    ascending, descending, highest, insert_ascending, sort_descending, total, without,
    without_each,
};
use crate::models::encoding::{
    action_segment, batch_segment, decimal, last_bar, origin, packed, packed_hands,
};
use crate::models::enums::GamePhase;
use vstd::prelude::*;

verus! {

/// What a game state is: every quantity of the state as a plain value.
pub struct GameStateView {
    pub game_phase: GamePhase,
    pub no_players: u8,
    pub coins: Seq<u8>,
    pub properties: Seq<Seq<u8>>,
    pub checks: Seq<Seq<u8>>,
    pub previous_decision_player: Option<u8>,
    pub current_decision_player: Option<u8>,
    pub active_players: Seq<bool>,
    pub active_bids: Seq<u8>,
    pub auction_pool: Seq<u8>,
    pub remaining_properties: Seq<u8>,
    pub remaining_checks: Seq<u8>,
    pub round_winner: Option<u8>,
    pub round_no: u8,
    pub turn_no: u32,
    pub path_encoding: Seq<char>,
}

/// The seat after seat `i` at a table of `n`.
pub open spec fn next_seat(n: int, i: int) -> int {
    if i + 1 >= n {
        0
    } else {
        i + 1
    }
}

/// The first active seat met when going round the table from the seat
/// after `i`, looking at no more than `fuel` seats.
pub open spec fn seek_active(active: Seq<bool>, i: int, fuel: nat) -> int
    decreases fuel,
{
    let j = next_seat(active.len() as int, i);
    if fuel == 0 {
        i
    } else if 0 <= j < active.len() && active[j] {
        j
    } else {
        seek_active(active, j, (fuel - 1) as nat)
    }
}

/// The next active seat after `current` in seating order.
pub open spec fn next_active(active: Seq<bool>, current: int) -> int {
    seek_active(active, current, active.len())
}

/// How many seats are active.
pub open spec fn count_active(active: Seq<bool>) -> nat
    decreases active.len(),
{
    if active.len() == 0 {
        0
    } else {
        count_active(active.drop_last()) + if active.last() {
            1nat
        } else {
            0nat
        }
    }
}

/// The increments that a player may bid: 0, a fold, and every raise that
/// tops the highest bid and that the player can pay.
pub open spec fn bid_moves(wealth: u8, committed: u8, highest: u8) -> Seq<u8> {
    if wealth + committed <= highest {
        seq![0u8]
    } else {
        seq![0u8] + Seq::new(
            (wealth + committed - highest) as nat,
            |i: int| (highest + 1 - committed + i) as u8,
        )
    }
}

/// Whether the offer of seat `q` is served before that of seat `p`: the
/// lower offer first, and of two equal offers the lower seat.
pub open spec fn offer_precedes(choices: Seq<u8>, q: int, p: int) -> bool {
    choices[q] < choices[p] || (choices[q] == choices[p] && q < p)
}

/// How many of the seats below `upto` are served before seat `p`.
pub open spec fn offers_before(choices: Seq<u8>, p: int, upto: int) -> nat
    decreases upto,
{
    if upto <= 0 {
        0
    } else {
        offers_before(choices, p, upto - 1) + if offer_precedes(choices, upto - 1, p) {
            1nat
        } else {
            0nat
        }
    }
}

/// The place of seat `p` in the order in which a sale serves the seats.
pub open spec fn sale_rank(choices: Seq<u8>, p: int) -> nat {
    offers_before(choices, p, choices.len() as int)
}

/// The thirty properties of a new game, before they are shuffled.
pub open spec fn fresh_properties() -> Seq<u8> {
    Seq::new(30, |i: int| (i + 1) as u8)
}

/// The thirty checks of a new game, before they are shuffled: two of each
/// value from 2 to 15, and two worth nothing.
pub open spec fn fresh_checks() -> Seq<u8> {
    Seq::new(
        30,
        |i: int|
            if i < 2 {
                0u8
            } else {
                (i / 2 + 1) as u8
            },
    )
}

/// The coins that each player starts with.
pub open spec fn starting_coins(no_players: u8) -> u8 {
    if no_players == 6 {
        14
    } else if no_players == 5 {
        16
    } else if no_players == 4 {
        21
    } else {
        28
    }
}

impl GameStateView {
    /// The number of players.
    pub open spec fn n(self) -> int {
        self.no_players as int
    }

    /// The shape that every state has: one entry per player in each table,
    /// hands in ascending and the pool in descending order, a pool of at
    /// most one card per player, and a key with at least one segment.
    pub open spec fn wf(self) -> bool {
        &&& 3 <= self.no_players <= 6
        &&& self.coins.len() == self.n()
        &&& self.properties.len() == self.n()
        &&& self.checks.len() == self.n()
        &&& self.active_players.len() == self.n()
        &&& self.active_bids.len() >= self.n()
        &&& self.auction_pool.len() <= self.n()
        &&& descending(self.auction_pool)
        &&& forall|p: int| 0 <= p < self.n() ==> ascending(#[trigger] self.properties[p])
        &&& forall|p: int| 0 <= p < self.n() ==> ascending(#[trigger] self.checks[p])
        &&& self.current_decision_player is Some ==> self.current_decision_player->0
            < self.no_players
        &&& self.previous_decision_player is Some ==> self.previous_decision_player->0
            < self.no_players
        &&& self.round_winner is Some ==> self.round_winner->0 < self.no_players
        &&& last_bar(self.path_encoding) >= 0
    }

    /// The state of a new game for `no_players` players with the two decks
    /// in the given order.
    pub open spec fn start(
        no_players: u8,
        starting_player: u8,
        properties: Seq<u8>,
        checks: Seq<u8>,
    ) -> GameStateView {
        GameStateView {
            game_phase: GamePhase::Bid,
            no_players,
            coins: Seq::new(no_players as nat, |i: int| starting_coins(no_players)),
            properties: Seq::new(no_players as nat, |i: int| Seq::<u8>::empty()),
            checks: Seq::new(no_players as nat, |i: int| Seq::<u8>::empty()),
            previous_decision_player: None,
            current_decision_player: Some(starting_player),
            active_players: Seq::new(no_players as nat, |i: int| true),
            active_bids: Seq::new(6, |i: int| 0u8),
            auction_pool: Seq::empty(),
            remaining_properties: properties,
            remaining_checks: checks,
            round_winner: None,
            round_no: 0,
            turn_no: 1,
            path_encoding: origin(),
        }
    }

    /// Whether no auction is under way.
    pub open spec fn auction_end(self) -> bool {
        self.auction_pool.len() == 0
    }

    /// Whether every property has been dealt and sold.
    pub open spec fn bid_phase_end(self) -> bool {
        self.remaining_properties.len() == 0 && (self.remaining_checks.len() < 30
            || self.auction_pool.len() == 0)
    }

    /// Whether nothing is left to reveal or to claim.
    pub open spec fn sell_phase_end(self) -> bool {
        self.auction_pool.len() == 0 && self.remaining_properties.len() == 0
            && self.remaining_checks.len() == 0
    }

    /// The state with `amount` more coins for `player`.
    pub open spec fn coins_added(self, player: u8, amount: u8) -> Self {
        GameStateView {
            coins: self.coins.update(
                player as int,
                (self.coins[player as int] + amount) as u8,
            ),
            ..self
        }
    }

    /// The state with `amount` fewer coins for `player`.
    pub open spec fn coins_removed(self, player: u8, amount: u8) -> Self {
        GameStateView {
            coins: self.coins.update(
                player as int,
                (self.coins[player as int] - amount) as u8,
            ),
            ..self
        }
    }

    /// The state `amount` turns later.
    pub open spec fn turns_added(self, amount: u32) -> Self {
        GameStateView { turn_no: (self.turn_no + amount) as u32, ..self }
    }

    /// The state `amount` rounds later.
    pub open spec fn rounds_added(self, amount: u8) -> Self {
        GameStateView { round_no: (self.round_no + amount) as u8, ..self }
    }

    /// The state with `check` put into the checks of `player`, in ascending
    /// order.
    pub open spec fn check_inserted(self, player: u8, check: u8) -> Self {
        GameStateView {
            checks: self.checks.update(
                player as int,
                insert_ascending(self.checks[player as int], check),
            ),
            ..self
        }
    }

    /// The state with `property` put into the properties of `player`, in
    /// ascending order.
    pub open spec fn property_inserted(self, player: u8, property: u8) -> Self {
        GameStateView {
            properties: self.properties.update(
                player as int,
                insert_ascending(self.properties[player as int], property),
            ),
            ..self
        }
    }

    /// The state with `player` out of the auction.
    pub open spec fn deactivated(self, player: u8) -> Self {
        GameStateView { active_players: self.active_players.update(player as int, false), ..self }
    }

    /// Every bid cleared and every player back in the auction; the round's
    /// winner decides next.
    pub open spec fn round_reset(self) -> Self {
        GameStateView {
            active_bids: Seq::new(self.active_bids.len(), |i: int| 0u8),
            active_players: Seq::new(self.active_players.len(), |i: int| true),
            previous_decision_player: self.current_decision_player,
            current_decision_player: self.round_winner,
            ..self
        }
    }

    /// The state with the cards on offer (a reveal) or the offers (a sale)
    /// recorded in the key.
    pub open spec fn batch_recorded(self, reveal: bool) -> Self {
        GameStateView {
            path_encoding: self.path_encoding + batch_segment(
                reveal,
                if reveal {
                    self.auction_pool
                } else {
                    self.active_bids
                },
            ),
            ..self
        }
    }

    /// The state with the action of `player` recorded in the key.
    pub open spec fn action_recorded(self, player: u8, action: u8) -> Self {
        GameStateView {
            path_encoding: self.path_encoding + action_segment(player, action),
            ..self
        }
    }

    /// The text that shows what every player holds and what is on offer.
    pub open spec fn state_encoding(self) -> Seq<char> {
        self.game_phase.name_spec() + seq!['|', 'c'] + packed(self.coins) + seq!['|', 'p']
            + packed_hands(self.properties) + seq!['|', 'c', 'h'] + packed_hands(self.checks)
            + seq!['|', 'b'] + packed(self.active_bids) + seq!['|', 'a'] + packed(
            self.auction_pool,
        )
    }

    /// The player who decides after the current one: the round's winner once
    /// the pool is empty, else the next active player in seating order.
    pub open spec fn next_player_bid(self) -> u8 {
        if self.auction_pool.len() == 0 {
            self.round_winner->0
        } else {
            next_active(self.active_players, self.current_decision_player->0 as int) as u8
        }
    }

    /// Whether the next player to bid can be told: the first phase, a winner
    /// once the pool is empty, and before that a player to move and somebody
    /// still bidding.
    pub open spec fn can_next_player_bid(self) -> bool {
        &&& self.game_phase == GamePhase::Bid
        &&& self.auction_pool.len() == 0 ==> self.round_winner is Some
        &&& self.auction_pool.len() > 0 ==> {
            &&& self.current_decision_player is Some
            &&& exists|k: int| 0 <= k < self.n() && #[trigger] self.active_players[k]
        }
    }

    /// The state in the second phase.
    pub open spec fn sell_phase(self) -> Self {
        GameStateView { game_phase: GamePhase::Sell, ..self }
    }

    /// The bids open to `player`.
    pub open spec fn legal_moves_bid(self, player: u8) -> Seq<u8> {
        bid_moves(
            self.coins[player as int],
            self.active_bids[player as int],
            highest(self.active_bids),
        )
    }

    /// The properties that `player` may offer.
    pub open spec fn legal_moves_sell(self, player: u8) -> Seq<u8> {
        self.properties[player as int]
    }

    /// What `player` may do: bids in the first phase, offers in the second.
    pub open spec fn legal_moves(self, player: u8) -> Seq<u8> {
        match self.game_phase {
            GamePhase::Bid => self.legal_moves_bid(player),
            GamePhase::Sell => self.legal_moves_sell(player),
        }
    }

    /// The state with the bid of `player` raised by `amount`.
    pub open spec fn bid_increased(self, player: u8, amount: u8) -> Self {
        GameStateView {
            active_bids: self.active_bids.update(
                player as int,
                (self.active_bids[player as int] + amount) as u8,
            ),
            ..self
        }
    }

    /// The lowest card of the pool moved into the player's properties.
    pub open spec fn card_taken(self, player: u8) -> Self {
        GameStateView {
            auction_pool: self.auction_pool.drop_last(),
            ..self
        }.property_inserted(player, self.auction_pool.last())
    }

    /// The state after `player` has won the auction: the last card taken, and
    /// the round reset.
    pub open spec fn bid_won(self, player: u8) -> Self {
        GameStateView { round_winner: Some(player), ..self }.card_taken(player).round_reset()
    }

    /// Half of the player's bid, rounded down, goes back to the player, who
    /// takes the lowest card and leaves the auction.
    pub open spec fn bid_folded(self, player: u8) -> Self {
        let t = self.coins_added(player, self.active_bids[player as int] / 2).card_taken(
            player,
        ).deactivated(player);
        GameStateView { active_bids: t.active_bids.update(player as int, 0u8), ..t }
    }

    /// Whether `player` can fold: a card is on offer, and the refund fits.
    pub open spec fn can_fold(self, player: u8) -> bool {
        &&& player < self.no_players
        &&& self.auction_pool.len() > 0
        &&& self.coins[player as int] + self.active_bids[player as int] / 2 <= u8::MAX
    }

    /// The state after `player` has moved `amount` coins into the bid.
    pub open spec fn bid_raised(self, player: u8, amount: u8) -> Self {
        self.coins_removed(player, amount).bid_increased(player, amount)
    }

    /// Whether `player` can raise by `amount`: the player is bidding and can
    /// pay.
    pub open spec fn can_raise(self, player: u8, amount: u8) -> bool {
        &&& player < self.no_players
        &&& amount > 0
        &&& self.coins[player as int] >= amount
        &&& self.active_players[player as int]
        &&& self.active_bids[player as int] + amount <= u8::MAX
    }

    /// The deck that the current phase deals from.
    pub open spec fn deck(self) -> Seq<u8> {
        match self.game_phase {
            GamePhase::Bid => self.remaining_properties,
            GamePhase::Sell => self.remaining_checks,
        }
    }

    /// The state with `deck` as the deck that the current phase deals from.
    pub open spec fn with_deck(self, deck: Seq<u8>) -> Self {
        match self.game_phase {
            GamePhase::Bid => GameStateView { remaining_properties: deck, ..self },
            GamePhase::Sell => GameStateView { remaining_checks: deck, ..self },
        }
    }

    /// Whether a batch can be dealt: nothing is on offer, and the deck has a
    /// card for every player.
    pub open spec fn can_reveal(self) -> bool {
        &&& self.auction_pool.len() == 0
        &&& self.deck().len() >= self.n()
    }

    /// The top batch of the deck, one card per player, laid out from the
    /// highest to the lowest and recorded in the key.
    pub open spec fn revealed(self) -> Self {
        let cut = self.deck().len() - self.n();
        GameStateView {
            auction_pool: sort_descending(self.deck().skip(cut)),
            ..self.with_deck(self.deck().take(cut))
        }.batch_recorded(true)
    }

    /// The given batch laid out from the highest to the lowest and recorded
    /// in the key; the deck loses one card for each card of the batch.
    pub open spec fn revealed_with(self, values: Seq<u8>) -> Self {
        GameStateView {
            auction_pool: sort_descending(values),
            ..self.with_deck(without_each(self.deck(), values))
        }.batch_recorded(true)
    }

    /// Whether `player` can bid `action`: the first phase, the player's
    /// turn, a bid that is open to the player, and room in the counters.
    pub open spec fn can_bid(self, player: u8, action: u8) -> bool {
        &&& self.game_phase == GamePhase::Bid
        &&& self.current_decision_player == Some(player)
        &&& self.legal_moves_bid(player).contains(action)
        &&& self.turn_no < u32::MAX
        &&& self.round_no < u8::MAX
        &&& if action == 0 {
            &&& self.can_fold(player)
            &&& self.auction_pool.len() == 1 ==> self.round_winner is Some
            &&& exists|k: int|
                0 <= k < self.n() && k != player && #[trigger] self.active_players[k]
        } else {
            &&& self.can_raise(player, action)
            &&& self.auction_pool.len() == 0 ==> self.round_winner is Some
        }
    }

    /// The state after `player` bids `action`: a fold for 0, else a raise.
    /// The turn passes on; where the fold leaves a single bidder, that
    /// bidder wins what is left and the round is over.
    pub open spec fn next_bid(self, player: u8, action: u8) -> Self {
        let moved = if action == 0 {
            let folded = self.bid_folded(player);
            if folded.auction_pool.len() == 1 {
                folded.bid_won(self.next_player_bid())
            } else {
                GameStateView {
                    previous_decision_player: folded.current_decision_player,
                    current_decision_player: Some(folded.next_player_bid()),
                    ..folded
                }
            }
        } else {
            let raised = self.bid_raised(player, action);
            GameStateView {
                previous_decision_player: raised.current_decision_player,
                current_decision_player: Some(raised.next_player_bid()),
                ..raised
            }
        };
        let turned = moved.turns_added(1);
        let counted = if turned.auction_end() {
            let r = turned.rounds_added(1);
            if r.remaining_properties.len() == 0 {
                r.sell_phase()
            } else {
                r
            }
        } else {
            turned
        };
        counted.action_recorded(player, action)
    }

    /// Whether a sale can be made: for every player one offer, which the
    /// player holds, and one check on offer, and room in the counters.
    pub open spec fn can_sell(self, choices: Seq<u8>) -> bool {
        &&& choices.len() == self.n()
        &&& forall|p: int| 0 <= p < self.n() ==> self.properties[p].contains(#[trigger] choices[p])
        &&& self.auction_pool.len() == self.n()
        &&& self.turn_no < u32::MAX
        &&& self.round_no < u8::MAX
    }

    /// The check that a sale hands to seat `p`: offers are served from the
    /// lowest, each with the lowest check not yet claimed.
    pub open spec fn check_for(self, choices: Seq<u8>, p: int) -> u8 {
        self.auction_pool[self.auction_pool.len() - 1 - sale_rank(choices, p)]
    }

    /// The state after every player has offered one property.
    pub open spec fn next_sell(self, choices: Seq<u8>) -> Self {
        GameStateView {
            active_bids: choices,
            checks: Seq::new(
                self.no_players as nat,
                |p: int| insert_ascending(self.checks[p], self.check_for(choices, p)),
            ),
            properties: Seq::new(
                self.no_players as nat,
                |p: int| without(self.properties[p], seq![choices[p]]),
            ),
            auction_pool: self.auction_pool.take(self.auction_pool.len() - self.n()),
            ..self
        }.turns_added(1).rounds_added(1).batch_recorded(false)
    }

    /// Whether `values` may be revealed: one card per player, each taken
    /// from the deck.
    pub open spec fn is_batch(self, values: Seq<u8>) -> bool {
        &&& values.len() == self.n()
        &&& values.to_multiset().subset_of(self.deck().to_multiset())
    }

    /// Whether `child` is reached from this state by revealing some batch
    /// taken from the deck.
    pub open spec fn reveals_to(self, child: GameStateView) -> bool {
        exists|values: Seq<u8>| #[trigger] self.is_batch(values) && child == self.revealed_with(values)
    }

    /// The state with every offer cleared.
    pub open spec fn offers_cleared(self) -> Self {
        GameStateView { active_bids: Seq::new(6, |i: int| 0u8), ..self }
    }

    /// The first `upto` lines of the final tally.
    pub open spec fn tally(self, upto: int) -> Seq<char>
        decreases upto,
    {
        if upto <= 0 {
            Seq::empty()
        } else {
            self.tally(upto - 1) + seq!['P', 'l', 'a', 'y', 'e', 'r', ' '] + decimal(upto as nat)
                + seq![':', ' '] + decimal(self.final_score(upto - 1)) + seq![
                ' ',
                'p',
                'o',
                'i',
                'n',
                't',
                's',
                '\n',
            ]
        }
    }

    /// What each player has earned: checks and coins together.
    pub open spec fn final_score(self, player: int) -> nat {
        total(self.checks[player]) + self.coins[player] as nat
    }
}

/// Where seat `k` is active and within reach, the search for an active seat
/// ends at an active seat.
pub proof fn lemma_seek_active(active: Seq<bool>, i: int, fuel: nat, k: int)
    requires
        0 <= i < active.len(),
        0 <= k < active.len(),
        active[k],
        fuel >= (if i < k {
            k - i
        } else {
            k + active.len() - i
        }),
    ensures
        0 <= seek_active(active, i, fuel) < active.len(),
        active[seek_active(active, i, fuel)],
    decreases fuel,
{
    let j = next_seat(active.len() as int, i);
    if !active[j] {
        lemma_seek_active(active, j, (fuel - 1) as nat, k);
    }
}

/// Where some seat is active, the next active seat is a seat, and it is
/// active.
pub proof fn lemma_next_active(active: Seq<bool>, current: int)
    requires
        0 <= current < active.len(),
        exists|k: int| 0 <= k < active.len() && #[trigger] active[k],
    ensures
        0 <= next_active(active, current) < active.len(),
        active[next_active(active, current)],
{
    let k = choose|k: int| 0 <= k < active.len() && #[trigger] active[k];
    lemma_seek_active(active, current, active.len(), k);
}

/// No more seats are served before a seat than there are seats besides it.
pub proof fn lemma_offers_before_bound(choices: Seq<u8>, p: int, upto: int)
    requires
        0 <= upto,
    ensures
        offers_before(choices, p, upto) <= upto,
        0 <= p < upto ==> offers_before(choices, p, upto) < upto,
    decreases upto,
{
    if upto > 0 {
        lemma_offers_before_bound(choices, p, upto - 1);
    }
}

} // verus!
