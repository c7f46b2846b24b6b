//! The game state and its transitions.

use crate::bindings::hash_map::{
    holdings, holdings_clone, holdings_get, holdings_insert, holdings_with_capacity,
};
use crate::bindings::random::{choose_cards, shuffle_cards};
use crate::helper::generation::fresh_rng;
use crate::bindings::subsets::{combinations, lemma_subsets, subsets_of};

use crate::engines::algorithms::search_model::{bidding, depth_left, live_coins};
use crate::models::cards::{highest_of, insert_ascending, insert_in_order, lemma_insert_ascending, lemma_sort_descending, lemma_without, remove_each, remove_values, sorted_descending, total_of, without};
use crate::models::encoding::{append_decimal, append_joined, append_packed, last_bar, lemma_last_bar_range, lemma_parent_of_action, lemma_parent_of_batch, origin, packed_hands, parent_of, append_number};
use crate::models::enums::{Check, Coins, GamePhase, Player, Property};
use crate::models::state_view::{count_active, fresh_checks, fresh_properties, lemma_next_active, lemma_offers_before_bound, next_active, offers_before, seek_active, starting_coins, GameStateView};
use ahash::AHashMap;
use rand::rngs::StdRng;
use vstd::prelude::*;

verus! {

/// One position of the game: who holds what, what is on offer, whose turn
/// it is, and the key that names the position and its parent.
pub struct GameState {
    game_phase: GamePhase,
    no_players: u8,
    coins: Vec<Coins>,
    properties: AHashMap<Player, Vec<Property>>,
    checks: AHashMap<Player, Vec<Check>>,
    previous_decision_player: Option<u8>,
    current_decision_player: Option<u8>,
    active_players: Vec<bool>,
    active_bids: Vec<u8>,
    auction_pool: Vec<u8>,
    remaining_properties: Vec<Property>,
    remaining_checks: Vec<Check>,
    round_winner: Option<Player>,
    round_no: u8,
    turn_no: u32,
    path_encoding: String,
    /// Where the last segment of `path_encoding` begins.
    parent_len: usize,
}

impl View for GameState {
    type V = GameStateView;

    closed spec fn view(&self) -> GameStateView {
        GameStateView {
            game_phase: self.game_phase,
            no_players: self.no_players,
            coins: self.coins@,
            properties: Seq::new(
                self.no_players as nat,
                |p: int| holdings(self.properties)[p as u8],
            ),
            checks: Seq::new(self.no_players as nat, |p: int| holdings(self.checks)[p as u8]),
            previous_decision_player: self.previous_decision_player,
            current_decision_player: self.current_decision_player,
            active_players: self.active_players@,
            active_bids: self.active_bids@,
            auction_pool: self.auction_pool@,
            remaining_properties: self.remaining_properties@,
            remaining_checks: self.remaining_checks@,
            round_winner: self.round_winner,
            round_no: self.round_no,
            turn_no: self.turn_no,
            path_encoding: self.path_encoding@,
        }
    }
}

impl Clone for GameState {
    fn clone(&self) -> (res: Self)
        ensures
            res@ == self@,
            res.wf() == self.wf(),
    {
        let res = GameState {
            game_phase: self.game_phase,
            no_players: self.no_players,
            coins: self.coins.clone(),
            properties: holdings_clone(&self.properties),
            checks: holdings_clone(&self.checks),
            previous_decision_player: self.previous_decision_player,
            current_decision_player: self.current_decision_player,
            active_players: self.active_players.clone(),
            active_bids: self.active_bids.clone(),
            auction_pool: self.auction_pool.clone(),
            remaining_properties: self.remaining_properties.clone(),
            remaining_checks: self.remaining_checks.clone(),
            round_winner: self.round_winner,
            round_no: self.round_no,
            turn_no: self.turn_no,
            path_encoding: self.path_encoding.clone(),
            parent_len: self.parent_len,
        };
        proof {
            assert(res.coins@ =~= self.coins@);
            assert(res.active_players@ =~= self.active_players@);
            assert(res.active_bids@ =~= self.active_bids@);
            assert(res.auction_pool@ =~= self.auction_pool@);
            assert(res.remaining_properties@ =~= self.remaining_properties@);
            assert(res.remaining_checks@ =~= self.remaining_checks@);
            assert(res@.properties =~= self@.properties);
            assert(res@.checks =~= self@.checks);
        }
        res
    }
}

/// The thirty properties in rising order.
fn new_properties() -> (res: Vec<u8>)
    ensures
        res@ == fresh_properties(),
{
    let mut deck: Vec<u8> = Vec::with_capacity(30);
    let mut i: u8 = 0;
    while i < 30
        invariant
            i <= 30,
            deck@.len() == i,
            forall|j: int| 0 <= j < i ==> deck@[j] == j + 1,
        decreases 30 - i,
    {
        deck.push(i + 1);
        i += 1;
    }
    assert(deck@ =~= fresh_properties());
    deck
}

/// The thirty checks in rising order.
fn new_checks() -> (res: Vec<u8>)
    ensures
        res@ == fresh_checks(),
{
    let mut deck: Vec<u8> = Vec::with_capacity(30);
    let mut i: u8 = 0;
    while i < 30
        invariant
            i <= 30,
            deck@.len() == i,
            forall|j: int| 0 <= j < i ==> deck@[j] == fresh_checks()[j],
        decreases 30 - i,
    {
        if i < 2 {
            deck.push(0);
        } else {
            deck.push(i / 2 + 1);
        }
        i += 1;
    }
    assert(deck@ =~= fresh_checks());
    deck
}

impl GameState {
    /// Whether the state is sound: its model has the shape of a state, both
    /// tables of holdings have an entry for every player, and the recorded
    /// start of the last segment is where the key's last delimiter stands.
    pub closed spec fn wf(&self) -> bool {
        &&& self@.wf()
        &&& forall|p: u8|
            p < self.no_players ==> #[trigger] holdings(self.properties).contains_key(p)
        &&& forall|p: u8| p < self.no_players ==> #[trigger] holdings(self.checks).contains_key(p)
        &&& self.parent_len == last_bar(self.path_encoding@)
    }

    /// A sound state has the shape of a state.
    pub proof fn lemma_wf(&self)
        requires
            self.wf(),
        ensures
            self@.wf(),
    {
    }

    /// The first state of a game with the two decks in the given order.
    pub fn starting_with_decks(
        no_players: u8,
        starting_player: u8,
        remaining_properties: Vec<Property>,
        remaining_checks: Vec<Check>,
    ) -> (res: Self)
        requires
            3 <= no_players <= 6,
            starting_player < no_players,
        ensures
            res.wf(),
            res@ == GameStateView::start(
                no_players,
                starting_player,
                remaining_properties@,
                remaining_checks@,
            ),
    {
        let starting_coins: u8 = if no_players == 6 {
            14
        } else if no_players == 5 {
            16
        } else if no_players == 4 {
            21
        } else {
            28
        };
        let mut coins: Vec<Coins> = Vec::with_capacity(no_players as usize);
        let mut active_players: Vec<bool> = Vec::with_capacity(no_players as usize);
        let mut active_bids: Vec<u8> = Vec::with_capacity(6);
        let mut properties: AHashMap<Player, Vec<Property>> = holdings_with_capacity(
            no_players as usize,
        );
        let mut checks: AHashMap<Player, Vec<Check>> = holdings_with_capacity(
            no_players as usize,
        );
        let mut i: u8 = 0;
        while i < no_players
            invariant
                i <= no_players,
                coins@.len() == i,
                active_players@.len() == i,
                forall|j: int| 0 <= j < i ==> coins@[j] == starting_coins,
                forall|j: int| 0 <= j < i ==> active_players@[j],
                forall|p: u8| p < i ==> #[trigger] holdings(properties).contains_key(p),
                forall|p: u8| p < i ==> #[trigger] holdings(checks).contains_key(p),
                forall|p: u8| p < i ==> holdings(properties)[p] == Seq::<u8>::empty(),
                forall|p: u8| p < i ==> holdings(checks)[p] == Seq::<u8>::empty(),
            decreases no_players - i,
        {
            coins.push(starting_coins);
            active_players.push(true);
            holdings_insert(&mut properties, i, Vec::with_capacity(10));
            holdings_insert(&mut checks, i, Vec::with_capacity(10));
            i += 1;
        }
        let mut k: u8 = 0;
        while k < 6
            invariant
                k <= 6,
                active_bids@.len() == k,
                forall|j: int| 0 <= j < k ==> active_bids@[j] == 0,
            decreases 6 - k,
        {
            active_bids.push(0);
            k += 1;
        }
        proof {
            reveal_strlit("|O");
            assert("|O"@ =~= origin());
            reveal_with_fuel(last_bar, 3);
            assert(last_bar(origin()) == 0);
        }
        let res = GameState {
            game_phase: GamePhase::Bid,
            no_players,
            coins,
            properties,
            checks,
            previous_decision_player: None,
            current_decision_player: Some(starting_player),
            active_players,
            active_bids,
            auction_pool: Vec::with_capacity(no_players as usize),
            remaining_properties,
            remaining_checks,
            round_winner: None,
            round_no: 0,
            turn_no: 1,
            path_encoding: String::from_str("|O"),
            parent_len: 0,
        };
        proof {
            let target = GameStateView::start(
                no_players,
                starting_player,
                remaining_properties@,
                remaining_checks@,
            );
            assert(res@.coins =~= target.coins);
            assert(res@.properties =~= target.properties);
            assert(res@.checks =~= target.checks);
            assert(res@.active_players =~= target.active_players);
            assert(res@.active_bids =~= target.active_bids);
            assert(res@.auction_pool =~= target.auction_pool);
        }
        res
    }

    /// The first state of a game, with both decks shuffled by `rng`.
    pub fn starting_seeded(no_players: u8, starting_player: u8, rng: &mut StdRng) -> (res: Self)
        requires
            3 <= no_players <= 6,
            starting_player < no_players,
        ensures
            res.wf(),
            res@ == GameStateView::start(
                no_players,
                starting_player,
                res@.remaining_properties,
                res@.remaining_checks,
            ),
            res@.remaining_properties.to_multiset() == fresh_properties().to_multiset(),
            res@.remaining_checks.to_multiset() == fresh_checks().to_multiset(),
    {
        let mut remaining_properties = new_properties();
        shuffle_cards(&mut remaining_properties, rng);
        let mut remaining_checks = new_checks();
        shuffle_cards(&mut remaining_checks, rng);
        Self::starting_with_decks(
            no_players,
            starting_player,
            remaining_properties,
            remaining_checks,
        )
    }

    /// The first state of a game, with both decks shuffled from the
    /// system's entropy, or from a fixed seed where the system gives none.
    pub fn starting(no_players: u8, starting_player: u8) -> (res: Self)
        requires
            3 <= no_players <= 6,
            starting_player < no_players,
        ensures
            res.wf(),
            res@ == GameStateView::start(
                no_players,
                starting_player,
                res@.remaining_properties,
                res@.remaining_checks,
            ),
            res@.remaining_properties.to_multiset() == fresh_properties().to_multiset(),
            res@.remaining_checks.to_multiset() == fresh_checks().to_multiset(),
    {
        let mut rng = fresh_rng();
        Self::starting_seeded(no_players, starting_player, &mut rng)
    }

    /// The player who decided before the current one.
    pub fn previous_player(&self) -> (res: Player)
        requires
            self@.previous_decision_player is Some,
        ensures
            Some(res) == self@.previous_decision_player,
    {
        self.previous_decision_player.unwrap()
    }

    /// The player to decide.
    pub fn current_player(&self) -> (res: Player)
        requires
            self@.current_decision_player is Some,
        ensures
            Some(res) == self@.current_decision_player,
    {
        self.current_decision_player.unwrap()
    }

    /// The phase of the game.
    pub fn game_phase(&self) -> (res: GamePhase)
        ensures
            res == self@.game_phase,
    {
        self.game_phase
    }

    /// Gives `amount` coins to `player`.
    pub fn add_coins(&mut self, player: Player, amount: u8)
        requires
            old(self).wf(),
            player < old(self)@.no_players,
            old(self)@.coins[player as int] + amount <= u8::MAX,
        ensures
            final(self).wf(),
            final(self)@ == old(self)@.coins_added(player, amount),
    {
        let held: u8 = self.coins[player as usize];
        self.coins.set(player as usize, held + amount);
        proof {
            assert(self@.properties =~= old(self)@.properties);
            assert(self@.checks =~= old(self)@.checks);
        }
    }

    /// Takes `amount` coins from `player`.
    pub fn remove_coins(&mut self, player: Player, amount: u8)
        requires
            old(self).wf(),
            player < old(self)@.no_players,
            old(self)@.coins[player as int] >= amount,
        ensures
            final(self).wf(),
            final(self)@ == old(self)@.coins_removed(player, amount),
    {
        let held: u8 = self.coins[player as usize];
        self.coins.set(player as usize, held - amount);
        proof {
            assert(self@.properties =~= old(self)@.properties);
            assert(self@.checks =~= old(self)@.checks);
        }
    }

    /// The number of the turn.
    pub fn turn_no(&self) -> (res: u32)
        ensures
            res == self@.turn_no,
    {
        self.turn_no
    }

    /// Moves the turn counter on by `amount`.
    pub fn add_turn_no(&mut self, amount: u32)
        requires
            old(self).wf(),
            old(self)@.turn_no + amount <= u32::MAX,
        ensures
            final(self).wf(),
            final(self)@ == old(self)@.turns_added(amount),
    {
        self.turn_no = self.turn_no + amount;
        proof {
            assert(self@.properties =~= old(self)@.properties);
            assert(self@.checks =~= old(self)@.checks);
        }
    }

    /// The number of the round.
    pub fn round_no(&self) -> (res: u8)
        ensures
            res == self@.round_no,
    {
        self.round_no
    }

    /// Moves the round counter on by `amount`.
    pub fn add_round_no(&mut self, amount: u8)
        requires
            old(self).wf(),
            old(self)@.round_no + amount <= u8::MAX,
        ensures
            final(self).wf(),
            final(self)@ == old(self)@.rounds_added(amount),
    {
        self.round_no = self.round_no + amount;
        proof {
            assert(self@.properties =~= old(self)@.properties);
            assert(self@.checks =~= old(self)@.checks);
        }
    }

    /// The number of players.
    pub fn no_players(&self) -> (res: u8)
        ensures
            res == self@.no_players,
    {
        self.no_players
    }

    /// The table of every player's properties.
    pub fn get_properties(&self) -> (res: &AHashMap<Player, Vec<Property>>)
        requires
            self.wf(),
        ensures
            forall|p: u8|
                p < self@.no_players ==> #[trigger] holdings(*res).contains_key(p) && holdings(
                    *res,
                )[p] == self@.properties[p as int],
    {
        &self.properties
    }

    /// The properties of `player`, in ascending order.
    pub fn get_player_properties(&self, player: Player) -> (res: &Vec<Property>)
        requires
            self.wf(),
            player < self@.no_players,
        ensures
            res@ == self@.properties[player as int],
    {
        holdings_get(&self.properties, player).unwrap()
    }

    /// The coins of `player`.
    pub fn get_player_coins(&self, player: Player) -> (res: Coins)
        requires
            self.wf(),
            player < self@.no_players,
        ensures
            res == self@.coins[player as int],
    {
        self.coins[player as usize]
    }

    /// The checks of `player`, in ascending order.
    pub fn get_player_checks(&self, player: Player) -> (res: &Vec<Check>)
        requires
            self.wf(),
            player < self@.no_players,
        ensures
            res@ == self@.checks[player as int],
    {
        holdings_get(&self.checks, player).unwrap()
    }

    /// The checks not yet revealed.
    pub fn get_remaining_checks(&self) -> (res: &Vec<Check>)
        ensures
            res@ == self@.remaining_checks,
    {
        &self.remaining_checks
    }

    /// The properties not yet revealed.
    pub fn get_remaining_properties(&self) -> (res: &Vec<Property>)
        ensures
            res@ == self@.remaining_properties,
    {
        &self.remaining_properties
    }

    /// The coins of every player.
    pub fn get_coins(&self) -> (res: &Vec<Coins>)
        ensures
            res@ == self@.coins,
    {
        &self.coins
    }

    /// Whether nothing is on offer.
    pub fn auction_end(&self) -> (res: bool)
        ensures
            res == self@.auction_end(),
    {
        self.auction_pool.len() == 0
    }

    /// Puts `check` into the checks of `player`, in ascending order.
    pub fn insert_check_ascending(&mut self, player: Player, check: Check)
        requires
            old(self).wf(),
            player < old(self)@.no_players,
        ensures
            final(self).wf(),
            final(self)@ == old(self)@.check_inserted(player, check),
    {
        let mut hand: Vec<u8> = holdings_get(&self.checks, player).unwrap().clone();
        proof {
            assert(hand@ =~= old(self)@.checks[player as int]);
            lemma_insert_ascending(hand@, check);
        }
        insert_in_order(&mut hand, check);
        holdings_insert(&mut self.checks, player, hand);
        proof {
            assert(self@.properties =~= old(self)@.properties);
            assert(self@.checks =~= old(self)@.check_inserted(player, check).checks);
        }
    }

    /// Puts `property` into the properties of `player`, in ascending order.
    pub fn insert_property_ascending(&mut self, player: Player, property: Property)
        requires
            old(self).wf(),
            player < old(self)@.no_players,
        ensures
            final(self).wf(),
            final(self)@ == old(self)@.property_inserted(player, property),
    {
        let mut hand: Vec<u8> = holdings_get(&self.properties, player).unwrap().clone();
        proof {
            assert(hand@ =~= old(self)@.properties[player as int]);
            lemma_insert_ascending(hand@, property);
        }
        insert_in_order(&mut hand, property);
        holdings_insert(&mut self.properties, player, hand);
        proof {
            assert(self@.checks =~= old(self)@.checks);
            assert(self@.properties =~= old(self)@.property_inserted(player, property).properties);
        }
    }

    /// Takes `player` out of the auction.
    pub fn player_now_inactive(&mut self, player: Player)
        requires
            old(self).wf(),
            player < old(self)@.no_players,
        ensures
            final(self).wf(),
            final(self)@ == old(self)@.deactivated(player),
    {
        self.active_players.set(player as usize, false);
        proof {
            assert(self@.properties =~= old(self)@.properties);
            assert(self@.checks =~= old(self)@.checks);
        }
    }

    /// Clears every bid and puts every player back into the auction; the
    /// winner of the round decides next.
    pub fn reset_round(&mut self)
        requires
            old(self).wf(),
        ensures
            final(self).wf(),
            final(self)@ == old(self)@.round_reset(),
    {
        let mut i: usize = 0;
        while i < self.active_bids.len()
            invariant
                i <= self.active_bids.len(),
                self.active_bids.len() == old(self).active_bids.len(),
                forall|j: int| 0 <= j < i ==> self.active_bids@[j] == 0,
                self.game_phase == old(self).game_phase,
                self.no_players == old(self).no_players,
                self.coins == old(self).coins,
                self.properties == old(self).properties,
                self.checks == old(self).checks,
                self.previous_decision_player == old(self).previous_decision_player,
                self.current_decision_player == old(self).current_decision_player,
                self.active_players == old(self).active_players,
                self.auction_pool == old(self).auction_pool,
                self.remaining_properties == old(self).remaining_properties,
                self.remaining_checks == old(self).remaining_checks,
                self.round_winner == old(self).round_winner,
                self.round_no == old(self).round_no,
                self.turn_no == old(self).turn_no,
                self.path_encoding == old(self).path_encoding,
                self.parent_len == old(self).parent_len,
            decreases self.active_bids.len() - i,
        {
            self.active_bids.set(i, 0);
            i += 1;
        }
        let mut k: usize = 0;
        while k < self.active_players.len()
            invariant
                k <= self.active_players.len(),
                self.active_players.len() == old(self).active_players.len(),
                forall|j: int| 0 <= j < k ==> self.active_players@[j],
                self.active_bids.len() == old(self).active_bids.len(),
                forall|j: int| 0 <= j < self.active_bids.len() ==> self.active_bids@[j] == 0,
                self.game_phase == old(self).game_phase,
                self.no_players == old(self).no_players,
                self.coins == old(self).coins,
                self.properties == old(self).properties,
                self.checks == old(self).checks,
                self.previous_decision_player == old(self).previous_decision_player,
                self.current_decision_player == old(self).current_decision_player,
                self.auction_pool == old(self).auction_pool,
                self.remaining_properties == old(self).remaining_properties,
                self.remaining_checks == old(self).remaining_checks,
                self.round_winner == old(self).round_winner,
                self.round_no == old(self).round_no,
                self.turn_no == old(self).turn_no,
                self.path_encoding == old(self).path_encoding,
                self.parent_len == old(self).parent_len,
            decreases self.active_players.len() - k,
        {
            self.active_players.set(k, true);
            k += 1;
        }
        self.previous_decision_player = self.current_decision_player;
        self.current_decision_player = self.round_winner;
        proof {
            let target = old(self)@.round_reset();
            assert(self@.active_bids =~= target.active_bids);
            assert(self@.active_players =~= target.active_players);
            assert(self@.properties =~= target.properties);
            assert(self@.checks =~= target.checks);
        }
    }

    /// Whether the round of bidding is over: nothing is on offer.
    pub fn bid_round_end(&self) -> (res: bool)
        requires
            self.wf(),
        ensures
            res == self@.auction_end(),
    {
        self.auction_properties_remaining() == 0
    }

    /// How many cards are on offer.
    pub fn auction_properties_remaining(&self) -> (res: u8)
        requires
            self.wf(),
        ensures
            res == self@.auction_pool.len(),
    {
        self.auction_pool.len() as u8
    }

    /// The key of the state.
    pub fn get_path_encoding(&self) -> (res: String)
        ensures
            res@ == self@.path_encoding,
    {
        self.path_encoding.clone()
    }

    /// Appends to the key the segment of the cards on offer (a reveal) or
    /// of the players' offers (a sale).
    pub fn update_path_encoding_vec(&mut self, bool_reveal_cards: bool)
        requires
            old(self).wf(),
        ensures
            final(self).wf(),
            final(self)@ == old(self)@.batch_recorded(bool_reveal_cards),
    {
        let start: usize = self.path_encoding.as_str().unicode_len();
        proof {
            reveal_strlit("|R");
            reveal_strlit("|S");
            lemma_parent_of_batch(
                old(self)@.path_encoding,
                bool_reveal_cards,
                if bool_reveal_cards {
                    old(self)@.auction_pool
                } else {
                    old(self)@.active_bids
                },
            );
        }
        if bool_reveal_cards {
            self.path_encoding.append("|R");
            append_joined(&mut self.path_encoding, &self.auction_pool);
        } else {
            self.path_encoding.append("|S");
            append_joined(&mut self.path_encoding, &self.active_bids);
        }
        self.parent_len = start;
        proof {
            let target = old(self)@.batch_recorded(bool_reveal_cards);
            assert(self@.path_encoding =~= target.path_encoding);
            assert(self@.properties =~= target.properties);
            assert(self@.checks =~= target.checks);
        }
    }

    /// Appends to the key the segment of one player's action.
    pub fn update_path_encoding_action(&mut self, player: Player, action: u8)
        requires
            old(self).wf(),
        ensures
            final(self).wf(),
            final(self)@ == old(self)@.action_recorded(player, action),
    {
        let start: usize = self.path_encoding.as_str().unicode_len();
        proof {
            reveal_strlit("|");
            reveal_strlit("P");
            lemma_parent_of_action(old(self)@.path_encoding, player, action);
        }
        self.path_encoding.append("|");
        append_decimal(&mut self.path_encoding, action);
        self.path_encoding.append("P");
        append_decimal(&mut self.path_encoding, player);
        self.parent_len = start;
        proof {
            let target = old(self)@.action_recorded(player, action);
            assert(self@.path_encoding =~= target.path_encoding);
            assert(self@.properties =~= target.properties);
            assert(self@.checks =~= target.checks);
        }
    }

    /// The text that shows what every player holds and what is on offer.
    pub fn get_state_encoding(&self) -> (res: String)
        requires
            self.wf(),
        ensures
            res@ == self@.state_encoding(),
    {
        proof {
            reveal_strlit("|c");
            reveal_strlit("|p");
            reveal_strlit("|ch");
            reveal_strlit("|b");
            reveal_strlit("|a");
        }
        let mut out: String = self.game_phase.name();
        out.append("|c");
        append_packed(&mut out, &self.coins);
        out.append("|p");
        let ghost base = out@;
        let mut p: u8 = 0;
        while p < self.no_players
            invariant
                self.wf(),
                p <= self.no_players,
                out@ == base + packed_hands(self@.properties.take(p as int)),
            decreases self.no_players - p,
        {
            proof {
                assert(self@.properties.take(p + 1).drop_last() =~= self@.properties.take(
                    p as int,
                ));
                assert(self@.properties.take(p + 1).last() == self@.properties[p as int]);
                assert(self@.properties.take(p + 1)[0] == self@.properties[0]);
            }
            let ghost before = out@;
            if p > 0 {
                proof {
                    reveal_strlit("-");
                }
                out.append("-");
                assert(out@ =~= before.push('-'));
            }
            append_packed(&mut out, holdings_get(&self.properties, p).unwrap());
            assert(out@ =~= base + packed_hands(self@.properties.take(p + 1)));
            p += 1;
        }
        proof {
            assert(self@.properties.take(self.no_players as int) =~= self@.properties);
        }
        out.append("|ch");
        let ghost base2 = out@;
        let mut q: u8 = 0;
        while q < self.no_players
            invariant
                self.wf(),
                q <= self.no_players,
                out@ == base2 + packed_hands(self@.checks.take(q as int)),
            decreases self.no_players - q,
        {
            proof {
                assert(self@.checks.take(q + 1).drop_last() =~= self@.checks.take(q as int));
                assert(self@.checks.take(q + 1).last() == self@.checks[q as int]);
                assert(self@.checks.take(q + 1)[0] == self@.checks[0]);
            }
            let ghost before = out@;
            if q > 0 {
                proof {
                    reveal_strlit("-");
                }
                out.append("-");
                assert(out@ =~= before.push('-'));
            }
            append_packed(&mut out, holdings_get(&self.checks, q).unwrap());
            assert(out@ =~= base2 + packed_hands(self@.checks.take(q + 1)));
            q += 1;
        }
        proof {
            assert(self@.checks.take(self.no_players as int) =~= self@.checks);
        }
        out.append("|b");
        append_packed(&mut out, &self.active_bids);
        out.append("|a");
        append_packed(&mut out, &self.auction_pool);
        assert(out@ =~= self@.state_encoding());
        out
    }

    /// The key of the state that this one was reached from: the key without
    /// its last segment.
    pub fn get_parent_encoding(&self) -> (res: String)
        requires
            self.wf(),
        ensures
            res@ == parent_of(self@.path_encoding),
    {
        proof {
            lemma_last_bar_range(self.path_encoding@);
        }
        String::from_str(self.path_encoding.as_str().substring_char(0, self.parent_len))
    }

    /// The player who decides after the current one.
    pub fn next_player_bid(&self) -> (res: Player)
        requires
            self.wf(),
            self@.can_next_player_bid(),
        ensures
            res == self@.next_player_bid(),
            res < self@.no_players,
            self@.auction_pool.len() > 0 ==> self@.active_players[res as int],
    {
        if self.auction_properties_remaining() == 0 {
            return self.round_winner.unwrap();
        }
        let start: u8 = self.current_decision_player.unwrap();
        let mut index: u8 = start;
        let ghost witness: int = choose|k: int|
            0 <= k < self@.n() && #[trigger] self@.active_players[k];
        let ghost mut fuel: nat = self.no_players as nat;
        proof {
            lemma_next_active(self@.active_players, start as int);
        }
        loop
            invariant
                self.wf(),
                index < self.no_players,
                0 <= witness < self.no_players,
                self.active_players@[witness],
                fuel >= (if index < witness {
                    witness - index
                } else {
                    witness + self.no_players - index
                }),
                seek_active(self.active_players@, index as int, fuel) == next_active(
                    self.active_players@,
                    start as int,
                ),
                0 <= next_active(self.active_players@, start as int) < self.no_players,
                self.active_players@[next_active(self.active_players@, start as int)],
                self@.auction_pool.len() > 0,
                self.current_decision_player == Some(start),
            decreases fuel,
        {
            if index + 1 == self.no_players {
                index = 0;
            } else {
                index += 1;
            }
            if self.active_players[index as usize] {
                return index;
            }
            proof {
                fuel = (fuel - 1) as nat;
            }
        }
    }

    /// Moves the game into its second phase.
    pub fn next_game_phase(&mut self)
        requires
            old(self).wf(),
        ensures
            final(self).wf(),
            final(self)@ == old(self)@.sell_phase(),
    {
        self.game_phase = GamePhase::Sell;
        proof {
            assert(self@.properties =~= old(self)@.properties);
            assert(self@.checks =~= old(self)@.checks);
        }
    }

    /// What `player` may do now: bids in the first phase, properties to
    /// offer in the second.
    pub fn legal_moves(&self, player: Player) -> (res: Vec<u8>)
        requires
            self.wf(),
            player < self@.no_players,
        ensures
            res@ == self@.legal_moves(player),
    {
        match self.game_phase() {
            GamePhase::Bid => self.legal_moves_bid(player),
            GamePhase::Sell => self.legal_moves_sell(player),
        }
    }

    /// The bids open to `player`: 0, a fold, then every increment from the
    /// least that tops the highest bid up to all the player's coins.
    pub fn legal_moves_bid(&self, player: Player) -> (res: Vec<Coins>)
        requires
            self.wf(),
            player < self@.no_players,
        ensures
            res@ == self@.legal_moves_bid(player),
    {
        let highest_bid: u8 = highest_of(&self.active_bids);
        let wealth: Coins = self.coins[player as usize];
        let player_current_bid: Coins = self.active_bids[player as usize];
        proof {
            crate::models::cards::lemma_highest(self.active_bids@);
        }
        let mut actions: Vec<Coins> = Vec::with_capacity(wealth as usize);
        actions.push(0);
        if wealth as u16 + player_current_bid as u16 <= highest_bid as u16 {
            assert(actions@ =~= self@.legal_moves_bid(player));
            return actions;
        }
        let first: u8 = highest_bid - player_current_bid + 1;
        let count: u8 = wealth - first + 1;
        let mut i: u8 = 0;
        while i < count
            invariant
                i <= count,
                first + count - 1 == wealth,
                first == highest_bid + 1 - player_current_bid,
                actions@.len() == 1 + i,
                actions@[0] == 0,
                forall|j: int| 1 <= j < 1 + i ==> actions@[j] == first + j - 1,
            decreases count - i,
        {
            actions.push(first + i);
            i += 1;
        }
        assert(actions@ =~= self@.legal_moves_bid(player));
        actions
    }

    /// The properties that `player` may offer.
    pub fn legal_moves_sell(&self, player: Player) -> (res: Vec<Property>)
        requires
            self.wf(),
            player < self@.no_players,
        ensures
            res@ == self@.legal_moves_sell(player),
    {
        let hand = holdings_get(&self.properties, player).unwrap().clone();
        assert(hand@ =~= self@.properties[player as int]);
        hand
    }

    /// Raises the bid of `player` by `amount`.
    pub fn increase_bid(&mut self, player: Player, amount: Coins)
        requires
            old(self).wf(),
            player < old(self)@.no_players,
            old(self)@.active_players[player as int],
            old(self)@.active_bids[player as int] + amount <= u8::MAX,
        ensures
            final(self).wf(),
            final(self)@ == old(self)@.bid_increased(player, amount),
    {
        let bid: u8 = self.active_bids[player as usize];
        self.active_bids.set(player as usize, bid + amount);
        proof {
            assert(self@.properties =~= old(self)@.properties);
            assert(self@.checks =~= old(self)@.checks);
        }
    }

    /// Moves the lowest card on offer into the player's properties.
    pub fn take_card(&mut self, player: Player)
        requires
            old(self).wf(),
            player < old(self)@.no_players,
            old(self)@.auction_pool.len() > 0,
        ensures
            final(self).wf(),
            final(self)@ == old(self)@.card_taken(player),
    {
        let property: Property = self.auction_pool.pop().unwrap();
        proof {
            assert(self@.properties =~= old(self)@.properties);
            assert(self@.checks =~= old(self)@.checks);
            assert(self.wf());
        }
        self.insert_property_ascending(player, property);
    }

    /// Gives the last card on offer to the winner and starts a new round.
    pub fn win_bid(&mut self, player: Player)
        requires
            old(self).wf(),
            player < old(self)@.no_players,
            old(self)@.auction_pool.len() > 0,
        ensures
            final(self).wf(),
            final(self)@ == old(self)@.bid_won(player),
    {
        self.round_winner = Some(player);
        proof {
            assert(self@.properties =~= old(self)@.properties);
            assert(self@.checks =~= old(self)@.checks);
            assert(self.wf());
        }
        self.take_card(player);
        self.reset_round();
    }

    /// Takes the player out of the auction with the lowest card on offer
    /// and half of the bid back, rounded down.
    pub fn fold_bid(&mut self, player: Player)
        requires
            old(self).wf(),
            old(self)@.can_fold(player),
        ensures
            final(self).wf(),
            final(self)@ == old(self)@.bid_folded(player),
    {
        let coins_returned: Coins = self.active_bids[player as usize] / 2;
        self.add_coins(player, coins_returned);
        self.take_card(player);
        self.player_now_inactive(player);
        let ghost mid = self@;
        self.active_bids.set(player as usize, 0);
        proof {
            assert(self@.properties =~= mid.properties);
            assert(self@.checks =~= mid.checks);
        }
    }

    /// Moves `amount` coins of the player into the player's bid.
    pub fn raise_bid(&mut self, player: Player, amount: Coins)
        requires
            old(self).wf(),
            old(self)@.can_raise(player, amount),
        ensures
            final(self).wf(),
            final(self)@ == old(self)@.bid_raised(player, amount),
    {
        self.remove_coins(player, amount);
        self.increase_bid(player, amount);
    }

    /// Deals the top batch of the current phase's deck, one card per
    /// player, and lays it out from the highest to the lowest.
    pub fn reveal_auction(&mut self)
        requires
            old(self).wf(),
            old(self)@.can_reveal(),
        ensures
            final(self).wf(),
            final(self)@ == old(self)@.revealed(),
            final(self)@.auction_pool.len() == old(self)@.no_players,
    {
        let n: usize = self.no_players as usize;
        let batch: Vec<u8> = match self.game_phase {
            GamePhase::Bid => {
                let cut: usize = self.remaining_properties.len() - n;
                self.remaining_properties.split_off(cut)
            },
            GamePhase::Sell => {
                let cut: usize = self.remaining_checks.len() - n;
                self.remaining_checks.split_off(cut)
            },
        };
        self.auction_pool = sorted_descending(&batch);
        proof {
            let cut = old(self)@.deck().len() - n;
            assert(batch@ =~= old(self)@.deck().skip(cut));
            assert(self@.deck() =~= old(self)@.deck().take(cut));
            lemma_sort_descending(batch@);
            assert(self@.properties =~= old(self)@.properties);
            assert(self@.checks =~= old(self)@.checks);
            assert(self.wf());
        }
        self.update_path_encoding_vec(true);
    }

    /// Lays out the given batch from the highest to the lowest, and takes
    /// one card for each card of the batch out of the current phase's deck.
    pub fn reveal_auction_manual(&mut self, values: Vec<u8>)
        requires
            old(self).wf(),
            old(self)@.can_reveal(),
            old(self)@.is_batch(values@),
        ensures
            final(self).wf(),
            final(self)@ == old(self)@.revealed_with(values@),
            final(self)@.auction_pool.len() == old(self)@.no_players,
    {
        match self.game_phase {
            GamePhase::Bid => {
                self.remaining_properties = remove_each(&self.remaining_properties, &values);
            },
            GamePhase::Sell => {
                self.remaining_checks = remove_each(&self.remaining_checks, &values);
            },
        }
        self.auction_pool = sorted_descending(&values);
        proof {
            lemma_sort_descending(values@);
            assert(self@.properties =~= old(self)@.properties);
            assert(self@.checks =~= old(self)@.checks);
            assert(self.wf());
        }
        self.update_path_encoding_vec(true);
    }

    /// The state in which `values` has been revealed.
    pub fn reveal_with(&self, values: Vec<u8>) -> (res: Self)
        requires
            self.wf(),
            self@.can_reveal(),
            self@.is_batch(values@),
        ensures
            res.wf(),
            res@ == self@.revealed_with(values@),
    {
        let mut child = self.clone();
        child.reveal_auction_manual(values);
        child
    }

    /// The states that a reveal may lead to. Exhaustive: one state for every
    /// selection of one card per player from the deck. Sampled: `n_sample`
    /// states, each for a batch drawn from the deck by `rng`.
    pub fn reveal_auction_perms(&self, random_sample: bool, n_sample: u32, rng: &mut StdRng) -> (res:
        Vec<Self>)
        requires
            self.wf(),
            self@.can_reveal(),
        ensures
            res@.len() == (if random_sample {
                n_sample as nat
            } else {
                subsets_of(self@.deck(), self@.no_players as nat).len()
            }),
            forall|i: int| 0 <= i < res@.len() ==> (#[trigger] res@[i]).wf(),
            forall|i: int| 0 <= i < res@.len() ==> self@.reveals_to((#[trigger] res@[i])@),
            !random_sample ==> forall|i: int|
                0 <= i < res@.len() ==> (#[trigger] res@[i])@ == self@.revealed_with(
                    subsets_of(self@.deck(), self@.no_players as nat)[i],
                ),
            !random_sample ==> forall|i: int|
                0 <= i < res@.len() ==> self@.is_batch(
                    #[trigger] subsets_of(self@.deck(), self@.no_players as nat)[i],
                ),
    {
        let mut results: Vec<GameState> = Vec::new();
        let n: usize = self.no_players as usize;
        if random_sample {
            let mut i: u32 = 0;
            while i < n_sample
                invariant
                    self.wf(),
                    self@.can_reveal(),
                    n == self.no_players,
                    i <= n_sample,
                    results@.len() == i,
                    forall|j: int| 0 <= j < results@.len() ==> (#[trigger] results@[j]).wf(),
                    forall|j: int|
                        0 <= j < results@.len() ==> self@.reveals_to((#[trigger] results@[j])@),
                decreases n_sample - i,
            {
                let sampled: Vec<u8> = match self.game_phase {
                    GamePhase::Bid => choose_cards(&self.remaining_properties, n, rng),
                    GamePhase::Sell => choose_cards(&self.remaining_checks, n, rng),
                };
                let ghost values = sampled@;
                let child = self.reveal_with(sampled);
                proof {
                    assert(self@.is_batch(values));
                }
                results.push(child);
                i += 1;
            }
        } else {
            let batches: Vec<Vec<u8>> = match self.game_phase {
                GamePhase::Bid => combinations(&self.remaining_properties, n),
                GamePhase::Sell => combinations(&self.remaining_checks, n),
            };
            let mut i: usize = 0;
            while i < batches.len()
                invariant
                    self.wf(),
                    self@.can_reveal(),
                    n == self.no_players,
                    i <= batches@.len(),
                    results@.len() == i,
                    batches@.len() == subsets_of(self@.deck(), n as nat).len(),
                    forall|j: int|
                        0 <= j < batches@.len() ==> (#[trigger] batches@[j])@ == subsets_of(
                            self@.deck(),
                            n as nat,
                        )[j],
                    forall|j: int| 0 <= j < results@.len() ==> (#[trigger] results@[j]).wf(),
                    forall|j: int|
                        0 <= j < results@.len() ==> self@.reveals_to((#[trigger] results@[j])@),
                    forall|j: int|
                        0 <= j < results@.len() ==> (#[trigger] results@[j])@
                            == self@.revealed_with(subsets_of(self@.deck(), n as nat)[j]),
                    forall|j: int|
                        0 <= j < results@.len() ==> self@.is_batch(
                            #[trigger] subsets_of(self@.deck(), n as nat)[j],
                        ),
                decreases batches@.len() - i,
            {
                let batch: Vec<u8> = batches[i].clone();
                proof {
                    assert(batch@ =~= batches@[i as int]@);
                    lemma_subsets(self@.deck(), n as nat, i as int);
                    assert(self@.is_batch(batch@));
                }
                let child = self.reveal_with(batch);
                results.push(child);
                i += 1;
            }
        }
        results
    }

    /// The state that follows: a reveal where no auction is under way, else
    /// the player's bid.
    pub fn generate_next_state_bid(&self, player: Player, action: Coins) -> (res: Self)
        requires
            self.wf(),
            self@.auction_end() ==> self@.can_reveal(),
            !self@.auction_end() ==> self@.can_bid(player, action),
        ensures
            res.wf(),
            res@ == (if self@.auction_end() {
                self@.revealed()
            } else {
                self@.next_bid(player, action)
            }),
    {
        if self.auction_end() {
            let mut new_state: GameState = self.clone();
            new_state.reveal_auction();
            new_state
        } else {
            self.manual_next_state_bid(player, action)
        }
    }

    /// The state that follows in the second phase: a reveal, with the
    /// offers cleared, where no checks are on offer, else the sale.
    pub fn generate_next_state_sell(&mut self, player_choices: Vec<Property>) -> (res: Self)
        requires
            old(self).wf(),
            player_choices@.len() == old(self)@.no_players,
            old(self)@.auction_end() ==> old(self)@.can_reveal(),
            !old(self)@.auction_end() ==> old(self)@.can_sell(player_choices@),
        ensures
            final(self).wf(),
            final(self)@ == old(self)@,
            res.wf(),
            res@ == (if old(self)@.auction_end() {
                old(self)@.revealed().offers_cleared()
            } else {
                old(self)@.next_sell(player_choices@)
            }),
    {
        if self.auction_end() {
            let mut new_state = self.clone();
            new_state.reveal_auction();
            let ghost mid = new_state@;
            let mut cleared: Vec<u8> = Vec::with_capacity(6);
            let mut k: u8 = 0;
            while k < 6
                invariant
                    k <= 6,
                    cleared@.len() == k,
                    forall|j: int| 0 <= j < k ==> cleared@[j] == 0,
                decreases 6 - k,
            {
                cleared.push(0);
                k += 1;
            }
            new_state.active_bids = cleared;
            proof {
                let target = mid.offers_cleared();
                assert(new_state@.active_bids =~= target.active_bids);
                assert(new_state@.properties =~= target.properties);
                assert(new_state@.checks =~= target.checks);
            }
            new_state
        } else {
            self.manual_next_state_sell(player_choices)
        }
    }

    /// The state after `player` bids `action`: 0 folds, anything else
    /// raises the player's bid by that much.
    pub fn manual_next_state_bid(&self, player: Player, action: Coins) -> (res: Self)
        requires
            self.wf(),
            self@.can_bid(player, action),
        ensures
            res.wf(),
            res@ == self@.next_bid(player, action),
    {
        let mut new_state: GameState = self.clone();
        if action == 0 {
            new_state.fold_bid(player);
            if new_state.auction_properties_remaining() == 1 {
                new_state.win_bid(self.next_player_bid());
            } else {
                proof {
                    let k = choose|k: int|
                        0 <= k < self@.n() && k != player && #[trigger] self@.active_players[k];
                    assert(new_state@.active_players[k]);
                }
                let ghost mid = new_state@;
                let next: u8 = new_state.next_player_bid();
                new_state.previous_decision_player = new_state.current_decision_player;
                new_state.current_decision_player = Some(next);
                proof {
                    assert(new_state@.properties =~= mid.properties);
                    assert(new_state@.checks =~= mid.checks);
                }
            }
        } else {
            new_state.raise_bid(player, action);
            proof {
                assert(new_state@.active_players[player as int]);
            }
            let ghost mid = new_state@;
            let next: u8 = new_state.next_player_bid();
            new_state.previous_decision_player = new_state.current_decision_player;
            new_state.current_decision_player = Some(next);
            proof {
                assert(new_state@.properties =~= mid.properties);
                assert(new_state@.checks =~= mid.checks);
            }
        }
        new_state.add_turn_no(1);
        if new_state.auction_end() {
            new_state.add_round_no(1);
            if new_state.remaining_properties.len() == 0 {
                let ghost mid = new_state@;
                new_state.game_phase = GamePhase::Sell;
                proof {
                    assert(new_state@.properties =~= mid.properties);
                    assert(new_state@.checks =~= mid.checks);
                }
            }
        }
        new_state.update_path_encoding_action(player, action);
        new_state
    }

    /// The state after every player has offered one property: offers are
    /// served from the lowest, and of equal offers the lower seat first,
    /// each with the lowest check not yet claimed.
    pub fn manual_next_state_sell(&mut self, player_choices: Vec<Property>) -> (res: Self)
        requires
            old(self).wf(),
            old(self)@.can_sell(player_choices@),
        ensures
            final(self).wf(),
            final(self)@ == old(self)@,
            res.wf(),
            res@ == old(self)@.next_sell(player_choices@),
    {
        let mut new_state = self.clone();
        new_state.active_bids = player_choices.clone();
        let n: u8 = self.no_players;
        let pool_len: usize = self.auction_pool.len();
        proof {
            assert(new_state.active_bids@ =~= player_choices@);
            assert(new_state@.properties =~= self@.properties);
            assert(new_state@.checks =~= self@.checks);
            let target = GameStateView {
                active_bids: player_choices@,
                checks: Seq::new(
                    n as nat,
                    |q: int|
                        if q < 0 {
                            insert_ascending(self@.checks[q], self@.check_for(player_choices@, q))
                        } else {
                            self@.checks[q]
                        },
                ),
                properties: Seq::new(
                    n as nat,
                    |q: int|
                        if q < 0 {
                            without(self@.properties[q], seq![player_choices@[q]])
                        } else {
                            self@.properties[q]
                        },
                ),
                ..self@
            };
            assert(new_state@.checks =~= target.checks);
            assert(new_state@.properties =~= target.properties);
            assert(new_state@ == target);
        }
        let mut p: u8 = 0;
        while p < n
            invariant
                self.wf(),
                self@.can_sell(player_choices@),
                n == self.no_players,
                pool_len == self.auction_pool@.len(),
                p <= n,
                new_state.wf(),
                new_state@ == (GameStateView {
                    active_bids: player_choices@,
                    checks: Seq::new(
                        n as nat,
                        |q: int|
                            if q < p {
                                insert_ascending(
                                    self@.checks[q],
                                    self@.check_for(player_choices@, q),
                                )
                            } else {
                                self@.checks[q]
                            },
                    ),
                    properties: Seq::new(
                        n as nat,
                        |q: int|
                            if q < p {
                                without(self@.properties[q], seq![player_choices@[q]])
                            } else {
                                self@.properties[q]
                            },
                    ),
                    ..self@
                }),
            decreases n - p,
        {
            let offer: u8 = player_choices[p as usize];
            let mut rank: usize = 0;
            let mut q: u8 = 0;
            while q < n
                invariant
                    q <= n,
                    n == player_choices@.len(),
                    p < n,
                    offer == player_choices@[p as int],
                    rank == offers_before(player_choices@, p as int, q as int),
                    rank <= q,
                decreases n - q,
            {
                let other: u8 = player_choices[q as usize];
                if other < offer || (other == offer && q < p) {
                    rank += 1;
                }
                q += 1;
            }
            proof {
                lemma_offers_before_bound(player_choices@, p as int, n as int);
            }
            let check: u8 = self.auction_pool[pool_len - 1 - rank];
            let ghost before = new_state@;
            new_state.insert_check_ascending(p, check);
            let mut sold: Vec<u8> = Vec::new();
            sold.push(offer);
            let hand: Vec<u8> = remove_values(
                holdings_get(&new_state.properties, p).unwrap(),
                &sold,
            );
            let ghost mid = new_state@;
            proof {
                assert(sold@ =~= seq![offer]);
                lemma_without(mid.properties[p as int], sold@);
            }
            holdings_insert(&mut new_state.properties, p, hand);
            proof {
                assert(new_state@.checks =~= mid.checks);
                assert(new_state@.properties =~= mid.properties.update(p as int, hand@));
                let target = GameStateView {
                    active_bids: player_choices@,
                    checks: Seq::new(
                        n as nat,
                        |q: int|
                            if q < p + 1 {
                                insert_ascending(
                                    self@.checks[q],
                                    self@.check_for(player_choices@, q),
                                )
                            } else {
                                self@.checks[q]
                            },
                    ),
                    properties: Seq::new(
                        n as nat,
                        |q: int|
                            if q < p + 1 {
                                without(self@.properties[q], seq![player_choices@[q]])
                            } else {
                                self@.properties[q]
                            },
                    ),
                    ..self@
                };
                assert(new_state@.checks =~= target.checks);
                assert(new_state@.properties =~= target.properties);
                assert(new_state@ == target);
            }
            p += 1;
        }
        let ghost mid = new_state@;
        new_state.auction_pool.truncate(pool_len - n as usize);
        proof {
            assert(new_state@.properties =~= mid.properties);
            assert(new_state@.checks =~= mid.checks);
            assert(new_state@.auction_pool =~= self@.auction_pool.take(pool_len - n));
        }
        new_state.add_turn_no(1);
        new_state.add_round_no(1);
        new_state.update_path_encoding_vec(false);
        proof {
            let target = self@.next_sell(player_choices@);
            assert(new_state@.checks =~= target.checks);
            assert(new_state@.properties =~= target.properties);
        }
        new_state
    }

    /// Whether every property has been dealt and sold.
    pub fn bid_phase_end(&self) -> (res: bool)
        ensures
            res == self@.bid_phase_end(),
    {
        self.remaining_properties.len() == 0 && (self.remaining_checks.len() < 30
            || self.auction_pool.len() == 0)
    }

    /// Whether nothing is left to reveal or to claim.
    pub fn sell_phase_end(&self) -> (res: bool)
        ensures
            res == self@.sell_phase_end(),
    {
        self.auction_pool.len() == 0 && self.remaining_properties.len() == 0
            && self.remaining_checks.len() == 0
    }

    /// One line per player with what the player has earned: checks and
    /// coins together.
    pub fn tally_game_score(&self) -> (res: String)
        requires
            self.wf(),
        ensures
            res@ == self@.tally(self@.n()),
    {
        let mut result = String::new();
        let mut player: u8 = 0;
        while player < self.no_players
            invariant
                self.wf(),
                player <= self.no_players,
                result@ == self@.tally(player as int),
            decreases self.no_players - player,
        {
            let hand: &Vec<u8> = holdings_get(&self.checks, player).unwrap();
            proof {
                reveal_strlit("Player ");
                reveal_strlit(": ");
                reveal_strlit(" points\n");
                crate::models::cards::lemma_total_bound(hand@);
                assert(hand@.len() == hand.len());
                assert(hand@ == self@.checks[player as int]);
            }
            let score: u128 = total_of(hand) + self.coins[player as usize] as u128;
            result.append("Player ");
            append_decimal(&mut result, player + 1);
            result.append(": ");
            append_number(&mut result, score);
            result.append(" points\n");
            assert(result@ =~= self@.tally(player + 1));
            player += 1;
        }
        result
    }

    /// How many cards the deck that the current phase deals from still
    /// holds.
    pub fn get_remaining_deck_len(&self) -> (res: usize)
        ensures
            res == self@.deck().len(),
    {
        match self.game_phase {
            GamePhase::Bid => self.remaining_properties.len(),
            GamePhase::Sell => self.remaining_checks.len(),
        }
    }

    /// Whether an auction is under way and a player is to bid: one card on
    /// offer for every player still bidding, at least two of them, the
    /// player to move among them, and nobody committed beyond their means.
    pub fn awaits_bid(&self) -> (res: bool)
        requires
            self.wf(),
        ensures
            res == bidding(self@),
    {
        if self.game_phase != GamePhase::Bid || self.auction_pool.len() < 2 {
            return false;
        }
        let n: usize = self.no_players as usize;
        let mut active: usize = 0;
        let mut within_means: bool = true;
        let mut p: usize = 0;
        while p < n
            invariant
                self.wf(),
                n == self@.n(),
                p <= n,
                active == count_active(self@.active_players.take(p as int)),
                active <= p,
                within_means == (forall|q: int|
                    0 <= q < p ==> self@.coins[q] + #[trigger] self@.active_bids[q] <= u8::MAX),
            decreases n - p,
        {
            proof {
                assert(self@.active_players.take(p + 1).drop_last() =~= self@.active_players.take(
                    p as int,
                ));
                assert(self@.active_players.take(p + 1).last() == self@.active_players[p as int]);
            }
            if self.active_players[p] {
                active += 1;
            }
            if self.coins[p] as u16 + self.active_bids[p] as u16 > 255 {
                within_means = false;
            }
            p += 1;
        }
        proof {
            assert(self@.active_players.take(n as int) =~= self@.active_players);
        }
        if active != self.auction_pool.len() || !within_means {
            return false;
        }
        match self.current_decision_player {
            Some(mover) => self.active_players[mover as usize],
            None => false,
        }
    }

    /// A bound on the bids that can still be made: it falls with every bid
    /// and with every reveal.
    pub fn bids_left(&self) -> (res: u128)
        requires
            self.wf(),
        ensures
            res == depth_left(self@),
    {
        let n: usize = self.no_players as usize;
        let mut live: u128 = 0;
        let mut p: usize = 0;
        while p < n
            invariant
                self.wf(),
                n == self@.n(),
                p <= n,
                live == live_coins(self@, p as int),
                live <= 256 * p,
            decreases n - p,
        {
            if self.active_players[p] {
                live = live + self.coins[p] as u128 + 1;
            }
            p += 1;
        }
        let deck: u128 = self.remaining_properties.len() as u128;
        if self.auction_pool.len() == 0 {
            4096 * deck
        } else {
            4096 * deck + 1 + live
        }
    }
}

} // verus!
