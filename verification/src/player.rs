//! A player's seat: chips, hole cards, betting state and connection
//! status, with the chip-moving operations the round state machine uses.
//! The seat's socket and its reader task live outside the library; they
//! report a lost connection through `shutdown`.

use vstd::prelude::*;
use crate::cards::{hand_value_spec, wf_hand, value_of_hand, Card};
use crate::messages::RawMessage;

verus! {

/// Associates a `RawMessage` to a player id of the `Player` who sent it.
pub struct PlayerCommunication {
    /// The sender of the raw message.
    pub sender: usize,
    /// The raw message that the player sent.
    pub message: RawMessage,
}

/// A player associated with the server.
pub struct Player {
    pub player_id: usize,
    pub begin_game: bool,
    pub display_name: String,
    pub cards: Vec<Card>,
    pub connected: bool,
    pub has_folded: bool,
    pub coins: usize,
    pub is_out: bool,
    pub current_betting_amount: usize,
    /// The value of the cards when the player wants to show his cards.
    pub end_of_round_values: Option<usize>,
}

/// The hole cards and the table cards, as `(suit, rank)` pairs.
pub open spec fn seven_card_hand(hole: Seq<Card>, table: Seq<Card>) -> Seq<(u8, u8)> {
    (hole + table).map_values(|c: Card| (c.value / 13, c.value % 13))
}

/// Every card value lies in `[0, 52)`.
pub open spec fn valid_cards(cards: Seq<Card>) -> bool {
    forall|i: int| 0 <= i < cards.len() ==> (#[trigger] cards[i]).value < 52
}

impl Player {
    /// Creates a new, connected player with no chips and no cards.
    pub fn new(display_name: String, player_id: usize) -> (r: Player)
        ensures
            r == (Player {
                player_id,
                begin_game: false,
                display_name,
                cards: r.cards,
                connected: true,
                has_folded: false,
                coins: 0,
                is_out: false,
                current_betting_amount: 0,
                end_of_round_values: None,
            }),
            r.cards@ == Seq::<Card>::empty(),
    {
        Player {
            player_id,
            begin_game: false,
            display_name,
            cards: Vec::new(),
            connected: true,
            has_folded: false,
            coins: 0,
            is_out: false,
            current_betting_amount: 0,
            end_of_round_values: None,
        }
    }

    /// Marks the player's connection as gone; the caller has shut the
    /// socket down.
    pub fn shutdown(&mut self)
        ensures
            *final(self) == (Player { connected: false, ..*old(self) }),
    {
        self.connected = false;
    }

    /// Obtain this `Player`'s identifier.
    pub fn player_id(&self) -> (r: usize)
        ensures
            r == self.player_id,
    {
        self.player_id
    }

    /// Obtain whether this `Player` is connected or not.
    pub fn is_connected(&self) -> (r: bool)
        ensures
            r == self.connected,
    {
        self.connected
    }

    /// Obtain this `Player`'s amount of coins.
    pub fn coins(&self) -> (r: usize)
        ensures
            r == self.coins,
    {
        self.coins
    }

    /// Obtain this `Player`'s current betting amount.
    pub fn current_betting_amount(&self) -> (r: usize)
        ensures
            r == self.current_betting_amount,
    {
        self.current_betting_amount
    }

    /// Subtracts the betting amount (but not more than max_amount) and
    /// returns it. If any money is left over it is added back to the
    /// `Player`'s coins. Resets the betting amount to zero.
    pub fn take_betting_amount(&mut self, max_amount: usize) -> (taken: usize)
        requires
            old(self).coins + old(self).current_betting_amount <= usize::MAX,
        ensures
            taken == if old(self).current_betting_amount <= max_amount {
                old(self).current_betting_amount
            } else {
                max_amount
            },
            final(self).coins == old(self).coins + old(self).current_betting_amount - taken,
            final(self).current_betting_amount == 0,
            *final(self) == (Player {
                coins: final(self).coins,
                current_betting_amount: 0,
                ..*old(self)
            }),
    {
        let amount_deduced = if self.current_betting_amount < max_amount {
            self.current_betting_amount
        } else {
            max_amount
        };
        self.current_betting_amount = self.current_betting_amount - amount_deduced;
        self.coins = self.coins + self.current_betting_amount;
        self.current_betting_amount = 0;
        amount_deduced
    }

    /// Add a specified amount of coins to the `Player`'s balance.
    pub fn add_coins(&mut self, amount: usize)
        requires
            old(self).coins + amount <= usize::MAX,
        ensures
            *final(self) == (Player { coins: (old(self).coins + amount) as usize, ..*old(self) }),
    {
        self.coins = self.coins + amount;
    }

    /// Set the `Player`'s amount of coins.
    pub fn set_coins(&mut self, coins: usize)
        ensures
            *final(self) == (Player { coins, ..*old(self) }),
    {
        self.coins = coins;
    }

    /// Deduct money from the `Player`'s balance for betting: rolls any
    /// already-posted bet back into the coins, then moves exactly `amount`
    /// of them into the betting amount.
    pub fn deduct_from_money_to_bet(&mut self, amount: usize)
        requires
            old(self).coins + old(self).current_betting_amount <= usize::MAX,
            amount <= old(self).coins + old(self).current_betting_amount,
        ensures
            *final(self) == (Player {
                coins: (old(self).coins + old(self).current_betting_amount - amount) as usize,
                current_betting_amount: amount,
                ..*old(self)
            }),
    {
        self.coins = self.coins + self.current_betting_amount;
        self.coins = self.coins - amount;
        self.current_betting_amount = amount;
    }

    /// Determines the value of the hand formed by the player's two hole
    /// cards and the five table cards.
    pub fn determine_card_value(&self, table_cards: &Vec<Card>) -> (r: usize)
        requires
            self.cards@.len() == 2,
            table_cards@.len() == 5,
            valid_cards(self.cards@),
            valid_cards(table_cards@),
        ensures
            r as int == hand_value_spec(seven_card_hand(self.cards@, table_cards@)),
    {
        let ghost all = self.cards@ + table_cards@;
        let mut pairs: Vec<(u8, u8)> = Vec::new();
        let mut i: usize = 0;
        while i < self.cards.len()
            invariant
                i <= self.cards@.len() == 2,
                valid_cards(self.cards@),
                pairs@ =~= self.cards@.subrange(0, i as int).map_values(
                    |c: Card| (c.value / 13, c.value % 13),
                ),
            decreases self.cards@.len() - i,
        {
            let c = self.cards[i];
            pairs.push((c.color(), c.value()));
            proof {
                assert(pairs@ =~= self.cards@.subrange(0, i as int + 1).map_values(
                    |c: Card| (c.value / 13, c.value % 13),
                ));
            }
            i += 1;
        }
        let mut j: usize = 0;
        while j < table_cards.len()
            invariant
                j <= table_cards@.len() == 5,
                self.cards@.len() == 2,
                valid_cards(self.cards@),
                valid_cards(table_cards@),
                pairs@ =~= (self.cards@ + table_cards@.subrange(0, j as int)).map_values(
                    |c: Card| (c.value / 13, c.value % 13),
                ),
            decreases table_cards@.len() - j,
        {
            let c = table_cards[j];
            pairs.push((c.color(), c.value()));
            proof {
                assert(self.cards@ + table_cards@.subrange(0, j as int + 1) =~= (self.cards@
                    + table_cards@.subrange(0, j as int)).push(table_cards@[j as int]));
                assert(pairs@ =~= (self.cards@ + table_cards@.subrange(0, j as int + 1)).map_values(
                    |c: Card| (c.value / 13, c.value % 13),
                ));
            }
            j += 1;
        }
        proof {
            assert(self.cards@ + table_cards@.subrange(0, 5) =~= all);
            assert(pairs@ =~= seven_card_hand(self.cards@, table_cards@));
            assert(wf_hand(pairs@)) by {
                assert(forall|k: int|
                    0 <= k < all.len() ==> (#[trigger] all[k]).value < 52);
            }
        }
        value_of_hand(&mut pairs)
    }
}

} // verus!
