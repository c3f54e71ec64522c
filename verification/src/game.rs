//! The round state machine of a No Limit Texas Hold'em game.
//!
//! Round numbers as following:
//!
//! * Pre round 0: give cards, prepare round
//! * Round 0: betting
//! * Round 1: adjust bets
//! * End of round 1: show 3 cards
//! * Round 2: betting
//! * Round 3: adjust betting
//! * End of round 3: show 4 cards
//! * Round 4: betting
//! * Round 5: adjust betting
//! * End of round 5: show 5 cards
//! * Round 6: betting
//! * Round 7: adjust betting
//! * End of round 7: calculate winner and set round to 0
//!
//! The driver loop that waits on sockets and timers lives outside the
//! library; it feeds received messages and timeouts into the decision
//! functions here and broadcasts the states they build.

use vstd::prelude::*;
use rand::seq::SliceRandom;
use crate::cards::{hand_value_spec, Card};
use crate::messages::{PlayerChoice, RawMessage};
use crate::player::{seven_card_hand, valid_cards, Player, PlayerCommunication};

verus! {

/// The sum of chips and pending bets over a row of seats.
pub open spec fn total_chips(seats: Seq<Player>) -> int
    decreases seats.len(),
{
    if seats.len() == 0 {
        0
    } else {
        total_chips(seats.drop_last()) + seats.last().coins + seats.last().current_betting_amount
    }
}

/// Replacing one seat changes the total by that seat's difference.
proof fn lemma_total_chips_update(seats: Seq<Player>, i: int, p: Player)
    requires
        0 <= i < seats.len(),
    ensures
        total_chips(seats.update(i, p)) == total_chips(seats) - seats[i].coins
            - seats[i].current_betting_amount + p.coins + p.current_betting_amount,
    decreases seats.len(),
{
    let u = seats.update(i, p);
    if i == seats.len() - 1 {
        assert(u.drop_last() =~= seats.drop_last());
        assert(u.last() == p);
    } else {
        assert(u.drop_last() =~= seats.drop_last().update(i, p));
        assert(u.last() == seats.last());
        lemma_total_chips_update(seats.drop_last(), i, p);
    }
}

/// Every seat's own chips and bet stay below the total.
proof fn lemma_total_chips_each(seats: Seq<Player>, i: int)
    requires
        0 <= i < seats.len(),
    ensures
        seats[i].coins + seats[i].current_betting_amount <= total_chips(seats),
        total_chips(seats) >= 0,
    decreases seats.len(),
{
    if seats.len() > 0 {
        if i == seats.len() - 1 {
            lemma_total_chips_nonneg(seats.drop_last());
        } else {
            lemma_total_chips_each(seats.drop_last(), i);
            assert(seats.drop_last()[i] == seats[i]);
        }
    }
}

proof fn lemma_total_chips_nonneg(seats: Seq<Player>)
    ensures
        total_chips(seats) >= 0,
    decreases seats.len(),
{
    if seats.len() > 0 {
        lemma_total_chips_nonneg(seats.drop_last());
    }
}

/// The total of a row whose seats all hold the same chips and no bet.
proof fn lemma_total_chips_flat(seats: Seq<Player>, money: int)
    requires
        forall|i: int|
            0 <= i < seats.len() ==> (#[trigger] seats[i]).coins == money
                && seats[i].current_betting_amount == 0,
    ensures
        total_chips(seats) == seats.len() * money,
    decreases seats.len(),
{
    if seats.len() > 0 {
        let d = seats.drop_last();
        assert(forall|i: int|
            0 <= i < d.len() ==> (#[trigger] d[i]).coins == money
                && d[i].current_betting_amount == 0);
        lemma_total_chips_flat(d, money);
        assert(seats.len() * money == d.len() * money + money) by (nonlinear_arith)
            requires
                seats.len() == d.len() + 1,
        ;
    }
}

/// Mutable access to one seat, exposing the whole row's new value.
fn seat_mut(v: &mut Vec<Player>, i: usize) -> (element: &mut Player)
    requires
        i < old(v)@.len(),
    ensures
        *element == old(v)@[i as int],
        final(v)@ == old(v)@.update(i as int, *final(element)),
{
    &mut v[i]
}

/// The ids of one round's players: no more than the table holds, each
/// below `n`, no seat twice.
pub open spec fn in_round_ok(ids: Seq<usize>, n: int) -> bool {
    &&& ids.len() <= n
    &&& forall|i: int| 0 <= i < ids.len() ==> (#[trigger] ids[i]) < n
    &&& forall|i: int, j: int| 0 <= i < j < ids.len() ==> ids[i] != ids[j]
}

/// A game of No Limit Texas Hold'em Poker.
pub struct Game {
    pub players: Vec<Player>,
    pub open_middle_cards: Vec<Card>,
    pub card_stack: Vec<Card>,
    pub round_number: usize,
    /// Players (in order) who play in this round. Ideally should be
    /// connected (but may be not) and should not have folded or be out.
    pub players_in_round: Vec<usize>,
    /// Starting position is one after the dealer.
    pub dealer: usize,
    pub small_blind: usize,
}

impl Game {
    /// The structural invariant of a running game: two to six seats, the
    /// dealer in range, a positive blind unit, a chip total that fits the
    /// machine word, a round number in `[0, 8)`, and a valid player list
    /// for the round.
    pub open spec fn wf(self) -> bool {
        &&& 1 <= self.players@.len() <= 6
        &&& self.dealer < self.players@.len()
        &&& self.small_blind >= 1
        &&& total_chips(self.players@) <= usize::MAX
        &&& self.round_number < 8
        &&& in_round_ok(self.players_in_round@, self.players@.len() as int)
    }

    /// Builds a game over the accepted seats, before chips and blinds are
    /// assigned by `init`.
    pub fn new(players: Vec<Player>) -> (r: Game)
        ensures
            r.players == players,
            r.open_middle_cards@.len() == 0,
            r.card_stack@.len() == 0,
            r.round_number == 0,
            r.players_in_round@.len() == 0,
            r.dealer == 0,
            r.small_blind == 0,
    {
        Game {
            players,
            open_middle_cards: Vec::new(),
            card_stack: Vec::new(),
            round_number: 0,
            players_in_round: Vec::new(),
            dealer: 0,
            small_blind: 0,
        }
    }

    /// Inits the game once per instance by giving the players coins and
    /// fixing the blind unit.
    pub fn init(&mut self, small_blind: usize, start_money: usize)
        requires
            1 <= old(self).players@.len() <= 6,
            old(self).dealer < old(self).players@.len(),
            old(self).round_number < 8,
            in_round_ok(old(self).players_in_round@, old(self).players@.len() as int),
            small_blind >= 1,
            old(self).players@.len() * start_money <= usize::MAX,
            forall|i: int|
                0 <= i < old(self).players@.len() ==> (#[trigger] old(
                    self,
                ).players@[i]).current_betting_amount == 0,
        ensures
            final(self).wf(),
            final(self).small_blind == small_blind,
            final(self).players@.len() == old(self).players@.len(),
            forall|i: int|
                0 <= i < old(self).players@.len() ==> final(self).players@[i] == (Player {
                    coins: start_money,
                    ..old(self).players@[i]
                }),
            final(self).open_middle_cards == old(self).open_middle_cards,
            final(self).card_stack == old(self).card_stack,
            final(self).round_number == old(self).round_number,
            final(self).players_in_round == old(self).players_in_round,
            final(self).dealer == old(self).dealer,
    {
        self.small_blind = small_blind;
        let n = self.players.len();
        let mut i: usize = 0;
        while i < n
            invariant
                i <= n,
                n == self.players@.len() == old(self).players@.len(),
                forall|j: int|
                    0 <= j < i ==> self.players@[j] == (Player {
                        coins: start_money,
                        ..old(self).players@[j]
                    }),
                forall|j: int| i <= j < n ==> self.players@[j] == old(self).players@[j],
                self.small_blind == small_blind,
                self.open_middle_cards == old(self).open_middle_cards,
                self.card_stack == old(self).card_stack,
                self.round_number == old(self).round_number,
                self.players_in_round == old(self).players_in_round,
                self.dealer == old(self).dealer,
            decreases n - i,
        {
            let p = seat_mut(&mut self.players, i);
            p.set_coins(start_money);
            i += 1;
        }
        proof {
            assert(forall|j: int|
                0 <= j < self.players@.len() ==> (#[trigger] self.players@[j]).coins
                    == start_money && self.players@[j].current_betting_amount == 0);
            lemma_total_chips_flat(self.players@, start_money as int);
        }
    }

    /// How many seats could still win the game: neither out nor
    /// disconnected.
    pub open spec fn count_qualified(seats: Seq<Player>) -> int
        decreases seats.len(),
    {
        if seats.len() == 0 {
            0
        } else {
            Self::count_qualified(seats.drop_last()) + if !seats.last().is_out
                && seats.last().connected {
                1int
            } else {
                0int
            }
        }
    }

    /// Determines if the game ends and if it ends the winner of the game.
    ///
    /// Return values:
    /// * None => Game not finished
    /// * Some(None) => Game finished, no winner
    /// * Some(Some(w)) => Game finished, w won
    pub fn determine_end_and_game_winner(&self) -> (r: Option<Option<usize>>)
        ensures
            (r is None) <==> Self::count_qualified(self.players@) >= 2,
            (r == Some(None::<usize>)) <==> Self::count_qualified(self.players@) == 0,
            (match r {
                Some(Some(w)) => Self::count_qualified(self.players@) == 1 && w
                    < self.players@.len() && !self.players@[w as int].is_out
                    && self.players@[w as int].connected,
                _ => true,
            }),
    {
        let ghost whole = self.players@;
        let mut found: Option<usize> = None;
        let n = self.players.len();
        let mut i: usize = 0;
        while i < n
            invariant
                i <= n,
                n == self.players@.len(),
                whole == self.players@,
                (match found {
                    None => Self::count_qualified(whole.subrange(0, i as int)) == 0,
                    Some(w) => Self::count_qualified(whole.subrange(0, i as int)) == 1 && w < i
                        && !whole[w as int].is_out && whole[w as int].connected,
                }),
            decreases n - i,
        {
            let ghost pre = whole.subrange(0, i as int);
            let ghost cur = whole.subrange(0, i as int + 1);
            proof {
                assert(cur.drop_last() =~= pre);
                assert(cur.last() == whole[i as int]);
            }
            let p = &self.players[i];
            if !p.is_out && p.is_connected() {
                match found {
                    None => {
                        found = Some(i);
                    },
                    Some(_) => {
                        proof {
                            Self::lemma_count_qualified_mono(whole, i as int + 1);
                        }
                        return None;
                    },
                }
            }
            i += 1;
        }
        proof {
            assert(whole.subrange(0, n as int) =~= whole);
        }
        match found {
            None => Some(None),
            Some(w) => Some(Some(w)),
        }
    }

    /// A prefix never counts more qualified seats than the whole row.
    proof fn lemma_count_qualified_mono(seats: Seq<Player>, i: int)
        requires
            0 <= i <= seats.len(),
        ensures
            Self::count_qualified(seats.subrange(0, i)) <= Self::count_qualified(seats),
        decreases seats.len() - i,
    {
        if i == seats.len() {
            assert(seats.subrange(0, i) =~= seats);
        } else {
            Self::lemma_count_qualified_mono(seats, i + 1);
            assert(seats.subrange(0, i + 1).drop_last() =~= seats.subrange(0, i));
        }
    }

    /// Retrieves the highest bet in the round.
    pub fn get_highest_bet_in_round(&self) -> (r: usize)
        ensures
            r as int == highest_bet(self.players@),
    {
        let n = self.players.len();
        let mut best: usize = 0;
        let mut i: usize = 0;
        while i < n
            invariant
                i <= n,
                n == self.players@.len(),
                best as int == highest_bet(self.players@.subrange(0, i as int)),
            decreases n - i,
        {
            let ghost pre = self.players@.subrange(0, i as int);
            let ghost cur = self.players@.subrange(0, i as int + 1);
            proof {
                assert(cur.drop_last() =~= pre);
                assert(cur.last() == self.players@[i as int]);
            }
            let b = self.players[i].current_betting_amount();
            if b > best {
                best = b;
            }
            i += 1;
        }
        proof {
            assert(self.players@.subrange(0, n as int) =~= self.players@);
        }
        best
    }

    /// Unfolds all players, and puts out those that are broke or gone.
    pub fn unfold_and_out_players(&mut self)
        ensures
            final(self).players@.len() == old(self).players@.len(),
            forall|j: int|
                0 <= j < old(self).players@.len() ==> final(self).players@[j] == (Player {
                    is_out: old(self).players@[j].is_out || old(self).players@[j].coins == 0
                        || !old(self).players@[j].connected,
                    has_folded: false,
                    ..old(self).players@[j]
                }),
            total_chips(final(self).players@) == total_chips(old(self).players@),
            *final(self) == (Game { players: final(self).players, ..*old(self) }),
    {
        let n = self.players.len();
        let mut i: usize = 0;
        while i < n
            invariant
                i <= n,
                n == self.players@.len() == old(self).players@.len(),
                forall|j: int|
                    0 <= j < i ==> self.players@[j] == (Player {
                        is_out: old(self).players@[j].is_out || old(self).players@[j].coins == 0
                            || !old(self).players@[j].connected,
                        has_folded: false,
                        ..old(self).players@[j]
                    }),
                forall|j: int| i <= j < n ==> self.players@[j] == old(self).players@[j],
                *self == (Game { players: self.players, ..*old(self) }),
            decreases n - i,
        {
            let p = seat_mut(&mut self.players, i);
            if p.coins() == 0 || !p.is_connected() {
                p.is_out = true;
            }
            p.has_folded = false;
            i += 1;
        }
        proof {
            assert(forall|j: int|
                0 <= j < self.players@.len() ==> (#[trigger] self.players@[j]).coins
                    + self.players@[j].current_betting_amount == old(self).players@[j].coins + old(
                    self,
                ).players@[j].current_betting_amount);
            lemma_total_chips_same_sums(old(self).players@, self.players@);
        }
    }
}

/// The highest pending bet over a row of seats.
pub open spec fn highest_bet(seats: Seq<Player>) -> int
    decreases seats.len(),
{
    if seats.len() == 0 {
        0
    } else {
        let rest = highest_bet(seats.drop_last());
        if seats.last().current_betting_amount > rest {
            seats.last().current_betting_amount as int
        } else {
            rest
        }
    }
}

/// What a bet request becomes: raised to the seat's posted bet and the
/// table's highest bet, rounded up to a blind multiple (down when rounding
/// up would overflow the machine word), and capped by the seat's chips.
pub open spec fn clamp_spec(blind: int, cur: int, coins: int, amount0: int, minimal: int) -> int {
    let a1 = if amount0 > cur {
        amount0
    } else {
        cur
    };
    let a2 = if a1 > minimal {
        a1
    } else {
        minimal
    };
    let rem = a2 % blind;
    let a3 = if a2 > blind && usize::MAX - blind < a2 {
        a2 - rem
    } else if rem != 0 {
        a2 + (blind - rem)
    } else {
        a2
    };
    if a3 > coins + cur {
        coins + cur
    } else {
        a3
    }
}

/// After a clamp the bet is a multiple of the blind unit or an all-in, it
/// never exceeds the seat's chips, and, as long as the request stays a
/// blind unit below the machine word, it is no less than the required
/// floor unless the seat is all-in short.
pub proof fn lemma_clamp_properties(blind: int, cur: int, coins: int, amount0: int, minimal: int)
    requires
        blind >= 1,
        0 <= cur,
        0 <= coins,
        0 <= amount0,
        0 <= minimal,
    ensures
        ({
            let v = clamp_spec(blind, cur, coins, amount0, minimal);
            &&& v % blind == 0 || v == coins + cur
            &&& v <= coins + cur
            &&& (amount0 <= usize::MAX - blind && cur <= usize::MAX - blind && minimal
                <= usize::MAX - blind) ==> (v >= minimal && v >= cur) || v == coins + cur
        }),
{
    broadcast use vstd::arithmetic::div_mod::lemma_fundamental_div_mod;
    broadcast use vstd::arithmetic::div_mod::lemma_mod_multiples_basic;
    broadcast use vstd::arithmetic::div_mod::group_mod_properties;

    let a1 = if amount0 > cur {
        amount0
    } else {
        cur
    };
    let a2 = if a1 > minimal {
        a1
    } else {
        minimal
    };
    let rem = a2 % blind;
    assert(a2 == blind * (a2 / blind) + rem);
    assert(0 <= rem < blind);
    if a2 > blind && usize::MAX - blind < a2 {
        let a3 = a2 - rem;
        assert(a3 == (a2 / blind) * blind + 0) by (nonlinear_arith)
            requires
                a3 == a2 - rem,
                a2 == blind * (a2 / blind) + rem,
        ;
        vstd::arithmetic::div_mod::lemma_fundamental_div_mod_converse_mod(
            a3,
            blind,
            a2 / blind,
            0,
        );
        assert(a3 % blind == 0);
    } else if rem != 0 {
        let a3 = a2 + (blind - rem);
        assert(a3 == (a2 / blind + 1) * blind + 0) by (nonlinear_arith)
            requires
                a3 == a2 + (blind - rem),
                a2 == blind * (a2 / blind) + rem,
        ;
        vstd::arithmetic::div_mod::lemma_fundamental_div_mod_converse_mod(
            a3,
            blind,
            a2 / blind + 1,
            0,
        );
        assert(a3 % blind == 0);
    }
}

/// The smaller of two values.
pub open spec fn spec_min(a: int, b: int) -> int {
    if a <= b {
        a
    } else {
        b
    }
}

/// The seat one step clockwise from `cur` at a table of `len` seats.
pub open spec fn next_seat(cur: int, len: int) -> int {
    if cur + 1 >= len {
        0
    } else {
        cur + 1
    }
}

/// The seat `k` steps clockwise from `d`.
pub open spec fn seat_at(d: int, k: int, len: int) -> int
    decreases k,
{
    if k <= 0 {
        d
    } else {
        next_seat(seat_at(d, k - 1, len), len)
    }
}

proof fn lemma_seat_at_formula(d: int, k: int, len: int)
    requires
        0 <= d < len,
        0 <= k <= len,
    ensures
        seat_at(d, k, len) == if d + k < len {
            d + k
        } else {
            d + k - len
        },
    decreases k,
{
    if k > 0 {
        lemma_seat_at_formula(d, k - 1, len);
    }
}

/// The seats eligible to play, walking clockwise from the dealer for `k`
/// steps and keeping those neither out nor folded; the dealer comes last.
pub open spec fn qualified_ids(seats: Seq<Player>, dealer: int, k: int) -> Seq<usize>
    decreases k,
{
    if k <= 0 {
        Seq::empty()
    } else {
        let prev = qualified_ids(seats, dealer, k - 1);
        let id = seat_at(dealer, k, seats.len() as int);
        if !seats[id].is_out && !seats[id].has_folded {
            prev.push(id as usize)
        } else {
            prev
        }
    }
}

proof fn lemma_qualified_ids_ok(seats: Seq<Player>, dealer: int, k: int)
    requires
        0 <= dealer < seats.len(),
        0 <= k <= seats.len(),
        seats.len() <= usize::MAX,
    ensures
        qualified_ids(seats, dealer, k).len() <= k,
        in_round_ok(qualified_ids(seats, dealer, k), seats.len() as int),
        forall|i: int|
            0 <= i < qualified_ids(seats, dealer, k).len() ==> {
                let e = (#[trigger] qualified_ids(seats, dealer, k)[i]) as int;
                !seats[e].is_out && !seats[e].has_folded && exists|j: int|
                    1 <= j <= k && e == #[trigger] seat_at(dealer, j, seats.len() as int)
            },
    decreases k,
{
    let len = seats.len() as int;
    if k > 0 {
        lemma_qualified_ids_ok(seats, dealer, k - 1);
        let prev = qualified_ids(seats, dealer, k - 1);
        let id = seat_at(dealer, k, len);
        lemma_seat_at_formula(dealer, k, len);
        let q = qualified_ids(seats, dealer, k);
        if !seats[id].is_out && !seats[id].has_folded {
            assert(0 <= id < len);
            assert(q =~= prev.push(id as usize));
            assert forall|i: int| 0 <= i < prev.len() implies prev[i] as int != id by {
                let j = choose|j: int|
                    1 <= j <= k - 1 && prev[i] as int == #[trigger] seat_at(dealer, j, len);
                lemma_seat_at_formula(dealer, j, len);
            }
            assert forall|i: int|
                0 <= i < q.len() implies {
                    let e = (#[trigger] q[i]) as int;
                    !seats[e].is_out && !seats[e].has_folded && exists|j: int|
                        1 <= j <= k && e == #[trigger] seat_at(dealer, j, len)
                } by {
                if i < prev.len() {
                    assert(q[i] == prev[i]);
                    let j = choose|j: int|
                        1 <= j <= k - 1 && prev[i] as int == #[trigger] seat_at(dealer, j, len);
                    assert(1 <= j <= k && q[i] as int == seat_at(dealer, j, len));
                } else {
                    assert(q[i] == id as usize);
                    assert(q[i] as int == id);
                    assert(1 <= k <= k && q[i] as int == seat_at(dealer, k, len));
                }
            }
            assert forall|a: int, b: int| 0 <= a < b < q.len() implies q[a] != q[b] by {
                if b < prev.len() {
                    assert(q[a] == prev[a] && q[b] == prev[b]);
                } else {
                    assert(q[b] == id as usize);
                    assert(q[a] == prev[a]);
                    assert(prev[a] as int != id);
                }
            }
            assert forall|a: int| 0 <= a < q.len() implies (#[trigger] q[a]) < len by {
                if a < prev.len() {
                    assert(q[a] == prev[a]);
                } else {
                    assert(q[a] as int == id);
                }
            }
        } else {
            assert(q == prev);
            assert forall|i: int|
                0 <= i < q.len() implies {
                    let e = (#[trigger] q[i]) as int;
                    !seats[e].is_out && !seats[e].has_folded && exists|j: int|
                        1 <= j <= k && e == #[trigger] seat_at(dealer, j, len)
                } by {
                let j = choose|j: int|
                    1 <= j <= k - 1 && prev[i] as int == #[trigger] seat_at(dealer, j, len);
                assert(1 <= j <= k && q[i] as int == seat_at(dealer, j, len));
            }
        }
    }
}

impl Game {
    /// Tries to set a players bet to a specified amount.
    /// Bet may not exceed players coin amount.
    /// Bet should be higher or equal than highest bet of others
    /// (minimal_amount).
    /// Bet should be multiple of small blind.
    pub fn try_set_player_bet(
        current_blind: usize,
        p: &mut Player,
        amount: usize,
        minimal_amount: usize,
    )
        requires
            current_blind >= 1,
            old(p).coins + old(p).current_betting_amount <= usize::MAX,
        ensures
            ({
                let bet = clamp_spec(
                    current_blind as int,
                    old(p).current_betting_amount as int,
                    old(p).coins as int,
                    amount as int,
                    minimal_amount as int,
                );
                *final(p) == (Player {
                    coins: (old(p).coins + old(p).current_betting_amount - bet) as usize,
                    current_betting_amount: bet as usize,
                    ..*old(p)
                })
            }),
    {
        let mut amount = amount;
        // Amount must be higher or equal than previous amount
        if p.current_betting_amount() > amount {
            amount = p.current_betting_amount();
        }
        // Amount must be higher or equal than all other players' bets
        if minimal_amount > amount {
            amount = minimal_amount;
        }
        // Amount must be multiple of small blind; round down if too big
        let remainder = amount % current_blind;
        if amount > current_blind && usize::MAX - current_blind < amount {
            amount = amount - remainder;
        } else {
            if remainder != 0 {
                proof {
                    if amount < current_blind {
                        vstd::arithmetic::div_mod::lemma_small_mod(
                            amount as nat,
                            current_blind as nat,
                        );
                    }
                    if amount == current_blind {
                        vstd::arithmetic::div_mod::lemma_mod_self_0(current_blind as int);
                    }
                    assert(amount + (current_blind - remainder) <= usize::MAX);
                }
                amount = amount + (current_blind - remainder);
            }
        }
        // Amount may not be higher than current owned amount
        let cap = p.coins() + p.current_betting_amount();
        if amount > cap {
            amount = cap;
        }
        // Make player bet
        p.deduct_from_money_to_bet(amount);
    }

    /// Queries all players who can play the current round in a list.
    /// The queried list is in correct playing order: one seat after the
    /// dealer first, the dealer last.
    pub fn get_qualified_players(&mut self)
        requires
            old(self).wf(),
        ensures
            final(self).players_in_round@ == qualified_ids(
                old(self).players@,
                old(self).dealer as int,
                old(self).players@.len() as int,
            ),
            *final(self) == (Game {
                players_in_round: final(self).players_in_round,
                ..*old(self)
            }),
            final(self).wf(),
    {
        let ghost d0 = self.dealer as int;
        self.players_in_round = Vec::new();
        let n = self.players.len();
        let mut cur: usize = self.dealer;
        let mut k: usize = 0;
        while k < n
            invariant
                k <= n,
                n == self.players@.len(),
                cur < n,
                d0 == self.dealer as int,
                cur as int == seat_at(d0, k as int, n as int),
                self.players_in_round@ == qualified_ids(self.players@, d0, k as int),
                *self == (Game { players_in_round: self.players_in_round, ..*old(self) }),
            decreases n - k,
        {
            k += 1;
            cur += 1;
            if cur >= n {
                cur = 0;
            }
            // If player has neither folded nor is out, player is in
            if !self.players[cur].is_out && !self.players[cur].has_folded {
                self.players_in_round.push(cur);
            }
        }
        proof {
            lemma_qualified_ids_ok(self.players@, d0, n as int);
        }
    }

    /// The number of steps to the next seat that can deal: the first
    /// offset whose seat is not out, or a full turn of the table.
    pub open spec fn dealer_steps(seats: Seq<Player>, d: int, j: int) -> int
        decreases seats.len() + 1 - j,
    {
        if j >= seats.len() {
            seats.len() as int
        } else if !seats[seat_at(d, j, seats.len() as int)].is_out {
            j
        } else {
            Self::dealer_steps(seats, d, j + 1)
        }
    }

    /// Moves the dealer to the next player and increases the blind: the
    /// dealer advances to the first seat that is not out, and each time it
    /// wraps past seat 0 the small blind doubles — once per full cycle.
    pub fn move_dealer_and_increase_blind(&mut self)
        requires
            old(self).wf(),
            old(self).small_blind * 2 <= usize::MAX,
        ensures
            ({
                let len = old(self).players@.len() as int;
                let k = Self::dealer_steps(old(self).players@, old(self).dealer as int, 1);
                &&& final(self).dealer as int == seat_at(old(self).dealer as int, k, len)
                &&& final(self).small_blind as int == if old(self).dealer + k >= len {
                    2 * old(self).small_blind
                } else {
                    old(self).small_blind as int
                }
            }),
            *final(self) == (Game {
                dealer: final(self).dealer,
                small_blind: final(self).small_blind,
                ..*old(self)
            }),
            final(self).wf(),
    {
        let ghost d0 = self.dealer as int;
        let ghost b0 = self.small_blind as int;
        let ghost s = self.players@;
        let n = self.players.len();
        let mut j: usize = 0;
        // If no one remains, this will not be an infinity loop
        while j < n
            invariant
                j <= n,
                n == self.players@.len(),
                s == self.players@,
                old(self).wf(),
                d0 == old(self).dealer as int,
                b0 == old(self).small_blind as int,
                s == old(self).players@,
                0 <= d0 < n,
                b0 >= 1,
                2 * b0 <= usize::MAX,
                self.dealer < n,
                self.dealer as int == seat_at(d0, j as int, n as int),
                self.small_blind as int == if d0 + j >= n {
                    2 * b0
                } else {
                    b0
                },
                Self::dealer_steps(s, d0, 1) == Self::dealer_steps(s, d0, j as int + 1),
                *self == (Game {
                    dealer: self.dealer,
                    small_blind: self.small_blind,
                    ..*old(self)
                }),
            decreases n - j,
        {
            proof {
                lemma_seat_at_formula(d0, j as int, n as int);
                lemma_seat_at_formula(d0, j as int + 1, n as int);
            }
            j += 1;
            self.dealer += 1;
            if self.dealer >= n {
                self.dealer = 0;
            }
            if self.dealer == 0 {
                // Increase blind if dealer passes position 0
                self.small_blind = self.small_blind * 2;
            }
            proof {
                lemma_seat_at_formula(d0, j as int, n as int);
                assert(seat_at(d0, j as int, n as int) == next_seat(
                    seat_at(d0, j as int - 1, n as int),
                    n as int,
                ));
                assert(self.dealer as int == seat_at(d0, j as int, n as int));
                assert(self.small_blind as int == if d0 + j >= n as int {
                    2 * b0
                } else {
                    b0
                });
            }
            if !self.players[self.dealer].is_out {
                // If person which can deal is found, stop
                proof {
                    if (j as int) < n as int {
                        assert(Self::dealer_steps(s, d0, j as int) == j as int);
                    }
                    assert(Self::dealer_steps(s, d0, 1) == j as int);
                }
                return ;
            }
        }
    }

    /// Determines the next round and moves the dealer. After the eighth
    /// phase the hand is over: the round number resets, the dealer
    /// rotates, and every seat still in the game is unfolded.
    pub fn determine_next_round_and_move_dealer(&mut self)
        requires
            old(self).wf(),
            old(self).round_number == 7 ==> old(self).small_blind * 2 <= usize::MAX,
        ensures
            old(self).round_number < 7 ==> *final(self) == (Game {
                round_number: (old(self).round_number + 1) as usize,
                ..*old(self)
            }),
            old(self).round_number == 7 ==> ({
                let len = old(self).players@.len() as int;
                let k = Self::dealer_steps(old(self).players@, old(self).dealer as int, 1);
                &&& final(self).round_number == 0
                &&& final(self).dealer as int == seat_at(old(self).dealer as int, k, len)
                &&& final(self).small_blind as int == if old(self).dealer + k >= len {
                    2 * old(self).small_blind
                } else {
                    old(self).small_blind as int
                }
                &&& final(self).players@.len() == old(self).players@.len()
                &&& forall|i: int|
                    0 <= i < old(self).players@.len() ==> final(self).players@[i] == (Player {
                        has_folded: old(self).players@[i].is_out
                            && old(self).players@[i].has_folded,
                        ..old(self).players@[i]
                    })
                &&& final(self).open_middle_cards == old(self).open_middle_cards
                &&& final(self).card_stack == old(self).card_stack
                &&& final(self).players_in_round == old(self).players_in_round
            }),
            final(self).wf(),
    {
        // There are only eight rounds
        if self.round_number >= 7 {
            // If round has ended, move dealer
            self.move_dealer_and_increase_blind();
            self.round_number = 0;
            // Reset fold state
            let ghost mid = *self;
            let n = self.players.len();
            let mut i: usize = 0;
            while i < n
                invariant
                    i <= n,
                    n == self.players@.len(),
                    forall|j: int|
                        0 <= j < i ==> self.players@[j] == (Player {
                            has_folded: mid.players@[j].is_out && mid.players@[j].has_folded,
                            ..mid.players@[j]
                        }),
                    forall|j: int| i <= j < n ==> self.players@[j] == mid.players@[j],
                    *self == (Game { players: self.players, ..mid }),
                decreases n - i,
            {
                let p = seat_mut(&mut self.players, i);
                if !p.is_out {
                    p.has_folded = false;
                }
                i += 1;
            }
            proof {
                assert(forall|j: int|
                    0 <= j < self.players@.len() ==> (#[trigger] self.players@[j]).coins
                        + self.players@[j].current_betting_amount == mid.players@[j].coins
                        + mid.players@[j].current_betting_amount);
                lemma_total_chips_same_sums(mid.players@, self.players@);
            }
        } else {
            self.round_number = self.round_number + 1;
        }
    }
}

/// The pot gathered when every seat pays its bet up to `cap`.
pub open spec fn pot_collected(seats: Seq<Player>, cap: int) -> int
    decreases seats.len(),
{
    if seats.len() == 0 {
        0
    } else {
        pot_collected(seats.drop_last(), cap) + spec_min(
            seats.last().current_betting_amount as int,
            cap,
        )
    }
}

/// What one seat looks like after the hand settles with collection cap
/// `cap`: the bet is gone, the part over the cap comes back as chips, and
/// the winner's stack also receives the whole pot.
pub open spec fn settled_seat(p: Player, cap: int, winnings: int) -> Player {
    Player {
        coins: (p.coins + p.current_betting_amount - spec_min(
            p.current_betting_amount as int,
            cap,
        ) + winnings) as usize,
        current_betting_amount: 0,
        ..p
    }
}

impl Game {
    /// Represents the game path if there are not enough players during a
    /// round: the lone survivor collects every bet up to its own, the
    /// surplus flows back, and with no survivor every bet is refunded.
    /// The chips on the table are conserved either way.
    pub fn early_end(&mut self, maybe_last: Option<usize>)
        requires
            old(self).wf(),
            maybe_last matches Some(w) ==> w < old(self).players@.len(),
        ensures
            final(self).players@.len() == old(self).players@.len(),
            total_chips(final(self).players@) == total_chips(old(self).players@),
            ({
                let cap = match maybe_last {
                    Some(w) => old(self).players@[w as int].current_betting_amount as int,
                    None => 0,
                };
                let pot = pot_collected(old(self).players@, cap);
                forall|j: int|
                    0 <= j < old(self).players@.len() ==> final(self).players@[j]
                        == settled_seat(
                        old(self).players@[j],
                        cap,
                        if maybe_last == Some(j as usize) {
                            pot
                        } else {
                            0
                        },
                    )
            }),
            *final(self) == (Game { players: final(self).players, ..*old(self) }),
            final(self).wf(),
    {
        let max_bet: usize = match maybe_last {
            Some(winner) => self.players[winner].current_betting_amount(),
            None => 0,
        };
        let ghost cap = max_bet as int;
        let ghost s0 = self.players@;
        let n = self.players.len();
        let mut pot: usize = 0;
        let mut i: usize = 0;
        while i < n
            invariant
                i <= n,
                n == self.players@.len() == s0.len(),
                s0 == old(self).players@,
                cap == max_bet as int,
                total_chips(s0) <= usize::MAX,
                pot as int == pot_collected(s0.subrange(0, i as int), cap),
                pot + total_chips(self.players@) == total_chips(s0),
                forall|j: int|
                    0 <= j < i ==> self.players@[j] == settled_seat(s0[j], cap, 0),
                forall|j: int| i <= j < n ==> self.players@[j] == s0[j],
                *self == (Game { players: self.players, ..*old(self) }),
            decreases n - i,
        {
            let ghost pre = s0.subrange(0, i as int);
            let ghost cur = s0.subrange(0, i as int + 1);
            proof {
                assert(cur.drop_last() =~= pre);
                assert(cur.last() == s0[i as int]);
                lemma_total_chips_each(self.players@, i as int);
                lemma_total_chips_nonneg(self.players@);
            }
            let ghost before = self.players@;
            let p = seat_mut(&mut self.players, i);
            let taken = p.take_betting_amount(max_bet);
            pot = pot + taken;
            proof {
                lemma_total_chips_update(before, i as int, *p);
            }
            i += 1;
        }
        proof {
            assert(s0.subrange(0, n as int) =~= s0);
            lemma_total_chips_nonneg(self.players@);
        }
        if let Some(winner) = maybe_last {
            let ghost before = self.players@;
            proof {
                lemma_total_chips_each(before, winner as int);
            }
            let p = seat_mut(&mut self.players, winner);
            p.add_coins(pot);
            proof {
                lemma_total_chips_update(before, winner as int, *p);
            }
        } else {
            proof {
                Self::lemma_pot_collected_zero(s0);
            }
        }
    }

    /// With a zero cap nothing is collected.
    proof fn lemma_pot_collected_zero(seats: Seq<Player>)
        ensures
            pot_collected(seats, 0) == 0,
        decreases seats.len(),
    {
        if seats.len() > 0 {
            Self::lemma_pot_collected_zero(seats.drop_last());
        }
    }

    /// Settles the showdown: with a sole best hand that seat collects the
    /// pot as in `early_end`; with a tie nobody wins and every bet is
    /// refunded.
    pub fn payout(&mut self, winner: Option<usize>, too_many_winners: bool)
        requires
            old(self).wf(),
            winner matches Some(w) ==> w < old(self).players@.len(),
        ensures
            final(self).players@.len() == old(self).players@.len(),
            total_chips(final(self).players@) == total_chips(old(self).players@),
            ({
                let eff = if too_many_winners {
                    None
                } else {
                    winner
                };
                let cap = match eff {
                    Some(w) => old(self).players@[w as int].current_betting_amount as int,
                    None => 0,
                };
                let pot = pot_collected(old(self).players@, cap);
                forall|j: int|
                    0 <= j < old(self).players@.len() ==> final(self).players@[j]
                        == settled_seat(
                        old(self).players@[j],
                        cap,
                        if eff == Some(j as usize) {
                            pot
                        } else {
                            0
                        },
                    )
            }),
            *final(self) == (Game { players: final(self).players, ..*old(self) }),
            final(self).wf(),
    {
        if too_many_winners {
            self.early_end(None);
        } else {
            self.early_end(winner);
        }
    }

    /// How many of the round's seats have not folded.
    pub open spec fn count_unfolded(seats: Seq<Player>, ids: Seq<usize>) -> int
        decreases ids.len(),
    {
        if ids.len() == 0 {
            0
        } else {
            Self::count_unfolded(seats, ids.drop_last()) + if !seats[ids.last() as int].has_folded {
                1int
            } else {
                0int
            }
        }
    }

    /// Which seat of the round is last standing.
    ///
    /// Return values:
    /// * None => at least two seats have not folded
    /// * Some(None) => every seat has folded
    /// * Some(Some(i)) => seat i alone has not folded
    pub fn last_player_standing(&self) -> (r: Option<Option<usize>>)
        requires
            self.wf(),
        ensures
            (r is None) <==> Self::count_unfolded(self.players@, self.players_in_round@) >= 2,
            (r == Some(None::<usize>)) <==> Self::count_unfolded(
                self.players@,
                self.players_in_round@,
            ) == 0,
            (match r {
                Some(Some(w)) => Self::count_unfolded(self.players@, self.players_in_round@) == 1
                    && w < self.players@.len() && !self.players@[w as int].has_folded,
                _ => true,
            }),
    {
        let ghost ids = self.players_in_round@;
        let mut found: Option<usize> = None;
        let n = self.players_in_round.len();
        let mut k: usize = 0;
        while k < n
            invariant
                k <= n,
                n == self.players_in_round@.len(),
                ids == self.players_in_round@,
                self.wf(),
                (match found {
                    None => Self::count_unfolded(self.players@, ids.subrange(0, k as int)) == 0,
                    Some(w) => Self::count_unfolded(self.players@, ids.subrange(0, k as int)) == 1
                        && w < self.players@.len() && !self.players@[w as int].has_folded,
                }),
            decreases n - k,
        {
            let ghost pre = ids.subrange(0, k as int);
            let ghost cur = ids.subrange(0, k as int + 1);
            proof {
                assert(cur.drop_last() =~= pre);
                assert(cur.last() == ids[k as int]);
            }
            let id = self.players_in_round[k];
            if !self.players[id].has_folded {
                match found {
                    None => {
                        found = Some(id);
                    },
                    Some(_) => {
                        proof {
                            Self::lemma_count_unfolded_mono(self.players@, ids, k as int + 1);
                        }
                        return None;
                    },
                }
            }
            k += 1;
        }
        proof {
            assert(ids.subrange(0, n as int) =~= ids);
        }
        match found {
            None => Some(None),
            Some(w) => Some(Some(w)),
        }
    }

    /// A prefix never counts more unfolded seats than the whole round.
    proof fn lemma_count_unfolded_mono(seats: Seq<Player>, ids: Seq<usize>, i: int)
        requires
            0 <= i <= ids.len(),
        ensures
            Self::count_unfolded(seats, ids.subrange(0, i)) <= Self::count_unfolded(seats, ids),
        decreases ids.len() - i,
    {
        if i == ids.len() {
            assert(ids.subrange(0, i) =~= ids);
        } else {
            Self::lemma_count_unfolded_mono(seats, ids, i + 1);
            assert(ids.subrange(0, i + 1).drop_last() =~= ids.subrange(0, i));
        }
    }
}

/// Rows whose seats hold the same chips-plus-bet sums have one total.
proof fn lemma_total_chips_same_sums(s1: Seq<Player>, s2: Seq<Player>)
    requires
        s1.len() == s2.len(),
        forall|j: int|
            0 <= j < s1.len() ==> (#[trigger] s2[j]).coins + s2[j].current_betting_amount
                == s1[j].coins + s1[j].current_betting_amount,
    ensures
        total_chips(s1) == total_chips(s2),
    decreases s1.len(),
{
    if s1.len() > 0 {
        let d1 = s1.drop_last();
        let d2 = s2.drop_last();
        assert(forall|j: int|
            0 <= j < d1.len() ==> (#[trigger] d2[j]).coins + d2[j].current_betting_amount
                == d1[j].coins + d1[j].current_betting_amount);
        lemma_total_chips_same_sums(d1, d2);
    }
}

/// The value of a seat's hand against the table cards.
pub open spec fn seat_hand_value(p: Player, mids: Seq<Card>) -> int {
    hand_value_spec(seven_card_hand(p.cards@, mids))
}

/// A fresh deck of all 52 cards, in order.
pub open spec fn full_deck() -> Seq<Card> {
    Seq::new(52, |i: int| Card { value: i as u8 })
}

/// Relies on rand's `SliceRandom::shuffle`, a Fisher-Yates shuffle that
/// rearranges the slice in place: the cards are unchanged as a multiset.
#[verifier::external_body]
fn shuffle_cards(cards: &mut Vec<Card>)
    ensures
        final(cards)@.to_multiset() == old(cards)@.to_multiset(),
{
    cards.shuffle(&mut rand::thread_rng());
}

/// Builds and shuffles a full deck: the 52 cards, each exactly once, in an
/// order the library does not constrain.
pub fn fresh_shuffled_deck() -> (r: Vec<Card>)
    ensures
        r@.to_multiset() == full_deck().to_multiset(),
        r@.len() == 52,
        valid_cards(r@),
{
    broadcast use vstd::seq_lib::group_to_multiset_ensures;

    let mut deck: Vec<Card> = Vec::new();
    let mut i: u8 = 0;
    while i < 52
        invariant
            i <= 52,
            deck@.len() == i as int,
            forall|k: int| 0 <= k < i as int ==> (#[trigger] deck@[k]).value == k,
        decreases 52 - i,
    {
        deck.push(Card { value: i });
        i += 1;
    }
    proof {
        assert(deck@ =~= full_deck());
    }
    shuffle_cards(&mut deck);
    proof {
        vstd::seq_lib::to_multiset_len(deck@);
        vstd::seq_lib::to_multiset_len(full_deck());
        assert forall|k: int| 0 <= k < deck@.len() implies (#[trigger] deck@[k]).value < 52 by {
            assert(deck@.contains(deck@[k]));
            vstd::seq_lib::to_multiset_contains(deck@, deck@[k]);
            vstd::seq_lib::to_multiset_contains(full_deck(), deck@[k]);
            assert(full_deck().contains(deck@[k]));
            let j = choose|j: int| 0 <= j < full_deck().len() && full_deck()[j] == deck@[k];
            assert(full_deck()[j].value == j);
        }
    }
    deck
}

/// What one showdown pass leaves behind, walking the round's seats in
/// order: the updated seats (winners and ties reveal their hand value),
/// the current leader, its value, and whether the lead is shared.
pub open spec fn showdown_scan(
    seats: Seq<Player>,
    mids: Seq<Card>,
    ids: Seq<usize>,
    w: Option<usize>,
    best: int,
    many: bool,
) -> (Seq<Player>, Option<usize>, int, bool)
    decreases ids.len(),
{
    if ids.len() == 0 {
        (seats, w, best, many)
    } else {
        let i = ids.first() as int;
        let p = seats[i];
        if p.has_folded {
            showdown_scan(seats, mids, ids.drop_first(), w, best, many)
        } else {
            let v = seat_hand_value(p, mids);
            let revealed = seats.update(
                i,
                Player { end_of_round_values: Some(v as usize), ..p },
            );
            if w is None {
                showdown_scan(revealed, mids, ids.drop_first(), Some(i as usize), v, false)
            } else if v == best {
                showdown_scan(revealed, mids, ids.drop_first(), w, best, true)
            } else if v > best {
                showdown_scan(revealed, mids, ids.drop_first(), Some(i as usize), v, false)
            } else {
                showdown_scan(seats, mids, ids.drop_first(), w, best, many)
            }
        }
    }
}

impl Game {
    /// Evaluates every surviving hand at showdown, records the values the
    /// seats will reveal, and names the winner — or reports that the best
    /// hand is shared, in which case nobody wins.
    pub fn showdown_evaluate(&mut self) -> (r: (Option<usize>, bool))
        requires
            old(self).wf(),
            old(self).open_middle_cards@.len() == 5,
            valid_cards(old(self).open_middle_cards@),
            forall|k: int|
                0 <= k < old(self).players_in_round@.len() ==> {
                    let p = old(self).players@[(#[trigger] old(self).players_in_round@[k]) as int];
                    p.has_folded || (p.cards@.len() == 2 && valid_cards(p.cards@))
                },
        ensures
            ({
                let sc = showdown_scan(
                    old(self).players@,
                    old(self).open_middle_cards@,
                    old(self).players_in_round@,
                    None::<usize>,
                    0,
                    false,
                );
                &&& final(self).players@ == sc.0
                &&& r == (sc.1, sc.3)
            }),
            *final(self) == (Game { players: final(self).players, ..*old(self) }),
            final(self).wf(),
    {
        let ghost s0 = self.players@;
        let ghost mids = self.open_middle_cards@;
        let ghost ids = self.players_in_round@;
        let mut w: Option<usize> = None;
        let mut best: usize = 0;
        let mut many: bool = false;
        let n = self.players_in_round.len();
        proof {
            assert(ids.subrange(0, n as int) =~= ids);
        }
        let mut k: usize = 0;
        while k < n
            invariant
                k <= n,
                n == self.players_in_round@.len(),
                ids == self.players_in_round@,
                mids == self.open_middle_cards@,
                mids.len() == 5,
                valid_cards(mids),
                s0.len() == self.players@.len(),
                forall|j: int|
                    0 <= j < s0.len() ==> self.players@[j] == (Player {
                        end_of_round_values: (#[trigger] self.players@[j]).end_of_round_values,
                        ..s0[j]
                    }),
                forall|kk: int|
                    0 <= kk < ids.len() ==> {
                        let p = s0[(#[trigger] ids[kk]) as int];
                        ids[kk] < s0.len() && (p.has_folded || (p.cards@.len() == 2
                            && valid_cards(p.cards@)))
                    },
                showdown_scan(s0, mids, ids, None::<usize>, 0, false) == showdown_scan(
                    self.players@,
                    mids,
                    ids.subrange(k as int, n as int),
                    w,
                    best as int,
                    many,
                ),
                *self == (Game { players: self.players, ..*old(self) }),
            decreases n - k,
        {
            let ghost suffix = ids.subrange(k as int, n as int);
            proof {
                assert(suffix.first() == ids[k as int]);
                assert(suffix.drop_first() =~= ids.subrange(k as int + 1, n as int));
            }
            let i = self.players_in_round[k];
            if !self.players[i].has_folded {
                let v = self.players[i].determine_card_value(&self.open_middle_cards);
                match w {
                    None => {
                        let p = seat_mut(&mut self.players, i);
                        p.end_of_round_values = Some(v);
                        w = Some(i);
                        best = v;
                        many = false;
                    },
                    Some(_) => {
                        if v == best {
                            let p = seat_mut(&mut self.players, i);
                            p.end_of_round_values = Some(v);
                            many = true;
                        } else if v > best {
                            let p = seat_mut(&mut self.players, i);
                            p.end_of_round_values = Some(v);
                            w = Some(i);
                            best = v;
                            many = false;
                        }
                    },
                }
            }
            k += 1;
        }
        proof {
            assert(ids.subrange(n as int, n as int) =~= Seq::<usize>::empty());
            lemma_total_chips_same_sums(old(self).players@, self.players@);
        }
        (w, many)
    }

    /// Forgets the values revealed at the last showdown.
    pub fn clear_end_of_round_values(&mut self)
        requires
            old(self).wf(),
        ensures
            final(self).players@.len() == old(self).players@.len(),
            forall|j: int|
                0 <= j < old(self).players@.len() ==> final(self).players@[j] == (Player {
                    end_of_round_values: None,
                    ..old(self).players@[j]
                }),
            *final(self) == (Game { players: final(self).players, ..*old(self) }),
            final(self).wf(),
    {
        let n = self.players.len();
        let mut i: usize = 0;
        while i < n
            invariant
                i <= n,
                n == self.players@.len() == old(self).players@.len(),
                forall|j: int|
                    0 <= j < i ==> self.players@[j] == (Player {
                        end_of_round_values: None,
                        ..old(self).players@[j]
                    }),
                forall|j: int| i <= j < n ==> self.players@[j] == old(self).players@[j],
                *self == (Game { players: self.players, ..*old(self) }),
            decreases n - i,
        {
            let p = seat_mut(&mut self.players, i);
            p.end_of_round_values = None;
            i += 1;
        }
        proof {
            lemma_total_chips_same_sums(old(self).players@, self.players@);
        }
    }

    /// Takes every seat's hole cards back off the table.
    pub fn clear_player_cards(&mut self)
        requires
            old(self).wf(),
        ensures
            final(self).players@.len() == old(self).players@.len(),
            forall|j: int|
                0 <= j < old(self).players@.len() ==> final(self).players@[j] == (Player {
                    cards: final(self).players@[j].cards,
                    ..old(self).players@[j]
                }) && final(self).players@[j].cards@.len() == 0,
            *final(self) == (Game { players: final(self).players, ..*old(self) }),
            final(self).wf(),
    {
        let n = self.players.len();
        let mut i: usize = 0;
        while i < n
            invariant
                i <= n,
                n == self.players@.len() == old(self).players@.len(),
                forall|j: int|
                    0 <= j < i ==> self.players@[j] == (Player {
                        cards: self.players@[j].cards,
                        ..old(self).players@[j]
                    }) && (#[trigger] self.players@[j]).cards@.len() == 0,
                forall|j: int| i <= j < n ==> self.players@[j] == old(self).players@[j],
                *self == (Game { players: self.players, ..*old(self) }),
            decreases n - i,
        {
            let p = seat_mut(&mut self.players, i);
            p.cards = Vec::new();
            i += 1;
        }
        proof {
            lemma_total_chips_same_sums(old(self).players@, self.players@);
        }
    }

    /// Turns the next community cards face up: `count` cards move from the
    /// top of the deck onto the table.
    pub fn reveal_community(&mut self, count: usize)
        requires
            old(self).wf(),
            count <= old(self).card_stack@.len(),
        ensures
            final(self).card_stack@ == old(self).card_stack@.subrange(
                0,
                old(self).card_stack@.len() - count,
            ),
            final(self).open_middle_cards@ == old(self).open_middle_cards@ + old(
                self,
            ).card_stack@.subrange(
                old(self).card_stack@.len() - count,
                old(self).card_stack@.len() as int,
            ).reverse(),
            *final(self) == (Game {
                card_stack: final(self).card_stack,
                open_middle_cards: final(self).open_middle_cards,
                ..*old(self)
            }),
            final(self).wf(),
    {
        let ghost l = old(self).card_stack@.len() as int;
        proof {
            assert(old(self).card_stack@.subrange(l, l).reverse() =~= Seq::<Card>::empty());
            assert(old(self).open_middle_cards@ + Seq::<Card>::empty() =~= old(
                self,
            ).open_middle_cards@);
        }
        let mut t: usize = 0;
        while t < count
            invariant
                t <= count,
                count <= l,
                l == old(self).card_stack@.len(),
                self.card_stack@ == old(self).card_stack@.subrange(0, l - t),
                self.open_middle_cards@ == old(self).open_middle_cards@ + old(
                    self,
                ).card_stack@.subrange(l - t, l).reverse(),
                *self == (Game {
                    card_stack: self.card_stack,
                    open_middle_cards: self.open_middle_cards,
                    ..*old(self)
                }),
            decreases count - t,
        {
            let c = self.card_stack.pop().unwrap();
            self.open_middle_cards.push(c);
            proof {
                assert(self.card_stack@ =~= old(self).card_stack@.subrange(0, l - t - 1));
                assert(old(self).card_stack@.subrange(l - t - 1, l).reverse() =~= old(
                    self,
                ).card_stack@.subrange(l - t, l).reverse().push(
                    old(self).card_stack@[l - t - 1],
                ));
                assert(self.open_middle_cards@ =~= old(self).open_middle_cards@ + old(
                    self,
                ).card_stack@.subrange(l - t - 1, l).reverse());
            }
            t += 1;
        }
    }

    /// Ends a hand early: the round number resets, the dealer rotates
    /// (doubling the blind when it wraps past seat 0), and every seat's
    /// hole cards leave the table.
    pub fn finish_hand_early(&mut self)
        requires
            old(self).wf(),
            old(self).small_blind * 2 <= usize::MAX,
        ensures
            final(self).round_number == 0,
            ({
                let len = old(self).players@.len() as int;
                let k = Self::dealer_steps(old(self).players@, old(self).dealer as int, 1);
                &&& final(self).dealer as int == seat_at(old(self).dealer as int, k, len)
                &&& final(self).small_blind as int == if old(self).dealer + k >= len {
                    2 * old(self).small_blind
                } else {
                    old(self).small_blind as int
                }
            }),
            final(self).players@.len() == old(self).players@.len(),
            forall|j: int|
                0 <= j < old(self).players@.len() ==> final(self).players@[j] == (Player {
                    cards: final(self).players@[j].cards,
                    ..old(self).players@[j]
                }) && final(self).players@[j].cards@.len() == 0,
            total_chips(final(self).players@) == total_chips(old(self).players@),
            final(self).open_middle_cards == old(self).open_middle_cards,
            final(self).card_stack == old(self).card_stack,
            final(self).players_in_round == old(self).players_in_round,
            final(self).wf(),
    {
        self.round_number = 0;
        self.move_dealer_and_increase_blind();
        self.clear_player_cards();
        proof {
            lemma_total_chips_same_sums(old(self).players@, self.players@);
        }
    }

    /// Inits the first round after starting the server or showdown: a
    /// fresh shuffled deck, an empty table, two hole cards to each seat in
    /// the round, and the two blinds posted under the usual clamp.
    pub fn init_round_0(&mut self)
        requires
            old(self).wf(),
            old(self).small_blind * 2 <= usize::MAX,
            forall|k: int|
                0 <= k < old(self).players_in_round@.len() ==> {
                    let p = old(self).players@[(#[trigger] old(
                        self,
                    ).players_in_round@[k]) as int];
                    p.cards@.len() == 0 && p.current_betting_amount == 0
                },
        ensures
            final(self).wf(),
            final(self).players@.len() == old(self).players@.len(),
            total_chips(final(self).players@) == total_chips(old(self).players@),
            final(self).open_middle_cards@.len() == 0,
            valid_cards(final(self).card_stack@),
            final(self).card_stack@.len() == 52 - 2 * old(self).players_in_round@.len(),
            forall|k: int|
                0 <= k < old(self).players_in_round@.len() ==> {
                    let p = final(self).players@[(#[trigger] old(
                        self,
                    ).players_in_round@[k]) as int];
                    p.cards@.len() == 2 && valid_cards(p.cards@)
                },
            forall|j: int|
                0 <= j < old(self).players@.len() ==> final(self).players@[j] == (Player {
                    cards: final(self).players@[j].cards,
                    coins: final(self).players@[j].coins,
                    current_betting_amount: final(self).players@[j].current_betting_amount,
                    ..old(self).players@[j]
                }),
            forall|j: int|
                0 <= j < old(self).players@.len() ==> (#[trigger] final(self).players@[j]).coins
                    + final(self).players@[j].current_betting_amount == old(self).players@[j].coins
                    + old(self).players@[j].current_betting_amount,
            ({
                let ids = old(self).players_in_round@;
                let sb = old(self).small_blind as int;
                &&& (ids.len() >= 1 ==> final(self).players@[ids[0] as int].current_betting_amount
                    as int == clamp_spec(
                    sb,
                    0,
                    old(self).players@[ids[0] as int].coins as int,
                    sb,
                    sb,
                ))
                &&& (ids.len() >= 2 ==> final(self).players@[ids[1] as int].current_betting_amount
                    as int == clamp_spec(
                    sb,
                    0,
                    old(self).players@[ids[1] as int].coins as int,
                    2 * sb,
                    sb,
                ))
                &&& forall|j: int|
                    0 <= j < old(self).players@.len() && (ids.len() < 1 || j != ids[0] as int) && (
                    ids.len() < 2 || j != ids[1] as int)
                        ==> (#[trigger] final(self).players@[j]).current_betting_amount == old(
                        self,
                    ).players@[j].current_betting_amount
            }),
            final(self).round_number == old(self).round_number,
            final(self).dealer == old(self).dealer,
            final(self).small_blind == old(self).small_blind,
            final(self).players_in_round == old(self).players_in_round,
    {
        let ghost s0 = self.players@;
        let ghost ids = self.players_in_round@;
        // There are no more than 6 players, cards always suffice
        self.card_stack = fresh_shuffled_deck();
        self.open_middle_cards = Vec::new();
        let ghost deck0 = self.card_stack@;
        let m = self.players_in_round.len();
        let mut k: usize = 0;
        while k < m
            invariant
                k <= m,
                m == self.players_in_round@.len(),
                ids == self.players_in_round@,
                in_round_ok(ids, s0.len() as int),
                s0.len() == self.players@.len(),
                m <= 6,
                deck0.len() == 52,
                valid_cards(deck0),
                self.open_middle_cards@.len() == 0,
                self.card_stack@ == deck0.subrange(0, 52 - 2 * k),
                forall|kk: int|
                    0 <= kk < ids.len() ==> {
                        let p = s0[(#[trigger] ids[kk]) as int];
                        p.cards@.len() == 0 && p.current_betting_amount == 0
                    },
                forall|j: int|
                    0 <= j < s0.len() ==> self.players@[j] == (Player {
                        cards: (#[trigger] self.players@[j]).cards,
                        ..s0[j]
                    }),
                forall|kk: int|
                    0 <= kk < k ==> {
                        let p = self.players@[(#[trigger] ids[kk]) as int];
                        p.cards@.len() == 2 && valid_cards(p.cards@)
                    },
                forall|kk: int|
                    k <= kk < m ==> (#[trigger] self.players@[ids[kk] as int]).cards
                        == s0[ids[kk] as int].cards,
                *self == (Game {
                    players: self.players,
                    card_stack: self.card_stack,
                    open_middle_cards: self.open_middle_cards,
                    ..*old(self)
                }),
            decreases m - k,
        {
            let id = self.players_in_round[k];
            let c1 = self.card_stack.pop().unwrap();
            let c2 = self.card_stack.pop().unwrap();
            proof {
                assert(self.card_stack@ =~= deck0.subrange(0, 52 - 2 * k - 2));
                assert(c1 == deck0[52 - 2 * k - 1]);
                assert(c2 == deck0[52 - 2 * k - 2]);
            }
            let p = seat_mut(&mut self.players, id);
            // Assert clean for each player
            p.cards.push(c1);
            p.cards.push(c2);
            k += 1;
        }
        proof {
            lemma_total_chips_same_sums(s0, self.players@);
        }
        // First player after dealer pays blind
        if self.players_in_round.len() >= 1 {
            let index = self.players_in_round[0];
            let sb = self.small_blind;
            proof {
                lemma_total_chips_each(self.players@, index as int);
            }
            let ghost before = self.players@;
            let p = seat_mut(&mut self.players, index);
            Game::try_set_player_bet(sb, p, sb, sb);
            proof {
                lemma_total_chips_update(before, index as int, self.players@[index as int]);
            }
        }
        // Second player after dealer pays blind * 2
        if self.players_in_round.len() >= 2 {
            let index = self.players_in_round[1];
            let sb = self.small_blind;
            proof {
                lemma_total_chips_each(self.players@, index as int);
            }
            let ghost before = self.players@;
            let p = seat_mut(&mut self.players, index);
            Game::try_set_player_bet(sb, p, 2 * sb, sb);
            proof {
                lemma_total_chips_update(before, index as int, self.players@[index as int]);
            }
        }
        proof {
            lemma_total_chips_same_sums(s0, self.players@);
        }
    }
}

/// What a seat looks like after its bet is clamped toward `amount0`
/// against the table's `minimal` floor.
pub open spec fn bet_result(p: Player, blind: int, amount0: int, minimal: int) -> Player {
    let bet = clamp_spec(blind, p.current_betting_amount as int, p.coins as int, amount0, minimal);
    Player {
        coins: (p.coins + p.current_betting_amount - bet) as usize,
        current_betting_amount: bet as usize,
        ..p
    }
}

impl Game {
    /// Applies one seat's answer in a betting phase: a raise moves its bet
    /// toward the requested amount, a pass calls, and anything else —
    /// including silence and a lost connection — folds the seat.
    pub fn apply_bet_response(&mut self, idx_in_round: usize, message: RawMessage)
        requires
            old(self).wf(),
            idx_in_round < old(self).players_in_round@.len(),
        ensures
            ({
                let id = old(self).players_in_round@[idx_in_round as int] as int;
                let hb = highest_bet(old(self).players@);
                let sb = old(self).small_blind as int;
                let p = old(self).players@[id];
                match message {
                    RawMessage::PlayerChoice(PlayerChoice::RaiseTo(x)) => final(self).players@
                        == old(self).players@.update(id, bet_result(p, sb, x as int, hb)),
                    RawMessage::PlayerChoice(PlayerChoice::Pass) => final(self).players@ == old(
                        self,
                    ).players@.update(
                        id,
                        bet_result(p, sb, p.current_betting_amount as int, hb),
                    ),
                    _ => final(self).players@ == old(self).players@.update(
                        id,
                        Player { has_folded: true, ..p },
                    ),
                }
            }),
            *final(self) == (Game { players: final(self).players, ..*old(self) }),
            final(self).wf(),
    {
        let highest_bet = self.get_highest_bet_in_round();
        let sb = self.small_blind;
        let id = self.players_in_round[idx_in_round];
        proof {
            lemma_total_chips_each(self.players@, id as int);
        }
        let ghost before = self.players@;
        let p = seat_mut(&mut self.players, id);
        match message {
            RawMessage::PlayerChoice(PlayerChoice::RaiseTo(amount)) => {
                Game::try_set_player_bet(sb, p, amount, highest_bet);
            },
            RawMessage::PlayerChoice(PlayerChoice::Pass) => {
                let cur = p.current_betting_amount();
                Game::try_set_player_bet(sb, p, cur, highest_bet);
            },
            _ => {
                // All action which is not raise is considered fold!
                // So that players who do not play are automatically
                // excluded from the rounds
                p.has_folded = true;
            },
        }
        proof {
            lemma_total_chips_update(before, id as int, self.players@[id as int]);
        }
    }

    /// Applies one seat's answer in an equalize phase: a raise or a pass
    /// calls the table's highest bet, anything else folds the seat.
    pub fn apply_equalize_response(&mut self, idx_in_round: usize, message: RawMessage)
        requires
            old(self).wf(),
            idx_in_round < old(self).players_in_round@.len(),
        ensures
            ({
                let id = old(self).players_in_round@[idx_in_round as int] as int;
                let hb = highest_bet(old(self).players@);
                let sb = old(self).small_blind as int;
                let p = old(self).players@[id];
                match message {
                    RawMessage::PlayerChoice(PlayerChoice::RaiseTo(_))
                    | RawMessage::PlayerChoice(PlayerChoice::Pass) => final(self).players@ == old(
                        self,
                    ).players@.update(id, bet_result(p, sb, hb, hb)),
                    _ => final(self).players@ == old(self).players@.update(
                        id,
                        Player { has_folded: true, ..p },
                    ),
                }
            }),
            *final(self) == (Game { players: final(self).players, ..*old(self) }),
            final(self).wf(),
    {
        let highest_bet = self.get_highest_bet_in_round();
        let sb = self.small_blind;
        let id = self.players_in_round[idx_in_round];
        proof {
            lemma_total_chips_each(self.players@, id as int);
        }
        let ghost before = self.players@;
        let p = seat_mut(&mut self.players, id);
        match message {
            RawMessage::PlayerChoice(PlayerChoice::RaiseTo(_))
            | RawMessage::PlayerChoice(PlayerChoice::Pass) => {
                Game::try_set_player_bet(sb, p, highest_bet, highest_bet);
            },
            _ => {
                // All action which is not raise is considered fold!
                p.has_folded = true;
            },
        }
        proof {
            lemma_total_chips_update(before, id as int, self.players@[id as int]);
        }
    }

    /// Whether a seat still has to answer in an equalize phase: only if
    /// its bet differs from the table's highest.
    pub fn needs_equalize(&self, idx_in_round: usize) -> (r: bool)
        requires
            self.wf(),
            idx_in_round < self.players_in_round@.len(),
        ensures
            r == (self.players@[self.players_in_round@[idx_in_round as int] as int].current_betting_amount
                as int != highest_bet(self.players@)),
    {
        let hb = self.get_highest_bet_in_round();
        let id = self.players_in_round[idx_in_round];
        self.players[id].current_betting_amount() != hb
    }
}

impl Game {
    /// Builds the `game_state` broadcast for one seat: its own hole
    /// cards, the table, and every seat's public state; the hole cards of
    /// other seats appear only where a showdown value was revealed.
    pub fn build_game_status(&self, viewer: usize, hand_winner: Option<usize>, is_showdown: bool)
        -> (r: RawMessage)
        requires
            self.wf(),
            viewer < self.players@.len(),
            hand_winner matches Some(w) ==> w < self.players@.len(),
            forall|j: int|
                0 <= j < self.players@.len() ==> ((#[trigger] self.players@[j]).end_of_round_values
                    is Some ==> self.players@[j].cards@.len() >= 2),
        ensures
            r matches RawMessage::GameStatus {
                personal_cards,
                personal_id,
                middle_cards,
                player_names,
                player_cards,
                player_betting_amount,
                player_money,
                player_has_folded,
                player_is_out,
                round_number,
                is_started,
                hand_winner: hw,
                is_showdown: sd,
            } && {
                let seats = self.players@;
                &&& personal_id == viewer
                &&& personal_cards == if seats[viewer as int].cards@.len() >= 2 {
                    (seats[viewer as int].cards@[0], seats[viewer as int].cards@[1])
                } else {
                    (Card { value: 0 }, Card { value: 0 })
                }
                &&& middle_cards@ == self.open_middle_cards@
                &&& player_names@.len() == seats.len()
                &&& forall|j: int|
                    0 <= j < seats.len() ==> (#[trigger] player_names@[j])@
                        == seats[j].display_name@
                &&& player_cards@.len() == seats.len()
                &&& forall|j: int|
                    0 <= j < seats.len() ==> if seats[j].end_of_round_values is Some {
                        (#[trigger] player_cards@[j]) == Some(
                            (seats[j].cards@[0], seats[j].cards@[1]),
                        )
                    } else {
                        player_cards@[j] is None
                    }
                &&& player_betting_amount@.len() == seats.len()
                &&& forall|j: int|
                    0 <= j < seats.len() ==> (#[trigger] player_betting_amount@[j])
                        == seats[j].current_betting_amount
                &&& player_money@.len() == seats.len()
                &&& forall|j: int|
                    0 <= j < seats.len() ==> (#[trigger] player_money@[j]) == seats[j].coins
                &&& player_has_folded@.len() == seats.len()
                &&& forall|j: int|
                    0 <= j < seats.len() ==> (#[trigger] player_has_folded@[j])
                        == seats[j].has_folded
                &&& player_is_out@.len() == seats.len()
                &&& forall|j: int|
                    0 <= j < seats.len() ==> (#[trigger] player_is_out@[j]) == seats[j].is_out
                &&& round_number == self.round_number
                &&& is_started == true
                &&& hw == match hand_winner {
                    Some(t) => t as i8,
                    None => -1i8,
                }
                &&& sd == is_showdown
            },
    {
        let n = self.players.len();
        let mut middle_cards: Vec<Card> = Vec::new();
        let mut i: usize = 0;
        while i < self.open_middle_cards.len()
            invariant
                i <= self.open_middle_cards@.len(),
                middle_cards@ == self.open_middle_cards@.subrange(0, i as int),
            decreases self.open_middle_cards@.len() - i,
        {
            middle_cards.push(self.open_middle_cards[i]);
            proof {
                assert(middle_cards@ =~= self.open_middle_cards@.subrange(0, i as int + 1));
            }
            i += 1;
        }
        proof {
            assert(middle_cards@ =~= self.open_middle_cards@);
        }
        let mut player_names: Vec<String> = Vec::new();
        let mut i: usize = 0;
        while i < n
            invariant
                i <= n,
                n == self.players@.len(),
                player_names@.len() == i,
                forall|j: int|
                    0 <= j < i ==> (#[trigger] player_names@[j])@
                        == self.players@[j].display_name@,
            decreases n - i,
        {
            player_names.push(self.players[i].display_name.clone());
            i += 1;
        }
        let mut player_cards: Vec<Option<(Card, Card)>> = Vec::new();
        let mut i: usize = 0;
        while i < n
            invariant
                i <= n,
                n == self.players@.len(),
                forall|j: int|
                    0 <= j < self.players@.len() ==> ((#[trigger] self.players@[j]).end_of_round_values
                        is Some ==> self.players@[j].cards@.len() >= 2),
                player_cards@.len() == i,
                forall|j: int|
                    0 <= j < i ==> if self.players@[j].end_of_round_values is Some {
                        (#[trigger] player_cards@[j]) == Some(
                            (self.players@[j].cards@[0], self.players@[j].cards@[1]),
                        )
                    } else {
                        player_cards@[j] is None
                    },
            decreases n - i,
        {
            let entry: Option<(Card, Card)> = match self.players[i].end_of_round_values {
                Some(_) => Some((self.players[i].cards[0], self.players[i].cards[1])),
                None => None,
            };
            player_cards.push(entry);
            i += 1;
        }
        let mut player_betting_amount: Vec<usize> = Vec::new();
        let mut i: usize = 0;
        while i < n
            invariant
                i <= n,
                n == self.players@.len(),
                player_betting_amount@.len() == i,
                forall|j: int|
                    0 <= j < i ==> (#[trigger] player_betting_amount@[j])
                        == self.players@[j].current_betting_amount,
            decreases n - i,
        {
            player_betting_amount.push(self.players[i].current_betting_amount());
            i += 1;
        }
        let mut player_money: Vec<usize> = Vec::new();
        let mut i: usize = 0;
        while i < n
            invariant
                i <= n,
                n == self.players@.len(),
                player_money@.len() == i,
                forall|j: int|
                    0 <= j < i ==> (#[trigger] player_money@[j]) == self.players@[j].coins,
            decreases n - i,
        {
            player_money.push(self.players[i].coins());
            i += 1;
        }
        let mut player_has_folded: Vec<bool> = Vec::new();
        let mut i: usize = 0;
        while i < n
            invariant
                i <= n,
                n == self.players@.len(),
                player_has_folded@.len() == i,
                forall|j: int|
                    0 <= j < i ==> (#[trigger] player_has_folded@[j])
                        == self.players@[j].has_folded,
            decreases n - i,
        {
            player_has_folded.push(self.players[i].has_folded);
            i += 1;
        }
        let mut player_is_out: Vec<bool> = Vec::new();
        let mut i: usize = 0;
        while i < n
            invariant
                i <= n,
                n == self.players@.len(),
                player_is_out@.len() == i,
                forall|j: int|
                    0 <= j < i ==> (#[trigger] player_is_out@[j]) == self.players@[j].is_out,
            decreases n - i,
        {
            player_is_out.push(self.players[i].is_out);
            i += 1;
        }
        let personal_cards: (Card, Card) = if self.players[viewer].cards.len() >= 2 {
            (self.players[viewer].cards[0], self.players[viewer].cards[1])
        } else {
            (Card { value: 0 }, Card { value: 0 })
        };
        let hw: i8 = match hand_winner {
            Some(t) => t as i8,
            None => -1,
        };
        RawMessage::GameStatus {
            personal_cards,
            personal_id: viewer,
            middle_cards,
            player_names,
            player_cards,
            player_betting_amount,
            player_money,
            player_has_folded,
            player_is_out,
            round_number: self.round_number,
            is_started: true,
            hand_winner: hw,
            is_showdown,
        }
    }
}

/// Decides what a message arriving during a seat's turn means: an answer
/// from the awaited seat ends the wait — a play as itself, a lost
/// connection as silence — and everything else is ignored.
pub fn interpret_turn_message(awaited: usize, com: PlayerCommunication) -> (r: Option<
    RawMessage,
>)
    ensures
        r == if com.sender == awaited {
            match com.message {
                RawMessage::PlayerChoice(_) => Some(com.message),
                RawMessage::ConnectionEnded => Some(RawMessage::ConnectionEnded),
                _ => None::<RawMessage>,
            }
        } else {
            None::<RawMessage>
        },
{
    if com.sender == awaited {
        match com.message {
            RawMessage::PlayerChoice(c) => Some(RawMessage::PlayerChoice(c)),
            RawMessage::ConnectionEnded => Some(RawMessage::ConnectionEnded),
            _ => None,
        }
    } else {
        // Ignore all other messages
        None
    }
}

/// The choice imputed to a seat that is already disconnected when its
/// turn starts: an all-in raise.
pub fn disconnected_player_response() -> (r: RawMessage)
    ensures
        r == RawMessage::PlayerChoice(PlayerChoice::RaiseTo(usize::MAX)),
{
    RawMessage::PlayerChoice(PlayerChoice::RaiseTo(usize::MAX))
}

/// Whether the lobby may close: at least two seats, every one of them
/// ready.
pub fn lobby_all_ready(players: &Vec<Player>) -> (b: bool)
    ensures
        b == (players@.len() > 1 && forall|i: int|
            0 <= i < players@.len() ==> (#[trigger] players@[i]).begin_game),
{
    if players.len() <= 1 {
        return false;
    }
    let n = players.len();
    let mut i: usize = 0;
    while i < n
        invariant
            i <= n,
            n == players@.len(),
            forall|j: int| 0 <= j < i ==> (#[trigger] players@[j]).begin_game,
        decreases n - i,
    {
        if !players[i].begin_game {
            return false;
        }
        i += 1;
    }
    true
}

/// Applies one lobby message: `is_ready` marks the seat ready and reports
/// whether the game can start, `set_display_name` renames the seat, and
/// everything else is ignored.
pub fn apply_lobby_message(players: &mut Vec<Player>, sender: usize, message: RawMessage) -> (start:
    bool)
    requires
        sender < old(players)@.len(),
    ensures
        match message {
            RawMessage::IsReady => final(players)@ == old(players)@.update(
                sender as int,
                Player { begin_game: true, ..old(players)@[sender as int] },
            ) && start == (final(players)@.len() > 1 && forall|i: int|
                0 <= i < final(players)@.len() ==> (#[trigger] final(players)@[i]).begin_game),
            RawMessage::SetDisplayName(name) => final(players)@ == old(players)@.update(
                sender as int,
                Player { display_name: name, ..old(players)@[sender as int] },
            ) && !start,
            _ => final(players)@ == old(players)@ && !start,
        },
{
    match message {
        RawMessage::IsReady => {
            let p = seat_mut(players, sender);
            p.begin_game = true;
            // If more than one player, and everyone is ready, start game
            lobby_all_ready(players)
        },
        RawMessage::SetDisplayName(name) => {
            let p = seat_mut(players, sender);
            p.display_name = name;
            false
        },
        _ => {
            // Ignore other unknown messages
            false
        },
    }
}

} // verus!
