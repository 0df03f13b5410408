use std::collections::HashMap;
use rand::rngs::ThreadRng;
use rand::Rng;
use vstd::prelude::*;
use crate::dice::{
    is_sorted, kept, kept_upto, lemma_choose_all, lemma_faces_of_kept, lemma_faces_of_rearranged,
    lemma_sorted_dice, lemma_sorted_unique, lemma_split_keeps_all, picked, sort_dice, sorted_dice,
};
use vstd::set_lib::{lemma_len_subset, lemma_subset_equality};
use vstd::arithmetic::div_mod::lemma_add_mod_noop_right;
use crate::menu::DiceSelection;
use crate::scoring::{all_faces, lemma_accepted_score_fits, ScoringRule};

verus! {

broadcast use vstd::std_specs::hash::group_hash_axioms;

#[verifier::external_type_specification]
#[verifier::external_body]
pub struct ExThreadRng(ThreadRng);

/// Calls `rand::thread_rng`: a handle to the random number generator of the
/// current thread, which rand seeds from the system (and panics if the system
/// gives no seed). Nothing is claimed of the handle.
#[verifier::external_body]
fn thread_rng() -> ThreadRng {
    rand::thread_rng()
}

/// Calls `rand::Rng::gen_range(1..=6)` on the generator. The face is random;
/// rand documents that `gen_range` returns a value inside the range given,
/// so all that is claimed is that the face lies between 1 and 6. (When the
/// generator reseeds itself and the system gives no seed, rand panics; that
/// failure of the system is not ruled out here.)
#[verifier::external_body]
fn roll_die(rng: &mut ThreadRng) -> (face: u32)
    ensures
        1 <= face <= 6,
{
    rng.gen_range(1..=6)
}

/// Rolls `n` fresh dice.
fn roll_dice(n: usize, rng: &mut ThreadRng) -> (dice: Vec<u32>)
    ensures
        dice.len() == n,
        all_faces(dice@),
{
    let mut dice: Vec<u32> = Vec::new();
    let mut i: usize = 0;
    while i < n
        invariant
            i <= n,
            dice.len() == i,
            all_faces(dice@),
        decreases n - i,
    {
        let face = roll_die(rng);
        dice.push(face);
        i = i + 1;
    }
    dice
}

/// One player: the categories scored so far, and the player's number.
/// Categories are told apart by name: a score is kept under the position of
/// the first rule with the category's name.
pub struct PlayerStats {
    pub scores: HashMap<usize, u32>,
    pub num: usize,
}

impl PlayerStats {
    /// A player with number `num` who has scored nothing yet.
    pub fn new(num: usize) -> (player: PlayerStats)
        ensures
            player.scores@ == Map::<usize, u32>::empty(),
            player.num == num,
    {
        PlayerStats { scores: HashMap::new(), num: num }
    }
}

/// Where the current player stands in a turn.
#[derive(Clone, Copy, Debug, PartialEq, Eq, Structural)]
pub enum TurnState {
    /// The dice have not been rolled yet.
    FirstRoll,
    /// The dice were rolled, then rerolled the given number of times.
    ReRoll(u32),
    /// All dice are held; a category is to be scored.
    Score,
}

/// How many times a player may reroll in one turn.
pub const MAX_REROLLS: u32 = 2;

/// What the game waits for next.
#[derive(Clone, Copy, Debug, PartialEq, Eq, Structural)]
pub enum Step {
    /// Nothing to choose: move on to the next stage of the turn.
    Advance,
    /// The player chooses dice to hold, and the others are rerolled.
    ChooseDice,
    /// The player chooses the category to score.
    ChooseScore,
}

/// The state of a game as the contracts see it.
pub struct GameView {
    pub players: Seq<PlayerStats>,
    pub turn_state: TurnState,
    pub current_player: nat,
    pub scoring: Seq<ScoringRule>,
    pub locked_dice: Seq<u32>,
    pub dice: Seq<u32>,
}

impl GameView {
    /// The invariant of a game: the current player exists, all dice show a
    /// face, the held dice are in order, scores are kept only for existing
    /// categories, and the players are numbered from 1.
    pub open spec fn wf(self) -> bool {
        &&& self.players.len() > 0 ==> self.current_player < self.players.len()
        &&& all_faces(self.dice)
        &&& all_faces(self.locked_dice)
        &&& is_sorted(self.locked_dice)
        &&& forall|p: int, k: usize|
            0 <= p < self.players.len() && #[trigger] self.players[p].scores@.contains_key(k) ==> k
                < self.scoring.len() && self.key_of(k as int) == k
        &&& forall|p: int| 0 <= p < self.players.len() ==> #[trigger] self.players[p].num == p + 1
        &&& self.scoring.len() <= usize::MAX
    }

    /// Where the scores of category `k` are kept: the position of the first
    /// category with the same name.
    pub open spec fn key_of(self, k: int) -> usize {
        first_named(self.scoring, self.scoring[k]@.0, 0) as usize
    }

    /// No two categories have the same name.
    pub open spec fn distinct_names(self) -> bool {
        forall|i: int, j: int|
            0 <= i < self.scoring.len() && 0 <= j < self.scoring.len() && i != j ==> #[trigger] self.scoring[i]@.0
                != #[trigger] self.scoring[j]@.0
    }

    /// Player `p` has scored the category `k` (or one with the same name).
    pub open spec fn scored(self, p: int, k: int) -> bool {
        self.players[p].scores@.contains_key(self.key_of(k))
    }

    /// All dice of the turn, held and free, in ascending order.
    pub open spec fn full_roll(self) -> Seq<u32> {
        sorted_dice(self.locked_dice + self.dice)
    }

    /// What category `k` is worth for the dice of the turn.
    pub open spec fn category_score(self, k: int) -> nat {
        self.scoring[k]@.1.score(self.full_roll())
    }

    /// Every category that the current player has not scored can score the
    /// dice of the turn.
    pub open spec fn scorable(self) -> bool {
        forall|k: int|
            0 <= k < self.scoring.len() && !#[trigger] self.scored(self.current_player as int, k)
                ==> self.scoring[k]@.1.accepts(self.full_roll())
    }

    /// The categories below `n` that the current player has not scored, in order.
    pub open spec fn open_upto(self, n: int) -> Seq<usize>
        decreases n,
    {
        if n <= 0 {
            seq![]
        } else if self.scored(self.current_player as int, n - 1) {
            self.open_upto(n - 1)
        } else {
            self.open_upto(n - 1).push((n - 1) as usize)
        }
    }

    /// The categories that the current player can still score, in order.
    pub open spec fn open_categories(self) -> Seq<usize> {
        self.open_upto(self.scoring.len() as int)
    }

    /// The same game with other dice and another stage of the turn.
    pub open spec fn with_dice(self, locked: Seq<u32>, dice: Seq<u32>, turn: TurnState) -> GameView {
        GameView {
            players: self.players,
            turn_state: turn,
            current_player: self.current_player,
            scoring: self.scoring,
            locked_dice: locked,
            dice: dice,
        }
    }

    /// The same game at the first roll of the next player.
    pub open spec fn passed_on(self) -> GameView {
        GameView {
            players: self.players,
            turn_state: TurnState::FirstRoll,
            current_player: (self.current_player + 1) % self.players.len(),
            scoring: self.scoring,
            locked_dice: self.locked_dice,
            dice: self.dice,
        }
    }

    /// The scores of the current player after choosing category `k`: the
    /// dice's score for it is recorded if `k` is a category that the player
    /// has not scored yet; otherwise nothing changes.
    pub open spec fn scores_after_pick(self, k: int) -> Map<usize, u32> {
        let mine = self.players[self.current_player as int].scores@;
        if 0 <= k < self.scoring.len() && !self.scored(self.current_player as int, k) {
            mine.insert(self.key_of(k), self.category_score(k) as u32)
        } else {
            mine
        }
    }

    /// Moving the turn on leads from this state to `after`: from the first
    /// roll to rerolling, with nothing held and five dice free; from
    /// rerolling to scoring, with every die held; from scoring to the first
    /// roll of the next player.
    pub open spec fn advances_to(self, after: GameView) -> bool {
        match self.turn_state {
            TurnState::FirstRoll => {
                &&& after.dice.len() == 5
                &&& all_faces(after.dice)
                &&& after == self.with_dice(Seq::empty(), after.dice, TurnState::ReRoll(0))
            },
            TurnState::ReRoll(_) => after == self.with_dice(
                sorted_dice(self.locked_dice + self.dice),
                Seq::empty(),
                TurnState::Score,
            ),
            TurnState::Score => after == self.passed_on(),
        }
    }

    /// What the game waits for next.
    pub open spec fn step(self) -> Step {
        match self.turn_state {
            TurnState::FirstRoll => Step::Advance,
            TurnState::ReRoll(x) => if x >= MAX_REROLLS || self.dice.len() == 0 {
                Step::Advance
            } else {
                Step::ChooseDice
            },
            TurnState::Score => Step::ChooseScore,
        }
    }

    /// `other` is this game with only the scores of player `p` changed.
    pub open spec fn only_scores_differ(self, other: GameView, p: int) -> bool {
        &&& other.players.len() == self.players.len()
        &&& forall|q: int| 0 <= q < self.players.len() && q != p ==> #[trigger] other.players[q] == self.players[q]
        &&& other.players[p].num == self.players[p].num
        &&& other.turn_state == self.turn_state
        &&& other.current_player == self.current_player
        &&& other.scoring == self.scoring
        &&& other.locked_dice == self.locked_dice
        &&& other.dice == self.dice
    }

    /// The total score of player `p`.
    pub open spec fn total(self, p: int) -> nat {
        score_total(self.players[p].scores@, self.scoring.len())
    }

    /// Every player has scored every category.
    pub open spec fn all_scored(self) -> bool {
        forall|p: int, k: int|
            0 <= p < self.players.len() && 0 <= k < self.scoring.len() ==> #[trigger] self.scored(p, k)
    }
}

/// The position of the first category named `name`, looking from position
/// `j` on; the number of categories if there is none.
pub open spec fn first_named(scoring: Seq<ScoringRule>, name: Seq<char>, j: int) -> int
    decreases scoring.len() - j,
{
    if j < 0 || j >= scoring.len() {
        scoring.len() as int
    } else if scoring[j]@.0 == name {
        j
    } else {
        first_named(scoring, name, j + 1)
    }
}

/// Looking from `j` on for the name of category `k` (at or after `j`)
/// finds a category of that name no later than `k`, and none before it.
proof fn lemma_first_named(scoring: Seq<ScoringRule>, k: int, j: int)
    requires
        0 <= j <= k < scoring.len(),
    ensures
        j <= first_named(scoring, scoring[k]@.0, j) <= k,
        scoring[first_named(scoring, scoring[k]@.0, j)]@.0 == scoring[k]@.0,
        forall|i: int| j <= i < first_named(scoring, scoring[k]@.0, j) ==> #[trigger] scoring[i]@.0 != scoring[k]@.0,
    decreases k - j,
{
    if scoring[j]@.0 != scoring[k]@.0 {
        lemma_first_named(scoring, k, j + 1);
    }
}

/// The key of a category is the position of a category of the same name,
/// no later than it, and is its own key.
pub proof fn lemma_key_of(g: GameView, k: int)
    requires
        0 <= k < g.scoring.len(),
        g.scoring.len() <= usize::MAX,
    ensures
        g.key_of(k) <= k,
        g.scoring[g.key_of(k) as int]@.0 == g.scoring[k]@.0,
        g.key_of(g.key_of(k) as int) == g.key_of(k),
        g.distinct_names() ==> g.key_of(k) == k,
{
    lemma_first_named(g.scoring, k, 0);
    let f = g.key_of(k) as int;
    lemma_first_named(g.scoring, f, 0);
    if g.distinct_names() && f != k {
        assert(g.scoring[f]@.0 != g.scoring[k]@.0);
    }
}

/// The sum of the scores kept for the categories below `n`.
pub open spec fn score_total(scores: Map<usize, u32>, n: nat) -> nat
    decreases n,
{
    if n == 0 {
        0
    } else {
        score_total(scores, (n - 1) as nat) + if scores.contains_key((n - 1) as usize) {
            scores[(n - 1) as usize] as nat
        } else {
            0
        }
    }
}

/// The sum over fewer categories is never larger.
proof fn lemma_score_total_prefix(scores: Map<usize, u32>, i: nat, n: nat)
    requires
        i <= n,
    ensures
        score_total(scores, i) <= score_total(scores, n),
    decreases n,
{
    if i < n {
        lemma_score_total_prefix(scores, i, (n - 1) as nat);
    }
}

/// A game in progress: the players, the rules, the dice of the current turn.
pub struct GameState {
    players: Vec<PlayerStats>,
    turn_state: TurnState,
    current_player: usize,
    scoring: Vec<ScoringRule>,
    locked_dice: Vec<u32>,
    dice: Vec<u32>,
    rng: ThreadRng,
}

impl View for GameState {
    type V = GameView;

    closed spec fn view(&self) -> GameView {
        GameView {
            players: self.players@,
            turn_state: self.turn_state,
            current_player: self.current_player as nat,
            scoring: self.scoring@,
            locked_dice: self.locked_dice@,
            dice: self.dice@,
        }
    }
}

impl GameState {
    /// A game for `player_count` players, numbered from 1, with the given
    /// categories; player 1 is about to roll.
    pub fn new(player_count: usize, scoring_rules: &Vec<ScoringRule>) -> (game: GameState)
        ensures
            game@.wf(),
            game@.players.len() == player_count,
            forall|p: int| 0 <= p < player_count ==> #[trigger] game@.players[p].scores@ == Map::<
                usize,
                u32,
            >::empty(),
            game@.turn_state == TurnState::FirstRoll,
            game@.current_player == 0,
            game@.scoring.len() == scoring_rules.len(),
            forall|k: int| 0 <= k < scoring_rules.len() ==> #[trigger] game@.scoring[k]@ == scoring_rules[k]@,
            game@.locked_dice.len() == 0,
            game@.dice.len() == 0,
    {
        let mut players: Vec<PlayerStats> = Vec::new();
        let mut x: usize = 0;
        while x < player_count
            invariant
                x <= player_count,
                players.len() == x,
                forall|p: int| 0 <= p < x ==> #[trigger] players[p].scores@ == Map::<usize, u32>::empty(),
                forall|p: int| 0 <= p < x ==> #[trigger] players[p].num == p + 1,
            decreases player_count - x,
        {
            players.push(PlayerStats::new(x + 1));
            x = x + 1;
        }
        let mut scoring: Vec<ScoringRule> = Vec::new();
        let mut k: usize = 0;
        while k < scoring_rules.len()
            invariant
                k <= scoring_rules.len(),
                scoring.len() == k,
                forall|j: int| 0 <= j < k ==> #[trigger] scoring[j]@ == scoring_rules[j]@,
            decreases scoring_rules.len() - k,
        {
            scoring.push(scoring_rules[k].clone());
            k = k + 1;
        }
        GameState {
            players: players,
            turn_state: TurnState::FirstRoll,
            current_player: 0,
            scoring: scoring,
            locked_dice: Vec::new(),
            dice: Vec::new(),
            rng: thread_rng(),
        }
    }

    /// Where the current player stands in the turn.
    pub fn turn_state(&self) -> (state: TurnState)
        ensures
            state == self@.turn_state,
    {
        self.turn_state
    }

    /// All players, in order of play.
    pub fn players(&self) -> (players: &Vec<PlayerStats>)
        ensures
            players@ == self@.players,
    {
        &self.players
    }

    /// The player whose turn it is.
    pub fn current_player(&self) -> (player: &PlayerStats)
        requires
            self@.wf(),
            self@.players.len() > 0,
        ensures
            *player == self@.players[self@.current_player as int],
    {
        &self.players[self.current_player]
    }

    /// The held dice, in ascending order.
    pub fn locked_dice(&self) -> (dice: &[u32])
        ensures
            dice@ == self@.locked_dice,
    {
        self.locked_dice.as_slice()
    }

    /// The free dice, which the next reroll rolls again.
    pub fn dice(&self) -> (dice: &[u32])
        ensures
            dice@ == self@.dice,
    {
        self.dice.as_slice()
    }
}


impl GameState {
    /// Holds the free dice at the positions in `selection`: while rerolling,
    /// they join the held dice, which are kept in ascending order, and leave
    /// the free ones. At any other stage of the turn nothing changes.
    pub fn lock(&mut self, selection: &[usize])
        requires
            old(self)@.wf(),
            old(self)@.turn_state is ReRoll ==> forall|k: int|
                0 <= k < selection.len() ==> #[trigger] selection[k] < old(self)@.dice.len(),
        ensures
            final(self)@.wf(),
            old(self)@.turn_state is ReRoll ==> final(self)@ == old(self)@.with_dice(
                sorted_dice(old(self)@.locked_dice + picked(old(self)@.dice, selection@)),
                kept(old(self)@.dice, selection@),
                old(self)@.turn_state,
            ),
            !(old(self)@.turn_state is ReRoll) ==> final(self)@ == old(self)@,
    {
        match self.turn_state {
            TurnState::ReRoll(_) => {
                let ghost dice0 = self.dice@;
                let ghost locked0 = self.locked_dice@;
                let n = self.dice.len();
                let mut keep: Vec<bool> = Vec::new();
                let mut j: usize = 0;
                while j < n
                    invariant
                        j <= n,
                        keep.len() == j,
                        forall|i: int| 0 <= i < j ==> #[trigger] keep[i],
                    decreases n - j,
                {
                    keep.push(true);
                    j = j + 1;
                }
                let mut all: Vec<u32> = Vec::new();
                let mut i: usize = 0;
                while i < self.locked_dice.len()
                    invariant
                        self.locked_dice@ == locked0,
                        i <= locked0.len(),
                        all@ == locked0.take(i as int),
                    decreases locked0.len() - i,
                {
                    all.push(self.locked_dice[i]);
                    proof {
                        assert(locked0.take(i + 1) =~= locked0.take(i as int).push(locked0[i as int]));
                    }
                    i = i + 1;
                }
                proof {
                    assert(locked0.take(locked0.len() as int) =~= locked0);
                }
                let mut k: usize = 0;
                while k < selection.len()
                    invariant
                        self.dice@ == dice0,
                        n == dice0.len(),
                        forall|t: int| 0 <= t < selection.len() ==> #[trigger] selection[t] < n,
                        k <= selection.len(),
                        keep.len() == n,
                        all@ == locked0 + picked(dice0, selection@.take(k as int)),
                        forall|t: int| 0 <= t < n ==> #[trigger] keep[t] == !selection@.take(k as int).contains(
                            t as usize,
                        ),
                    decreases selection.len() - k,
                {
                    let ind = selection[k];
                    let die = self.dice[ind];
                    all.push(die);
                    keep.set(ind, false);
                    proof {
                        let before = selection@.take(k as int);
                        let after = selection@.take(k + 1);
                        assert(after =~= before.push(ind));
                        assert(picked(dice0, after) =~= picked(dice0, before).push(die));
                        assert forall|t: int| 0 <= t < n implies #[trigger] keep[t] == !after.contains(t as usize) by {
                            if after.contains(t as usize) {
                                let w = choose|w: int| 0 <= w < after.len() && after[w] == t as usize;
                                if w < before.len() {
                                    assert(before[w] == t as usize);
                                }
                            }
                            if before.contains(t as usize) {
                                let w = choose|w: int| 0 <= w < before.len() && before[w] == t as usize;
                                assert(after[w] == t as usize);
                            }
                            if t == ind as int {
                                assert(after[k as int] == ind);
                            }
                        }
                    }
                    k = k + 1;
                }
                proof {
                    assert(selection@.take(selection.len() as int) =~= selection@);
                }
                let mut remaining: Vec<u32> = Vec::new();
                let mut j: usize = 0;
                while j < n
                    invariant
                        self.dice@ == dice0,
                        n == dice0.len(),
                        keep.len() == n,
                        forall|t: int| 0 <= t < n ==> #[trigger] keep[t] == !selection@.contains(t as usize),
                        j <= n,
                        remaining@ == kept_upto(dice0, selection@, j as int),
                    decreases n - j,
                {
                    if keep[j] {
                        remaining.push(self.dice[j]);
                    }
                    j = j + 1;
                }
                proof {
                    let joined = locked0 + picked(dice0, selection@);
                    assert forall|t: int| 0 <= t < joined.len() implies 1 <= #[trigger] joined[t] <= 6 by {
                        if t >= locked0.len() {
                            let w = t - locked0.len();
                            assert(joined[t] == dice0[selection@[w] as int]);
                        }
                    }
                    lemma_sorted_dice(joined);
                    lemma_faces_of_rearranged(joined, sorted_dice(joined));
                    lemma_faces_of_kept(dice0, selection@, n as int);
                }
                self.locked_dice = sort_dice(all.as_slice());
                self.dice = remaining;
            },
            _ => {},
        }
    }
}


impl GameState {
    /// Rerolls the free dice with the faces `roll`: while rerolling, the free
    /// dice become `roll` and the count of rerolls goes up by one. At any
    /// other stage of the turn nothing changes.
    pub fn reroll_with_roll(&mut self, roll: Vec<u32>)
        requires
            old(self)@.wf(),
            old(self)@.turn_state matches TurnState::ReRoll(x) ==> x < u32::MAX && roll.len()
                == old(self)@.dice.len() && all_faces(roll@),
        ensures
            final(self)@.wf(),
            match old(self)@.turn_state {
                TurnState::ReRoll(x) => final(self)@ == old(self)@.with_dice(
                    old(self)@.locked_dice,
                    roll@,
                    TurnState::ReRoll((x + 1) as u32),
                ),
                _ => final(self)@ == old(self)@,
            },
    {
        match self.turn_state {
            TurnState::ReRoll(x) => {
                self.dice = roll;
                self.turn_state = TurnState::ReRoll(x + 1);
            },
            _ => {},
        }
    }

    /// Rerolls the free dice: while rerolling, each free die gets a random
    /// face and the count of rerolls goes up by one; the held dice stay. At
    /// any other stage of the turn nothing changes.
    pub fn reroll(&mut self)
        requires
            old(self)@.wf(),
            old(self)@.turn_state matches TurnState::ReRoll(x) ==> x < u32::MAX,
        ensures
            final(self)@.wf(),
            match old(self)@.turn_state {
                TurnState::ReRoll(x) => {
                    &&& final(self)@.dice.len() == old(self)@.dice.len()
                    &&& final(self)@ == old(self)@.with_dice(
                        old(self)@.locked_dice,
                        final(self)@.dice,
                        TurnState::ReRoll((x + 1) as u32),
                    )
                },
                _ => final(self)@ == old(self)@,
            },
    {
        match self.turn_state {
            TurnState::ReRoll(_) => {
                let roll = roll_dice(self.dice.len(), &mut self.rng);
                self.reroll_with_roll(roll);
            },
            _ => {},
        }
    }

    /// Moves the turn on, with `roll` as the five dice of a first roll:
    /// from the first roll to rerolling (nothing held, the five dice free),
    /// from rerolling to scoring (every die held), and from scoring to the
    /// first roll of the next player.
    pub fn next_with_roll(&mut self, roll: Vec<u32>)
        requires
            old(self)@.wf(),
            old(self)@.turn_state == TurnState::FirstRoll ==> roll.len() == 5 && all_faces(roll@),
            old(self)@.turn_state == TurnState::Score ==> old(self)@.players.len() > 0,
        ensures
            final(self)@.wf(),
            match old(self)@.turn_state {
                TurnState::FirstRoll => final(self)@ == old(self)@.with_dice(
                    Seq::empty(),
                    roll@,
                    TurnState::ReRoll(0),
                ),
                TurnState::ReRoll(_) => final(self)@ == old(self)@.with_dice(
                    sorted_dice(old(self)@.locked_dice + old(self)@.dice),
                    Seq::empty(),
                    TurnState::Score,
                ),
                TurnState::Score => final(self)@ == old(self)@.passed_on(),
            },
    {
        match self.turn_state {
            TurnState::FirstRoll => {
                self.locked_dice.clear();
                self.dice = roll;
                self.turn_state = TurnState::ReRoll(0);
            },
            TurnState::ReRoll(_) => {
                let n = self.dice.len();
                let mut select: Vec<usize> = Vec::new();
                let mut i: usize = 0;
                while i < n
                    invariant
                        i <= n,
                        select.len() == i,
                        forall|k: int| 0 <= k < i ==> #[trigger] select[k] == k,
                    decreases n - i,
                {
                    select.push(i);
                    i = i + 1;
                }
                proof {
                    lemma_choose_all(self.dice@, select@, n as int);
                }
                self.lock(select.as_slice());
                self.turn_state = TurnState::Score;
            },
            TurnState::Score => {
                assert(self.current_player < self.players.len());
                self.current_player = (self.current_player + 1) % self.players.len();
                self.turn_state = TurnState::FirstRoll;
            },
        }
    }

    /// Moves the turn on: from the first roll to rerolling (nothing held,
    /// five random dice free), from rerolling to scoring (every die held),
    /// and from scoring to the first roll of the next player.
    pub fn next(&mut self)
        requires
            old(self)@.wf(),
            old(self)@.turn_state == TurnState::Score ==> old(self)@.players.len() > 0,
        ensures
            final(self)@.wf(),
            old(self)@.advances_to(final(self)@),
    {
        match self.turn_state {
            TurnState::FirstRoll => {
                let roll = roll_dice(5, &mut self.rng);
                self.next_with_roll(roll);
            },
            _ => {
                self.next_with_roll(Vec::new());
            },
        }
    }
}


impl GameState {
    /// All dice of the turn, held and free, in ascending order.
    fn full_roll(&self) -> (roll: Vec<u32>)
        ensures
            roll@ == self@.full_roll(),
    {
        let mut all: Vec<u32> = Vec::new();
        let mut i: usize = 0;
        while i < self.locked_dice.len()
            invariant
                i <= self.locked_dice.len(),
                all@ == self.locked_dice@.take(i as int),
            decreases self.locked_dice.len() - i,
        {
            all.push(self.locked_dice[i]);
            proof {
                assert(self.locked_dice@.take(i + 1) =~= self.locked_dice@.take(i as int).push(
                    self.locked_dice@[i as int],
                ));
            }
            i = i + 1;
        }
        let mut j: usize = 0;
        while j < self.dice.len()
            invariant
                j <= self.dice.len(),
                all@ == self.locked_dice@ + self.dice@.take(j as int),
            decreases self.dice.len() - j,
        {
            all.push(self.dice[j]);
            proof {
                assert(self.dice@.take(j + 1) =~= self.dice@.take(j as int).push(self.dice@[j as int]));
            }
            j = j + 1;
        }
        proof {
            assert(self.locked_dice@.take(i as int) =~= self.locked_dice@);
            assert(self.dice@.take(j as int) =~= self.dice@);
        }
        sort_dice(all.as_slice())
    }

    /// Where the scores of category `k` are kept: the position of the first
    /// category with the same name.
    pub fn category_key(&self, k: usize) -> (key: usize)
        requires
            k < self@.scoring.len(),
        ensures
            key == self@.key_of(k as int),
    {
        proof {
            lemma_first_named(self@.scoring, k as int, 0);
        }
        let mut j: usize = 0;
        while !self.scoring[j].same_name(&self.scoring[k])
            invariant
                j <= k < self.scoring.len(),
                first_named(self@.scoring, self@.scoring[k as int]@.0, 0) == first_named(
                    self@.scoring,
                    self@.scoring[k as int]@.0,
                    j as int,
                ),
            decreases k - j,
        {
            j = j + 1;
        }
        j
    }

    /// The categories that the current player has not scored yet, each with
    /// its rule and what it is worth for the dice of the turn, in the order
    /// of the rules.
    pub fn possible_scores(&self) -> (offers: Vec<(usize, ScoringRule, u32)>)
        requires
            self@.wf(),
            self@.scoring.len() > 0 ==> self@.players.len() > 0,
            self@.scorable(),
        ensures
            offers.len() == self@.open_categories().len(),
            forall|j: int|
                0 <= j < offers.len() ==> {
                    &&& #[trigger] offers[j].0 == self@.open_categories()[j]
                    &&& offers[j].1@ == self@.scoring[offers[j].0 as int]@
                    &&& offers[j].2 == self@.category_score(offers[j].0 as int)
                },
    {
        let mut possible_scores: Vec<(usize, ScoringRule, u32)> = Vec::new();
        let full_roll = self.full_roll();
        let cur = self.current_player;
        let mut ind: usize = 0;
        while ind < self.scoring.len()
            invariant
                self@.wf(),
                self@.scoring.len() > 0 ==> self@.players.len() > 0,
                self@.scorable(),
                cur == self@.current_player,
                full_roll@ == self@.full_roll(),
                ind <= self.scoring.len(),
                possible_scores.len() == self@.open_upto(ind as int).len(),
                forall|j: int|
                    0 <= j < possible_scores.len() ==> {
                        &&& #[trigger] possible_scores[j].0 == self@.open_upto(ind as int)[j]
                        &&& possible_scores[j].0 < self.scoring.len()
                        &&& possible_scores[j].1@ == self@.scoring[possible_scores[j].0 as int]@
                        &&& possible_scores[j].2 == self@.category_score(possible_scores[j].0 as int)
                    },
            decreases self.scoring.len() - ind,
        {
            let ghost before = possible_scores@;
            let key = self.category_key(ind);
            if !self.players[cur].scores.contains_key(&key) {
                let rule = &self.scoring[ind];
                assert(!self@.scored(cur as int, ind as int));
                let score = rule.eval(full_roll.as_slice());
                possible_scores.push((ind, rule.clone(), score));
                proof {
                    assert forall|j: int| 0 <= j < possible_scores.len() implies #[trigger] possible_scores[j].0
                        == self@.open_upto(ind + 1)[j] by {
                        if j < before.len() {
                            assert(possible_scores[j] == before[j]);
                        }
                    }
                }
            } else {
                assert(self@.scored(cur as int, ind as int));
            }
            ind = ind + 1;
        }
        possible_scores
    }

    /// Scores category `score_category` for the current player with the dice
    /// of the turn, if it is a category that the player has not scored yet;
    /// otherwise nothing changes. A score once recorded is never replaced.
    pub fn pick_score(&mut self, score_category: usize)
        requires
            old(self)@.wf(),
            score_category < old(self)@.scoring.len() ==> old(self)@.players.len() > 0,
            score_category < old(self)@.scoring.len() && !old(self)@.scored(
                old(self)@.current_player as int,
                score_category as int,
            ) ==> old(self)@.scoring[score_category as int]@.1.accepts(old(self)@.full_roll()),
        ensures
            final(self)@.wf(),
            score_category < old(self)@.scoring.len() ==> {
                &&& old(self)@.only_scores_differ(final(self)@, old(self)@.current_player as int)
                &&& final(self)@.players[old(self)@.current_player as int].scores@
                    == old(self)@.scores_after_pick(score_category as int)
            },
            score_category >= old(self)@.scoring.len() ==> final(self)@ == old(self)@,
    {
        if score_category < self.scoring.len() {
            let cur = self.current_player;
            let key = self.category_key(score_category);
            proof {
                lemma_key_of(self@, score_category as int);
            }
            if !self.players[cur].scores.contains_key(&key) {
                let full_roll = self.full_roll();
                let score = self.scoring[score_category].eval(full_roll.as_slice());
                self.players[cur].scores.insert(key, score);
            }
        }
    }

    /// Whether every player has a score for as many categories as there are.
    pub fn game_over(&self) -> (over: bool)
        ensures
            over == forall|p: int|
                0 <= p < self@.players.len() ==> #[trigger] self@.players[p].scores@.len()
                    == self@.scoring.len(),
    {
        let mut i: usize = 0;
        while i < self.players.len()
            invariant
                i <= self.players.len(),
                forall|p: int| 0 <= p < i ==> #[trigger] self@.players[p].scores@.len() == self@.scoring.len(),
            decreases self.players.len() - i,
        {
            let kept = self.players[i].scores.len();
            if kept != self.scoring.len() {
                assert(self@.players[i as int].scores@.len() != self@.scoring.len());
                return false;
            }
            i = i + 1;
        }
        true
    }

    /// What the game waits for next: at the first roll, nothing; while
    /// rerolling, dice to hold unless the rerolls are used up or no die is
    /// free; when scoring, a category.
    pub fn next_step(&self) -> (step: Step)
        ensures
            step == self@.step(),
    {
        match self.turn_state {
            TurnState::FirstRoll => Step::Advance,
            TurnState::ReRoll(x) => {
                if x >= MAX_REROLLS || self.dice.len() == 0 {
                    Step::Advance
                } else {
                    Step::ChooseDice
                }
            },
            TurnState::Score => Step::ChooseScore,
        }
    }

    /// The total score of player `player` (counting from 0).
    pub fn player_total(&self, player: usize) -> (total: u32)
        requires
            self@.wf(),
            player < self@.players.len(),
            self@.total(player as int) <= u32::MAX,
        ensures
            total == self@.total(player as int),
    {
        let scores = &self.players[player].scores;
        let n = self.scoring.len();
        let mut total: u32 = 0;
        let mut k: usize = 0;
        while k < n
            invariant
                k <= n,
                n == self@.scoring.len(),
                *scores == self@.players[player as int].scores,
                self@.total(player as int) <= u32::MAX,
                total == score_total(scores@, k as nat),
            decreases n - k,
        {
            proof {
                lemma_score_total_prefix(scores@, (k + 1) as nat, n as nat);
            }
            match scores.get(&k) {
                Some(v) => {
                    total = total + *v;
                },
                None => {},
            }
            k = k + 1;
        }
        total
    }

    /// The winner of a game of two: player 1 if their total is at least that
    /// of player 2, else player 2.
    pub fn winner(&self) -> (winner: usize)
        requires
            self@.wf(),
            self@.players.len() >= 2,
            self@.total(0) <= u32::MAX,
            self@.total(1) <= u32::MAX,
        ensures
            winner == if self@.total(0) >= self@.total(1) { 1usize } else { 2usize },
    {
        let first = self.player_total(0);
        let second = self.player_total(1);
        if first >= second {
            1
        } else {
            2
        }
    }
}


/// The categories below `n`.
pub open spec fn below(n: nat) -> Set<usize> {
    Set::new(|k: usize| k < n)
}

proof fn lemma_below(n: nat)
    requires
        n <= usize::MAX + 1,
    ensures
        below(n).finite(),
        below(n).len() == n,
    decreases n,
{
    if n == 0 {
        assert(below(n) =~= Set::<usize>::empty());
    } else {
        lemma_below((n - 1) as nat);
        assert(below(n) =~= below((n - 1) as nat).insert((n - 1) as usize));
    }
}

/// When no two categories share a name, the game is over exactly when every
/// player has scored every category: counting a player's scores is the same
/// as checking each category.
pub proof fn lemma_game_over_means_all_scored(g: GameView)
    requires
        g.wf(),
        g.distinct_names(),
    ensures
        (forall|p: int| 0 <= p < g.players.len() ==> #[trigger] g.players[p].scores@.len() == g.scoring.len())
            <==> g.all_scored(),
{
    let n = g.scoring.len();
    lemma_below(n);
    assert forall|k: int| 0 <= k < n implies #[trigger] g.key_of(k) == k by {
        lemma_key_of(g, k);
    }
    assert forall|p: int| 0 <= p < g.players.len() implies (#[trigger] g.players[p].scores@.len() == n
        <==> forall|k: int| 0 <= k < n ==> g.scored(p, k)) by {
        let m = g.players[p].scores@;
        let d = m.dom();
        assert(d.finite());
        assert(d.subset_of(below(n)));
        if m.len() == n {
            lemma_subset_equality(d, below(n));
            assert forall|k: int| 0 <= k < n implies g.scored(p, k) by {
                assert(below(n).contains(k as usize));
            }
        }
        if forall|k: int| 0 <= k < n ==> g.scored(p, k) {
            assert forall|k: usize| below(n).contains(k) implies d.contains(k) by {
                assert(g.scored(p, k as int));
                assert(g.key_of(k as int) == k);
            }
            assert(d =~= below(n));
        }
    }
    if g.all_scored() {
        assert forall|p: int| 0 <= p < g.players.len() implies #[trigger] g.players[p].scores@.len() == n by {
            assert forall|k: int| 0 <= k < n implies g.scored(p, k) by {
                assert(g.scored(p, k));
            }
        }
    }
    if forall|p: int| 0 <= p < g.players.len() ==> #[trigger] g.players[p].scores@.len() == g.scoring.len() {
        assert forall|p: int, k: int| 0 <= p < g.players.len() && 0 <= k < n implies #[trigger] g.scored(p, k) by {
            assert(g.players[p].scores@.len() == n);
        }
    }
}

/// The categories offered below `n` are, in ascending order, exactly those
/// that the current player has not scored.
proof fn lemma_open_upto(g: GameView, n: int)
    requires
        0 <= n <= g.scoring.len(),
        g.scoring.len() <= usize::MAX,
    ensures
        forall|j: int| 0 <= j < g.open_upto(n).len() ==> #[trigger] g.open_upto(n)[j] < n,
        forall|j: int, i: int| 0 <= j < i < g.open_upto(n).len() ==> g.open_upto(n)[j] < g.open_upto(n)[i],
        forall|j: int|
            0 <= j < g.open_upto(n).len() ==> !g.scored(g.current_player as int, #[trigger] g.open_upto(n)[j] as int),
        forall|k: int|
            0 <= k < n && !#[trigger] g.scored(g.current_player as int, k) ==> g.open_upto(n).contains(k as usize),
    decreases n,
{
    if n > 0 {
        lemma_open_upto(g, n - 1);
        let a = g.open_upto(n - 1);
        if !g.scored(g.current_player as int, n - 1) {
            let b = g.open_upto(n);
            assert(b == a.push((n - 1) as usize));
            assert forall|k: int| 0 <= k < n && !#[trigger] g.scored(g.current_player as int, k) implies b.contains(
                k as usize,
            ) by {
                if k < n - 1 {
                    let j = choose|j: int| 0 <= j < a.len() && a[j] == k as usize;
                    assert(b[j] == k as usize);
                } else {
                    assert(b[a.len() as int] == k as usize);
                }
            }
        }
    }
}

/// The categories that `possible_scores` offers are exactly those that the
/// current player has not scored, in ascending order; and for each of them,
/// `pick_score` records the very score that was offered for it.
pub proof fn lemma_pick_records_offer(g: GameView)
    requires
        g.wf(),
        g.players.len() > 0,
        g.scorable(),
    ensures
        forall|k: int|
            0 <= k < g.scoring.len() ==> (g.open_categories().contains(k as usize) <==> !#[trigger] g.scored(
                g.current_player as int,
                k,
            )),
        forall|j: int, i: int|
            0 <= j < i < g.open_categories().len() ==> g.open_categories()[j] < g.open_categories()[i],
        forall|j: int|
            0 <= j < g.open_categories().len() ==> {
                let k = #[trigger] g.open_categories()[j];
                &&& k < g.scoring.len()
                &&& g.scores_after_pick(k as int).contains_key(g.key_of(k as int))
                &&& g.scores_after_pick(k as int)[g.key_of(k as int)] == g.category_score(k as int)
            },
{
    let n = g.scoring.len() as int;
    lemma_open_upto(g, n);
    let o = g.open_categories();
    assert forall|k: int| 0 <= k < n implies (o.contains(k as usize) <==> !#[trigger] g.scored(
        g.current_player as int,
        k,
    )) by {
        if o.contains(k as usize) {
            let j = choose|j: int| 0 <= j < o.len() && o[j] == k as usize;
            assert(!g.scored(g.current_player as int, o[j] as int));
        }
    }
    assert forall|j: int| 0 <= j < o.len() implies {
        let k = #[trigger] o[j];
        &&& k < g.scoring.len()
        &&& g.scores_after_pick(k as int).contains_key(g.key_of(k as int))
        &&& g.scores_after_pick(k as int)[g.key_of(k as int)] == g.category_score(k as int)
    } by {
        let k = o[j];
        assert(k < n);
        assert(!g.scored(g.current_player as int, k as int));
        assert(g.scoring[k as int]@.1.accepts(g.full_roll()));
        lemma_accepted_score_fits(g.scoring[k as int]@.1, g.full_roll());
    }
}

/// A score once recorded stays: choosing a category never changes a score
/// that the current player already has.
pub proof fn lemma_pick_never_replaces(g: GameView, k: int)
    requires
        g.wf(),
        g.players.len() > 0,
    ensures
        g.players[g.current_player as int].scores@.submap_of(g.scores_after_pick(k)),
{
}

/// Holding dice never changes the roll to be scored, when no position is
/// chosen twice: the held and free dice together stay the same dice.
pub proof fn lemma_lock_keeps_roll(g: GameView, selection: Seq<usize>, turn: TurnState)
    requires
        g.wf(),
        g.dice.len() <= usize::MAX,
        selection.no_duplicates(),
        forall|k: int| 0 <= k < selection.len() ==> #[trigger] selection[k] < g.dice.len(),
    ensures
        g.with_dice(
            sorted_dice(g.locked_dice + picked(g.dice, selection)),
            kept(g.dice, selection),
            turn,
        ).full_roll() == g.full_roll(),
{
    broadcast use vstd::seq_lib::group_to_multiset_ensures;
    broadcast use vstd::multiset::group_multiset_axioms;

    let held = g.locked_dice + picked(g.dice, selection);
    let free = kept(g.dice, selection);
    lemma_split_keeps_all(g.dice, selection);
    lemma_sorted_dice(held);
    lemma_sorted_dice(g.locked_dice + g.dice);
    vstd::seq_lib::lemma_multiset_commutative(sorted_dice(held), free);
    vstd::seq_lib::lemma_multiset_commutative(g.locked_dice, picked(g.dice, selection));
    vstd::seq_lib::lemma_multiset_commutative(g.locked_dice, g.dice);
    let all = sorted_dice(held) + free;
    assert(all.to_multiset() =~= (g.locked_dice + g.dice).to_multiset());
    lemma_sorted_dice(all);
    lemma_sorted_unique(sorted_dice(all), g.locked_dice + g.dice);
}


/// The dice that a player picks in the menu can be held, and holding them
/// never changes the roll to be scored.
pub proof fn lemma_menu_choice_keeps_roll(g: GameView, menu: DiceSelection, turn: TurnState)
    requires
        g.wf(),
        g.dice.len() > 0,
        g.dice.len() <= usize::MAX,
        menu.wf(g.dice.len()),
    ensures
        forall|k: int| 0 <= k < menu.chosen@.len() ==> #[trigger] menu.chosen@[k] < g.dice.len(),
        g.with_dice(
            sorted_dice(g.locked_dice + picked(g.dice, menu.chosen@)),
            kept(g.dice, menu.chosen@),
            turn,
        ).full_roll() == g.full_roll(),
{
    lemma_lock_keeps_roll(g, menu.chosen@, turn);
}


/// When two categories share a name, the game never ends: no player can
/// hold a score for as many categories as there are, since both are kept
/// under one key.
pub proof fn lemma_repeated_name_never_over(g: GameView)
    requires
        g.wf(),
        !g.distinct_names(),
    ensures
        forall|p: int| 0 <= p < g.players.len() ==> #[trigger] g.players[p].scores@.len() < g.scoring.len(),
{
    let n = g.scoring.len();
    let (i, j) = choose|i: int, j: int|
        0 <= i < n && 0 <= j < n && i != j && #[trigger] g.scoring[i]@.0 == #[trigger] g.scoring[j]@.0;
    let late = if i < j { j } else { i };
    let early = if i < j { i } else { j };
    lemma_key_of(g, early);
    lemma_first_named(g.scoring, early, 0);
    // The later of the two is never a key: its name is found earlier.
    assert(g.key_of(late) != late as usize) by {
        lemma_first_named(g.scoring, late, 0);
        assert(g.scoring[early]@.0 == g.scoring[late]@.0);
    }
    lemma_below(n);
    let rest = below(n).remove(late as usize);
    assert forall|p: int| 0 <= p < g.players.len() implies #[trigger] g.players[p].scores@.len() < n by {
        let d = g.players[p].scores@.dom();
        assert(d.subset_of(rest));
        lemma_len_subset(d, rest);
        assert(below(n).contains(late as usize));
    }
}

/// The stage of the turn after `j` moves from a first roll.
pub open spec fn turn_at(j: int) -> TurnState {
    if j % 3 == 0 {
        TurnState::FirstRoll
    } else if j % 3 == 1 {
        TurnState::ReRoll(0)
    } else {
        TurnState::Score
    }
}

/// Moving on again and again from a first roll goes round first roll,
/// rerolling and scoring, and after each scoring passes the dice to the
/// next player in turn; while rerolling and scoring there are five dice.
pub proof fn lemma_turn_cycle(gs: Seq<GameView>, j: int)
    requires
        0 <= j < gs.len(),
        gs[0].players.len() > 0,
        gs[0].turn_state == TurnState::FirstRoll,
        gs[0].current_player == 0,
        forall|i: int| 0 <= i < gs.len() ==> #[trigger] gs[i].wf(),
        forall|i: int| 0 <= i < gs.len() - 1 ==> #[trigger] gs[i].advances_to(gs[i + 1]),
    ensures
        gs[j].turn_state == turn_at(j),
        gs[j].current_player == (j / 3) % (gs[0].players.len() as int),
        gs[j].players == gs[0].players,
        gs[j].scoring == gs[0].scoring,
        gs[j].turn_state != TurnState::FirstRoll ==> gs[j].locked_dice.len() + gs[j].dice.len() == 5,
    decreases j,
{
    if j > 0 {
        lemma_turn_cycle(gs, j - 1);
        let n = gs[0].players.len() as int;
        let q = (j - 1) / 3;
        let r = (j - 1) % 3;
        assert(r == 0 ==> j % 3 == 1 && j / 3 == q);
        assert(r == 1 ==> j % 3 == 2 && j / 3 == q);
        assert(r == 2 ==> j % 3 == 0 && j / 3 == q + 1);
        let i = j - 1;
        assert(gs[i].advances_to(gs[i + 1]));
        assert(i + 1 == j);
        let prev = gs[j - 1];
        if r == 1 {
            lemma_sorted_dice(prev.locked_dice + prev.dice);
        }
        if r == 2 {
            lemma_add_mod_noop_right(1, q, n);
        }
    }
}

/// Two states with the same players, current player and categories offer
/// the same categories.
proof fn lemma_open_upto_same(g: GameView, h: GameView, n: int)
    requires
        g.players == h.players,
        g.current_player == h.current_player,
        g.scoring == h.scoring,
    ensures
        g.open_upto(n) == h.open_upto(n),
    decreases n,
{
    if n > 0 {
        lemma_open_upto_same(g, h, n - 1);
    }
}

/// Holding dice, when no position is chosen twice, leaves the offered
/// categories and what each is worth unchanged.
pub proof fn lemma_hold_keeps_offers(g: GameView, selection: Seq<usize>, turn: TurnState)
    requires
        g.wf(),
        g.dice.len() <= usize::MAX,
        selection.no_duplicates(),
        forall|k: int| 0 <= k < selection.len() ==> #[trigger] selection[k] < g.dice.len(),
    ensures
        ({
            let h = g.with_dice(
                sorted_dice(g.locked_dice + picked(g.dice, selection)),
                kept(g.dice, selection),
                turn,
            );
            &&& h.open_categories() == g.open_categories()
            &&& forall|k: int| 0 <= k < g.scoring.len() ==> #[trigger] h.category_score(k) == g.category_score(k)
        }),
{
    lemma_lock_keeps_roll(g, selection, turn);
    let h = g.with_dice(sorted_dice(g.locked_dice + picked(g.dice, selection)), kept(g.dice, selection), turn);
    lemma_open_upto_same(g, h, g.scoring.len() as int);
}

/// Moving from rerolling to scoring leaves the offered categories and what
/// each is worth unchanged.
pub proof fn lemma_scoring_keeps_offers(g: GameView)
    requires
        g.wf(),
    ensures
        ({
            let h = g.with_dice(sorted_dice(g.locked_dice + g.dice), Seq::empty(), TurnState::Score);
            &&& h.open_categories() == g.open_categories()
            &&& forall|k: int| 0 <= k < g.scoring.len() ==> #[trigger] h.category_score(k) == g.category_score(k)
        }),
{
    let t = sorted_dice(g.locked_dice + g.dice);
    let h = g.with_dice(t, Seq::empty(), TurnState::Score);
    lemma_sorted_dice(g.locked_dice + g.dice);
    assert(t + Seq::<u32>::empty() =~= t);
    lemma_sorted_unique(t, t);
    assert(h.full_roll() == g.full_roll());
    lemma_open_upto_same(g, h, g.scoring.len() as int);
}

proof fn lemma_open_after_pick(g: GameView, h: GameView, k: int, m: int)
    requires
        h.current_player == g.current_player,
        0 <= k < g.scoring.len(),
        0 <= m <= g.scoring.len(),
        !g.scored(g.current_player as int, k),
        h.scored(h.current_player as int, k),
        forall|x: int|
            0 <= x < g.scoring.len() && x != k ==> #[trigger] h.scored(h.current_player as int, x) == g.scored(
                g.current_player as int,
                x,
            ),
    ensures
        m <= k ==> h.open_upto(m) == g.open_upto(m),
        m > k ==> g.open_upto(k).len() < g.open_upto(m).len(),
        m > k ==> g.open_upto(m)[g.open_upto(k).len() as int] == k as usize,
        m > k ==> h.open_upto(m) == g.open_upto(m).remove(g.open_upto(k).len() as int),
    decreases m,
{
    if m > 0 {
        lemma_open_after_pick(g, h, k, m - 1);
        let x = m - 1;
        let i0 = g.open_upto(k).len() as int;
        if m == k + 1 {
            assert(g.open_upto(m) == g.open_upto(k).push(k as usize));
            assert(g.open_upto(k).push(k as usize).remove(i0) =~= g.open_upto(k));
        } else if m > k + 1 {
            if !g.scored(g.current_player as int, x) {
                let a = g.open_upto(x);
                assert(a.push(x as usize).remove(i0) =~= a.remove(i0).push(x as usize));
            }
        }
    }
}

/// When no two categories share a name, scoring an offered category takes
/// exactly that entry out of the offers and leaves what the others are
/// worth unchanged.
pub proof fn lemma_pick_removes_offer(g: GameView, h: GameView, j: int)
    requires
        g.wf(),
        g.players.len() > 0,
        g.distinct_names(),
        0 <= j < g.open_categories().len(),
        g.only_scores_differ(h, g.current_player as int),
        h.players[g.current_player as int].scores@ == g.scores_after_pick(g.open_categories()[j] as int),
    ensures
        h.open_categories() == g.open_categories().remove(j),
        forall|k: int| 0 <= k < g.scoring.len() ==> #[trigger] h.category_score(k) == g.category_score(k),
{
    let n = g.scoring.len() as int;
    let cur = g.current_player as int;
    lemma_open_upto(g, n);
    let o = g.open_categories();
    let k = o[j] as int;
    assert(!g.scored(cur, k));
    lemma_key_of(g, k);
    assert forall|x: int| 0 <= x < n && x != k implies #[trigger] h.scored(cur, x) == g.scored(cur, x) by {
        lemma_key_of(g, x);
    }
    assert(h.scored(cur, k));
    lemma_open_after_pick(g, h, k, n);
    let i0 = g.open_upto(k).len() as int;
    if j != i0 {
        if j < i0 {
            assert(o[j] < o[i0]);
        } else {
            assert(o[i0] < o[j]);
        }
    }
}


/// With no scores, the total is 0.
pub proof fn lemma_total_of_nothing(n: nat)
    ensures
        score_total(Map::<usize, u32>::empty(), n) == 0,
    decreases n,
{
    if n > 0 {
        lemma_total_of_nothing((n - 1) as nat);
    }
}

/// Recording a score `v` for a new category `k` among the first `n` adds
/// `v` to the total; a category from `n` on does not count.
pub proof fn lemma_total_adds_new_score(m: Map<usize, u32>, k: usize, v: u32, n: nat)
    requires
        !m.contains_key(k),
        n <= usize::MAX + 1,
    ensures
        k < n ==> score_total(m.insert(k, v), n) == score_total(m, n) + v,
        k >= n ==> score_total(m.insert(k, v), n) == score_total(m, n),
    decreases n,
{
    if n > 0 {
        lemma_total_adds_new_score(m, k, v, (n - 1) as nat);
        let j = (n - 1) as usize;
        let mi = m.insert(k, v);
        if j == k {
            assert(mi.contains_key(j) && mi[j] == v);
        } else {
            assert(mi.contains_key(j) == m.contains_key(j));
            if m.contains_key(j) {
                assert(mi[j] == m[j]);
            }
        }
    }
}

/// Scoring a category the current player has not scored yet raises the
/// player's total by exactly what the category is worth.
pub proof fn lemma_pick_adds_to_total(g: GameView, k: int)
    requires
        g.wf(),
        g.players.len() > 0,
        0 <= k < g.scoring.len(),
        !g.scored(g.current_player as int, k),
        g.category_score(k) <= u32::MAX,
    ensures
        score_total(g.scores_after_pick(k), g.scoring.len()) == g.total(g.current_player as int) + g.category_score(
            k,
        ),
{
    lemma_key_of(g, k);
    lemma_total_adds_new_score(
        g.players[g.current_player as int].scores@,
        g.key_of(k),
        g.category_score(k) as u32,
        g.scoring.len(),
    );
}

} // verus!
