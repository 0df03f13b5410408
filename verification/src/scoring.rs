use vstd::prelude::*;

verus! {

/// How a scoring category turns the dice into points.
#[derive(Clone, Copy, Debug, PartialEq, Eq, Structural)]
pub enum Scorer {
    /// The dice that show the given face, times that face ("Ones" to "Sixes").
    Count(u32),
    /// The total of all dice.
    Chance,
    /// The largest total of a face that at least the given number of dice show.
    OfAKind(u32),
    /// Two faces, the lower one two or three times: the total of the dice.
    FullHouse,
    /// A run of exactly four: 30.
    SmallStraight,
    /// A run of exactly five: 40.
    LargeStraight,
    /// Five dice that show the face of the first one: 50.
    Yacht,
}

impl Scorer {
    /// The dice on which this scorer is defined: those on which its
    /// computation stays within `u32` and indexes only faces 1 to 6.
    pub open spec fn accepts(self, s: Seq<u32>) -> bool {
        match self {
            Scorer::Count(v) => count_of(s, v) * v <= u32::MAX,
            Scorer::Chance => sum_of(s) <= u32::MAX,
            Scorer::OfAKind(x) => all_faces(s) && tallies_fit(s) && kind_totals_fit(s, x),
            Scorer::FullHouse => all_faces(s) && tallies_fit(s) && (is_full_house(s) ==> sum_of(s)
                <= u32::MAX),
            Scorer::SmallStraight => faces_below_max(s),
            Scorer::LargeStraight => faces_below_max(s),
            Scorer::Yacht => s.len() > 0,
        }
    }

    /// The points that this scorer gives the dice.
    pub open spec fn score(self, s: Seq<u32>) -> nat {
        match self {
            Scorer::Count(v) => count_of(s, v) * v as nat,
            Scorer::Chance => sum_of(s),
            Scorer::OfAKind(x) => of_a_kind_score(s, x),
            Scorer::FullHouse => full_house_score(s),
            Scorer::SmallStraight => small_straight_score(s),
            Scorer::LargeStraight => large_straight_score(s),
            Scorer::Yacht => yacht_score(s),
        }
    }
}

/// A scoring category: its name, how it scores the dice, and the most it is
/// meant to be worth.
pub struct ScoringRule {
    name: String,
    func: Scorer,
    max_score: u32,
}

impl View for ScoringRule {
    /// The name, the scorer and the maximum score.
    type V = (Seq<char>, Scorer, u32);

    closed spec fn view(&self) -> (Seq<char>, Scorer, u32) {
        (self.name@, self.func, self.max_score)
    }
}

impl ScoringRule {
    /// A category called `name` that scores the dice with `eval`.
    pub fn new(name: String, eval: Scorer, max_score: u32) -> (rule: ScoringRule)
        ensures
            rule@ == (name@, eval, max_score),
    {
        ScoringRule { name: name, func: eval, max_score: max_score }
    }

    /// The points this category gives the dice.
    pub fn eval(&self, dice: &[u32]) -> (score: u32)
        requires
            self@.1.accepts(dice@),
        ensures
            score == self@.1.score(dice@),
    {
        match self.func {
            Scorer::Count(v) => count(dice, v),
            Scorer::Chance => chance(dice),
            Scorer::OfAKind(x) => x_of_a_kind(dice, x),
            Scorer::FullHouse => full_house(dice),
            Scorer::SmallStraight => small_straight(dice),
            Scorer::LargeStraight => large_straight(dice),
            Scorer::Yacht => yacht(dice),
        }
    }

    /// Whether two categories have the same name.
    pub(crate) fn same_name(&self, other: &ScoringRule) -> (same: bool)
        ensures
            same == (self@.0 == other@.0),
    {
        self.name == other.name
    }

    /// The name of the category.
    pub fn name(&self) -> (name: String)
        ensures
            name@ == self@.0,
    {
        self.name.clone()
    }
}

impl Clone for ScoringRule {
    fn clone(&self) -> (rule: Self)
        ensures
            rule@ == self@,
    {
        ScoringRule { name: self.name.clone(), func: self.func, max_score: self.max_score }
    }
}

/// How many dice of `s` show the face `v`.
pub open spec fn count_of(s: Seq<u32>, v: u32) -> nat
    decreases s.len(),
{
    if s.len() == 0 {
        0
    } else {
        count_of(s.drop_last(), v) + if s.last() == v { 1nat } else { 0nat }
    }
}

/// The total of the faces of `s`.
pub open spec fn sum_of(s: Seq<u32>) -> nat
    decreases s.len(),
{
    if s.len() == 0 {
        0
    } else {
        sum_of(s.drop_last()) + s.last() as nat
    }
}

/// A prefix of the dice never totals more than all of them.
pub proof fn lemma_sum_of_prefix(s: Seq<u32>, i: int)
    requires
        0 <= i <= s.len(),
    ensures
        sum_of(s.take(i)) <= sum_of(s),
    decreases s.len(),
{
    if i < s.len() {
        assert(s.drop_last().take(i) =~= s.take(i));
        lemma_sum_of_prefix(s.drop_last(), i);
    } else {
        assert(s.take(i) =~= s);
    }
}

/// The "Chance" category: the total of all dice.
pub fn chance(dice: &[u32]) -> (score: u32)
    requires
        sum_of(dice@) <= u32::MAX,
    ensures
        score == sum_of(dice@),
{
    let mut total: u32 = 0;
    let mut i: usize = 0;
    while i < dice.len()
        invariant
            i <= dice.len(),
            total == sum_of(dice@.take(i as int)),
            sum_of(dice@) <= u32::MAX,
        decreases dice.len() - i,
    {
        proof {
            assert(dice@.take(i + 1).drop_last() =~= dice@.take(i as int));
            lemma_sum_of_prefix(dice@, i + 1);
        }
        total = total + dice[i];
        i = i + 1;
    }
    proof {
        assert(dice@.take(i as int) =~= dice@);
    }
    total
}


/// Every die shows one of the faces 1 to 6.
pub open spec fn all_faces(s: Seq<u32>) -> bool {
    forall|k: int| 0 <= k < s.len() ==> 1 <= #[trigger] s[k] <= 6
}

/// No face occurs more often than a `u32` tally can count.
pub open spec fn tallies_fit(s: Seq<u32>) -> bool {
    forall|v: u32| 1 <= v <= 6 ==> #[trigger] count_of(s, v) <= u32::MAX
}

/// A face is never counted more often than there are dice.
pub proof fn lemma_count_of_len(s: Seq<u32>, v: u32)
    ensures
        count_of(s, v) <= s.len(),
    decreases s.len(),
{
    if s.len() > 0 {
        lemma_count_of_len(s.drop_last(), v);
    }
}

/// A face that some die shows is counted at least once.
pub proof fn lemma_count_of_shown(s: Seq<u32>, k: int)
    requires
        0 <= k < s.len(),
    ensures
        count_of(s, s[k]) > 0,
    decreases s.len(),
{
    if k < s.len() - 1 {
        lemma_count_of_shown(s.drop_last(), k);
    }
}

/// A face that no die shows is counted zero times.
pub proof fn lemma_count_of_absent(s: Seq<u32>, v: u32)
    requires
        forall|k: int| 0 <= k < s.len() ==> s[k] != v,
    ensures
        count_of(s, v) == 0,
    decreases s.len(),
{
    if s.len() > 0 {
        lemma_count_of_absent(s.drop_last(), v);
    }
}

/// The tally of a face over the first `i + 1` dice, from the tally over the first `i`.
proof fn lemma_count_of_step(s: Seq<u32>, v: u32, i: int)
    requires
        0 <= i < s.len(),
    ensures
        count_of(s.take(i + 1), v) == count_of(s.take(i), v) + if s[i] == v { 1nat } else { 0nat },
{
    assert(s.take(i + 1).drop_last() =~= s.take(i));
}

/// The upper-section categories ("Ones" to "Sixes"): the number of dice that
/// show `value`, times `value`.
pub fn count(dice: &[u32], value: u32) -> (score: u32)
    requires
        count_of(dice@, value) * value <= u32::MAX,
    ensures
        score == count_of(dice@, value) * value,
{
    let mut n: usize = 0;
    let mut i: usize = 0;
    while i < dice.len()
        invariant
            i <= dice.len(),
            n == count_of(dice@.take(i as int), value),
        decreases dice.len() - i,
    {
        proof {
            lemma_count_of_step(dice@, value, i as int);
            lemma_count_of_len(dice@.take(i as int), value);
        }
        if dice[i] == value {
            n = n + 1;
        }
        i = i + 1;
    }
    proof {
        assert(dice@.take(i as int) =~= dice@);
    }
    if value == 0 {
        0
    } else {
        assert(n <= n * value) by (nonlinear_arith)
            requires
                value >= 1,
        ;
        (n as u32) * value
    }
}

/// The larger of two scores.
fn max(x: u32, y: u32) -> (r: u32)
    ensures
        r == if x > y { x } else { y },
{
    if x > y {
        return x;
    }
    y
}

/// How many dice show each face: entry `f` counts the face `f + 1`.
fn face_counts(dice: &[u32]) -> (counts: Vec<usize>)
    requires
        all_faces(dice@),
    ensures
        counts.len() == 6,
        forall|f: int| 0 <= f < 6 ==> #[trigger] counts[f] == count_of(dice@, (f + 1) as u32),
{
    let mut counts: Vec<usize> = vec![0, 0, 0, 0, 0, 0];
    let mut i: usize = 0;
    while i < dice.len()
        invariant
            i <= dice.len(),
            all_faces(dice@),
            counts.len() == 6,
            forall|f: int|
                0 <= f < 6 ==> #[trigger] counts[f] == count_of(dice@.take(i as int), (f + 1) as u32),
            forall|f: int| 0 <= f < 6 ==> #[trigger] counts[f] <= i,
        decreases dice.len() - i,
    {
        let face = dice[i];
        let index = (face - 1) as usize;
        proof {
            assert forall|f: int| 0 <= f < 6 implies #[trigger] count_of(dice@.take(i + 1), (f + 1) as u32)
                == count_of(dice@.take(i as int), (f + 1) as u32) + if f == index { 1nat } else { 0nat } by {
                lemma_count_of_step(dice@, (f + 1) as u32, i as int);
            }
        }
        let c = counts[index];
        counts.set(index, c + 1);
        i = i + 1;
    }
    proof {
        assert(dice@.take(i as int) =~= dice@);
    }
    counts
}


/// What the face `v` scores in an "x of a kind" category: its total when at
/// least `x` dice show it, else nothing.
pub open spec fn kind_score(s: Seq<u32>, x: u32, v: u32) -> nat {
    if count_of(s, v) >= x {
        v as nat * count_of(s, v)
    } else {
        0
    }
}

/// The best `kind_score` over the faces 1 to `k`.
pub open spec fn best_kind_upto(s: Seq<u32>, x: u32, k: nat) -> nat
    decreases k,
{
    if k == 0 {
        0
    } else {
        let a = best_kind_upto(s, x, (k - 1) as nat);
        let b = kind_score(s, x, k as u32);
        if a >= b {
            a
        } else {
            b
        }
    }
}

/// The "x of a kind" score: the largest total of one face that at least `x`
/// dice show, or 0 when there is none.
pub open spec fn of_a_kind_score(s: Seq<u32>, x: u32) -> nat {
    best_kind_upto(s, x, 6)
}

/// The total of each face that at least `x` dice show fits in a `u32`.
pub open spec fn kind_totals_fit(s: Seq<u32>, x: u32) -> bool {
    forall|v: u32| 1 <= v <= 6 && #[trigger] count_of(s, v) >= x ==> v * count_of(s, v) <= u32::MAX
}

/// The "3 of a kind" and "4 of a kind" categories: the largest total of a
/// face that at least `x` dice show, or 0.
pub fn x_of_a_kind(dice: &[u32], x: u32) -> (score: u32)
    requires
        all_faces(dice@),
        tallies_fit(dice@),
        kind_totals_fit(dice@, x),
    ensures
        score == of_a_kind_score(dice@, x),
{
    let counts = face_counts(dice);
    let mut max_score: u32 = 0;
    let mut side: usize = 0;
    while side < 6
        invariant
            side <= 6,
            counts.len() == 6,
            forall|f: int| 0 <= f < 6 ==> #[trigger] counts[f] == count_of(dice@, (f + 1) as u32),
            tallies_fit(dice@),
            kind_totals_fit(dice@, x),
            max_score == best_kind_upto(dice@, x, side as nat),
        decreases 6 - side,
    {
        let c = counts[side];
        let face = (side + 1) as u32;
        assert(c == count_of(dice@, face));
        assert(c <= u32::MAX);
        let cnt = c as u32;
        if cnt > 0 && cnt >= x {
            let score = face * cnt;
            max_score = max(max_score, score);
        } else if cnt == 0 {
            assert(face as nat * count_of(dice@, face) == 0) by (nonlinear_arith)
                requires
                    count_of(dice@, face) == 0,
            ;
        }
        side = side + 1;
    }
    max_score
}


/// The dice show exactly the two faces `a` and `b`, each at least once.
pub open spec fn shows_two_faces(s: Seq<u32>, a: u32, b: u32) -> bool {
    &&& count_of(s, a) > 0
    &&& count_of(s, b) > 0
    &&& forall|k: int| 0 <= k < s.len() ==> #[trigger] s[k] == a || s[k] == b
}

/// A full house: the dice show exactly two faces, and the lower of them
/// appears two or three times.
pub open spec fn is_full_house(s: Seq<u32>) -> bool {
    exists|a: u32, b: u32|
        #![trigger count_of(s, a), count_of(s, b)]
        1 <= a < b <= 6 && shows_two_faces(s, a, b) && (count_of(s, a) == 2 || count_of(s, a) == 3)
}

/// The "Full House" score: the total of the dice for a full house, else 0.
pub open spec fn full_house_score(s: Seq<u32>) -> nat {
    if is_full_house(s) {
        sum_of(s)
    } else {
        0
    }
}

/// Dice that show only the faces `a` and `b` total `a` times the number of
/// `a`s plus `b` times the number of `b`s.
pub proof fn lemma_sum_of_two_faces(s: Seq<u32>, a: u32, b: u32)
    requires
        a != b,
        forall|k: int| 0 <= k < s.len() ==> #[trigger] s[k] == a || s[k] == b,
    ensures
        sum_of(s) == a * count_of(s, a) + b * count_of(s, b),
    decreases s.len(),
{
    if s.len() == 0 {
        assert(a * count_of(s, a) == 0 && b * count_of(s, b) == 0) by (nonlinear_arith)
            requires
                count_of(s, a) == 0,
                count_of(s, b) == 0,
        ;
    } else {
        let t = s.drop_last();
        assert forall|k: int| 0 <= k < t.len() implies #[trigger] t[k] == a || t[k] == b by {
            assert(t[k] == s[k]);
        }
        lemma_sum_of_two_faces(t, a, b);
        let ca = count_of(t, a);
        let cb = count_of(t, b);
        let x = s.last();
        assert(x == s[s.len() - 1]);
        assert(sum_of(s) == sum_of(t) + x);
        if x == a {
            assert(count_of(s, a) == ca + 1);
            assert(count_of(s, b) == cb);
            assert(a * (ca + 1) == a * ca + a) by (nonlinear_arith);
        } else {
            assert(count_of(s, a) == ca);
            assert(count_of(s, b) == cb + 1);
            assert(b * (cb + 1) == b * cb + b) by (nonlinear_arith);
        }
    }
}

/// The "Full House" category: the total of the dice when they show exactly
/// two faces and the lower one appears two or three times, else 0.
pub fn full_house(dice: &[u32]) -> (score: u32)
    requires
        all_faces(dice@),
        tallies_fit(dice@),
        is_full_house(dice@) ==> sum_of(dice@) <= u32::MAX,
    ensures
        score == full_house_score(dice@),
{
    let counts = face_counts(dice);
    let mut present: Vec<usize> = Vec::new();
    let mut f: usize = 0;
    while f < 6
        invariant
            f <= 6,
            counts.len() == 6,
            forall|g: int| 0 <= g < present.len() ==> #[trigger] present[g] < f,
            forall|g: int, h: int| 0 <= g < h < present.len() ==> present[g] < present[h],
            forall|g: int| 0 <= g < present.len() ==> counts[#[trigger] present[g] as int] > 0,
            forall|e: int| 0 <= e < f && #[trigger] counts[e] > 0 ==> present@.contains(e as usize),
        decreases 6 - f,
    {
        let ghost before = present@;
        if counts[f] > 0 {
            present.push(f);
            proof {
                assert(present@[present.len() - 1] == f);
                assert forall|e: int| 0 <= e < f + 1 && #[trigger] counts[e] > 0 implies present@.contains(
                    e as usize,
                ) by {
                    if e < f {
                        let j = choose|j: int| 0 <= j < before.len() && before[j] == e as usize;
                        assert(present@[j] == e as usize);
                    } else {
                        assert(present@[present.len() - 1] == e as usize);
                    }
                }
            }
        }
        f = f + 1;
    }
    let ghost s = dice@;
    proof {
        // Every face that some die shows is among the present ones.
        assert forall|k: int| 0 <= k < s.len() implies #[trigger] present@.contains((s[k] - 1) as usize) by {
            let e = (s[k] - 1) as int;
            lemma_count_of_shown(s, k);
            assert(counts[e] == count_of(s, (e + 1) as u32));
        }
        // The faces of a full house are exactly the present ones.
        if is_full_house(s) {
            let (a2, b2) = choose|a2: u32, b2: u32|
                #![trigger count_of(s, a2), count_of(s, b2)]
                1 <= a2 < b2 <= 6 && shows_two_faces(s, a2, b2) && (count_of(s, a2) == 2 || count_of(
                    s,
                    a2,
                ) == 3);
            assert(counts[a2 - 1] == count_of(s, a2));
            assert(counts[b2 - 1] == count_of(s, b2));
            assert(present@.contains((a2 - 1) as usize));
            assert(present@.contains((b2 - 1) as usize));
            assert forall|g: int| 0 <= g < present.len() implies #[trigger] present[g] == a2 - 1
                || present[g] == b2 - 1 by {
                let e = present[g] as int;
                assert(counts[e] > 0);
                assert(counts[e] == count_of(s, (e + 1) as u32));
                if e != a2 - 1 && e != b2 - 1 {
                    lemma_count_of_absent(s, (e + 1) as u32);
                }
            }
            let ja = choose|j: int| 0 <= j < present.len() && present[j] == (a2 - 1) as usize;
            let jb = choose|j: int| 0 <= j < present.len() && present[j] == (b2 - 1) as usize;
            if present.len() > 2 {
                assert(present[0] < present[1] < present[2]);
            }
            assert(present.len() == 2);
            assert(ja == 0 && jb == 1);
        }
    }
    if present.len() == 2 {
        let p0 = present[0];
        let p1 = present[1];
        let a = (p0 + 1) as u32;
        let b = (p1 + 1) as u32;
        assert(counts[p0 as int] == count_of(s, a));
        assert(counts[p1 as int] == count_of(s, b));
        proof {
            assert forall|k: int| 0 <= k < s.len() implies #[trigger] s[k] == a || s[k] == b by {
                assert(present@.contains((s[k] - 1) as usize));
                let j = choose|j: int| 0 <= j < present.len() && present[j] == (s[k] - 1) as usize;
                assert(j == 0 || j == 1);
            }
            lemma_sum_of_two_faces(s, a, b);
        }
        let first_count = counts[p0];
        if first_count == 3 || first_count == 2 {
            assert(shows_two_faces(s, a, b));
            assert(is_full_house(s));
            let ca = first_count as u32;
            let cb = counts[p1] as u32;
            assert(a * ca <= u32::MAX && b * cb <= u32::MAX) by (nonlinear_arith)
                requires
                    a * ca + b * cb <= u32::MAX,
            ;
            return a * ca + b * cb;
        }
    }
    0
}

/// The length of the run of dice that each show one more than the die before
/// it and that ends at position `k`.
pub open spec fn run_ending_at(s: Seq<u32>, k: int) -> nat
    decreases k,
{
    if k <= 0 {
        1
    } else if s[k] as int == s[k - 1] + 1 {
        run_ending_at(s, k - 1) + 1
    } else {
        1
    }
}

/// The longest such run that ends before position `n`.
pub open spec fn longest_run_upto(s: Seq<u32>, n: int) -> nat
    decreases n,
{
    if n <= 0 {
        0
    } else {
        let a = longest_run_upto(s, n - 1);
        let b = run_ending_at(s, n - 1);
        if a >= b {
            a
        } else {
            b
        }
    }
}

/// The longest run of dice, in the order given, that each show one more
/// than the die before them; 0 for no dice.
pub open spec fn longest_run(s: Seq<u32>) -> nat {
    longest_run_upto(s, s.len() as int)
}

/// No die shows the largest `u32`, so one more than each face still fits.
pub open spec fn faces_below_max(s: Seq<u32>) -> bool {
    forall|k: int| 0 <= k < s.len() ==> #[trigger] s[k] < u32::MAX
}

/// The length of the longest run of dice that each show one more than the
/// die before them.
fn run_length(dice: &[u32]) -> (len: u32)
    requires
        faces_below_max(dice@),
    ensures
        len == longest_run(dice@),
{
    let mut next: u32 = 0;
    let mut run: u32 = 0;
    let mut max_run: u32 = 0;
    let mut i: usize = 0;
    while i < dice.len()
        invariant
            i <= dice.len(),
            faces_below_max(dice@),
            i == 0 ==> next == 0 && run == 0,
            i > 0 ==> next == dice@[i - 1] + 1 && run == run_ending_at(dice@, i - 1),
            run <= next,
            max_run == longest_run_upto(dice@, i as int),
        decreases dice.len() - i,
    {
        let die = dice[i];
        if die != next {
            run = 0;
        }
        run = run + 1;
        next = die + 1;
        max_run = max(max_run, run);
        i = i + 1;
    }
    max_run
}

/// The "Small Straight" score: 30 when the longest run is exactly four dice.
pub open spec fn small_straight_score(s: Seq<u32>) -> nat {
    if longest_run(s) == 4 {
        30
    } else {
        0
    }
}

/// The "Large Straight" score: 40 when the longest run is exactly five dice.
pub open spec fn large_straight_score(s: Seq<u32>) -> nat {
    if longest_run(s) == 5 {
        40
    } else {
        0
    }
}

/// The "Small Straight" category: 30 when the longest run of dice that
/// each show one more than the die before them is exactly four long, else 0.
pub fn small_straight(dice: &[u32]) -> (score: u32)
    requires
        faces_below_max(dice@),
    ensures
        score == small_straight_score(dice@),
{
    if run_length(dice) == 4 {
        return 30;
    }
    0
}

/// The "Large Straight" category: 40 when the longest run of dice that
/// each show one more than the die before them is exactly five long, else 0.
pub fn large_straight(dice: &[u32]) -> (score: u32)
    requires
        faces_below_max(dice@),
    ensures
        score == large_straight_score(dice@),
{
    if run_length(dice) == 5 {
        return 40;
    }
    0
}

/// The "Yacht" score: 50 when exactly five dice show the face of the first
/// die, else 0.
pub open spec fn yacht_score(s: Seq<u32>) -> nat
    recommends
        s.len() > 0,
{
    if count_of(s, s[0]) == 5 {
        50
    } else {
        0
    }
}

/// The "Yacht" category: 50 when exactly five dice show the face of the
/// first die, else 0.
pub fn yacht(dice: &[u32]) -> (score: u32)
    requires
        dice.len() > 0,
    ensures
        score == yacht_score(dice@),
{
    let first = dice[0];
    let mut n: usize = 0;
    let mut i: usize = 0;
    while i < dice.len()
        invariant
            i <= dice.len(),
            first == dice@[0],
            n == count_of(dice@.take(i as int), first),
        decreases dice.len() - i,
    {
        proof {
            lemma_count_of_step(dice@, first, i as int);
            lemma_count_of_len(dice@.take(i as int), first);
        }
        if dice[i] == first {
            n = n + 1;
        }
        i = i + 1;
    }
    proof {
        assert(dice@.take(i as int) =~= dice@);
    }
    if n == 5 {
        return 50;
    }
    0
}


/// Taking one die out of the dice: the total drops by its face, and the
/// tally of each face drops by one for the face it shows.
proof fn lemma_remove_one(t: Seq<u32>, i: int)
    requires
        0 <= i < t.len(),
    ensures
        sum_of(t) == sum_of(t.remove(i)) + t[i],
        forall|v: u32| #[trigger] count_of(t, v) == count_of(t.remove(i), v) + if t[i] == v { 1nat } else { 0nat },
    decreases t.len(),
{
    if i == t.len() - 1 {
        assert(t.remove(i) =~= t.drop_last());
    } else {
        let u = t.drop_last();
        lemma_remove_one(u, i);
        assert(t.remove(i).drop_last() =~= u.remove(i));
        assert(t.remove(i).last() == t.last());
        assert(t.remove(i).len() > 0);
        assert forall|v: u32| #[trigger] count_of(t, v) == count_of(t.remove(i), v) + if t[i] == v { 1nat } else { 0nat } by {
            assert(count_of(u, v) == count_of(u.remove(i), v) + if u[i] == v { 1nat } else { 0nat });
        }
    }
}

/// Dice that are the same up to order have the same total and the same
/// tally of every face.
pub proof fn lemma_same_dice(s: Seq<u32>, t: Seq<u32>)
    requires
        s.to_multiset() == t.to_multiset(),
    ensures
        sum_of(s) == sum_of(t),
        forall|v: u32| #[trigger] count_of(s, v) == count_of(t, v),
    decreases s.len(),
{
    broadcast use vstd::seq_lib::group_to_multiset_ensures;
    broadcast use vstd::multiset::group_multiset_axioms;

    if s.len() == 0 {
        assert(t.len() == t.to_multiset().len());
        assert(t =~= Seq::<u32>::empty());
    } else {
        let x = s.last();
        let r = s.drop_last();
        assert(s =~= r.push(x));
        assert(s.to_multiset() == r.to_multiset().insert(x));
        assert(t.to_multiset().count(x) > 0);
        assert(t.contains(x));
        let i = choose|i: int| 0 <= i < t.len() && t[i] == x;
        assert(t.remove(i).to_multiset() == t.to_multiset().remove(x));
        assert(r.to_multiset() =~= t.to_multiset().remove(x));
        lemma_same_dice(r, t.remove(i));
        lemma_remove_one(t, i);
        assert(s.drop_last() == r);
        assert forall|v: u32| #[trigger] count_of(s, v) == count_of(t, v) by {
            assert(count_of(r, v) == count_of(t.remove(i), v));
        }
    }
}

/// A face counted at least once is shown by some die.
proof fn lemma_count_of_witness(s: Seq<u32>, v: u32)
    requires
        count_of(s, v) > 0,
    ensures
        exists|k: int| 0 <= k < s.len() && s[k] == v,
{
    if forall|k: int| 0 <= k < s.len() ==> s[k] != v {
        lemma_count_of_absent(s, v);
    }
}

proof fn lemma_full_house_same_dice(s: Seq<u32>, t: Seq<u32>)
    requires
        s.to_multiset() == t.to_multiset(),
        is_full_house(s),
    ensures
        is_full_house(t),
{
    lemma_same_dice(s, t);
    let (a, b) = choose|a: u32, b: u32|
        #![trigger count_of(s, a), count_of(s, b)]
        1 <= a < b <= 6 && shows_two_faces(s, a, b) && (count_of(s, a) == 2 || count_of(s, a) == 3);
    assert(count_of(s, a) == count_of(t, a));
    assert(count_of(s, b) == count_of(t, b));
    assert forall|k: int| 0 <= k < t.len() implies #[trigger] t[k] == a || t[k] == b by {
        lemma_count_of_shown(t, k);
        assert(count_of(s, t[k]) == count_of(t, t[k]));
        lemma_count_of_witness(s, t[k]);
    }
    assert(shows_two_faces(t, a, b));
}

/// Every category but the straights and "Yacht" scores the dice the same
/// whatever their order.
pub proof fn lemma_order_does_not_matter(s: Seq<u32>, t: Seq<u32>)
    requires
        s.to_multiset() == t.to_multiset(),
    ensures
        forall|sc: Scorer|
            !(sc is SmallStraight) && !(sc is LargeStraight) && !(sc is Yacht) ==> #[trigger] sc.score(s)
                == sc.score(t),
{
    lemma_same_dice(s, t);
    if is_full_house(s) {
        lemma_full_house_same_dice(s, t);
    }
    if is_full_house(t) {
        lemma_full_house_same_dice(t, s);
    }
    assert forall|x: u32, k: nat| #[trigger] best_kind_upto(s, x, k) == best_kind_upto(t, x, k) by {
        lemma_best_kind_same(s, t, x, k);
    }
}

proof fn lemma_best_kind_same(s: Seq<u32>, t: Seq<u32>, x: u32, k: nat)
    requires
        forall|v: u32| #[trigger] count_of(s, v) == count_of(t, v),
    ensures
        best_kind_upto(s, x, k) == best_kind_upto(t, x, k),
    decreases k,
{
    if k > 0 {
        lemma_best_kind_same(s, t, x, (k - 1) as nat);
        assert(count_of(s, k as u32) == count_of(t, k as u32));
    }
}

/// The points of the upper section for the faces 1 to `k`: each face times
/// the number of dice that show it.
pub open spec fn upper_total(s: Seq<u32>, k: nat) -> nat
    decreases k,
{
    if k == 0 {
        0
    } else {
        upper_total(s, (k - 1) as nat) + Scorer::Count(k as u32).score(s)
    }
}

proof fn lemma_upper_total_step(s: Seq<u32>, k: nat)
    requires
        s.len() > 0,
        k <= 6,
    ensures
        upper_total(s, k) == upper_total(s.drop_last(), k) + if 1 <= s.last() <= k {
            s.last() as nat
        } else {
            0
        },
    decreases k,
{
    if k > 0 {
        lemma_upper_total_step(s, (k - 1) as nat);
        let v = k as u32;
        let c = count_of(s.drop_last(), v);
        if s.last() == v {
            assert(count_of(s, v) == c + 1);
            assert((c + 1) * v == c * v + v) by (nonlinear_arith);
        } else {
            assert(count_of(s, v) == c);
        }
    }
}

proof fn lemma_upper_total_none(s: Seq<u32>, k: nat)
    requires
        s.len() == 0,
        k <= 6,
    ensures
        upper_total(s, k) == 0,
    decreases k,
{
    if k > 0 {
        lemma_upper_total_none(s, (k - 1) as nat);
        let v = k as u32;
        let c = count_of(s, v);
        assert(c == 0);
        assert(c * (v as nat) == 0) by (nonlinear_arith)
            requires
                c == 0,
        ;
    }
}

/// The six upper-section categories together score what "Chance" scores,
/// whenever every die shows a face from 1 to 6.
pub proof fn lemma_upper_section_is_chance(s: Seq<u32>)
    requires
        all_faces(s),
    ensures
        upper_total(s, 6) == Scorer::Chance.score(s),
    decreases s.len(),
{
    if s.len() == 0 {
        lemma_upper_total_none(s, 6);
    } else {
        let r = s.drop_last();
        assert forall|k: int| 0 <= k < r.len() implies 1 <= #[trigger] r[k] <= 6 by {
            assert(r[k] == s[k]);
        }
        lemma_upper_section_is_chance(r);
        lemma_upper_total_step(s, 6);
        assert(s.last() == s[s.len() - 1]);
    }
}

/// One face's total never exceeds the total of all dice.
proof fn lemma_face_total_at_most_sum(s: Seq<u32>, v: u32)
    ensures
        v * count_of(s, v) <= sum_of(s),
    decreases s.len(),
{
    if s.len() == 0 {
        assert(v * 0 == 0);
    } else {
        let r = s.drop_last();
        lemma_face_total_at_most_sum(r, v);
        let c = count_of(r, v);
        if s.last() == v {
            assert(v * (c + 1) == v * c + v) by (nonlinear_arith);
        }
    }
}

proof fn lemma_best_kind_at_most_sum(s: Seq<u32>, x: u32, k: nat)
    ensures
        best_kind_upto(s, x, k) <= sum_of(s),
    decreases k,
{
    if k > 0 {
        lemma_best_kind_at_most_sum(s, x, (k - 1) as nat);
        lemma_face_total_at_most_sum(s, k as u32);
    }
}

/// An "x of a kind" never scores more than "Chance".
pub proof fn lemma_of_a_kind_at_most_chance(s: Seq<u32>, x: u32)
    ensures
        Scorer::OfAKind(x).score(s) <= Scorer::Chance.score(s),
{
    lemma_best_kind_at_most_sum(s, x, 6);
}

proof fn lemma_best_kind_monotone(s: Seq<u32>, x: u32, y: u32, k: nat)
    requires
        x <= y,
    ensures
        best_kind_upto(s, y, k) <= best_kind_upto(s, x, k),
    decreases k,
{
    if k > 0 {
        lemma_best_kind_monotone(s, x, y, (k - 1) as nat);
    }
}

/// Asking for more of a kind never scores more: "4 of a kind" never beats
/// "3 of a kind" on the same dice.
pub proof fn lemma_of_a_kind_monotone(s: Seq<u32>, x: u32, y: u32)
    requires
        x <= y,
    ensures
        Scorer::OfAKind(y).score(s) <= Scorer::OfAKind(x).score(s),
{
    lemma_best_kind_monotone(s, x, y, 6);
}

proof fn lemma_best_kind_too_few(s: Seq<u32>, x: u32, k: nat)
    requires
        x > s.len(),
    ensures
        best_kind_upto(s, x, k) == 0,
    decreases k,
{
    if k > 0 {
        lemma_best_kind_too_few(s, x, (k - 1) as nat);
        lemma_count_of_len(s, k as u32);
    }
}

/// Asking for more of a kind than there are dice scores nothing.
pub proof fn lemma_of_a_kind_needs_enough_dice(s: Seq<u32>, x: u32)
    requires
        x > s.len(),
    ensures
        Scorer::OfAKind(x).score(s) == 0,
{
    lemma_best_kind_too_few(s, x, 6);
}

/// "Full House" scores either nothing or what "Chance" scores.
pub proof fn lemma_full_house_is_zero_or_chance(s: Seq<u32>)
    ensures
        Scorer::FullHouse.score(s) == 0 || Scorer::FullHouse.score(s) == Scorer::Chance.score(s),
{
}

/// The same dice never score both straights.
pub proof fn lemma_straights_exclude_each_other(s: Seq<u32>)
    ensures
        Scorer::SmallStraight.score(s) == 0 || Scorer::LargeStraight.score(s) == 0,
{
}


proof fn lemma_best_kind_fits(s: Seq<u32>, x: u32, k: nat)
    requires
        kind_totals_fit(s, x),
        k <= 6,
    ensures
        best_kind_upto(s, x, k) <= u32::MAX,
    decreases k,
{
    if k > 0 {
        lemma_best_kind_fits(s, x, (k - 1) as nat);
        let v = k as u32;
        if count_of(s, v) >= x {
            assert(v * count_of(s, v) <= u32::MAX);
        }
    }
}

/// On dice that a scorer accepts, its score fits in a `u32`.
pub proof fn lemma_accepted_score_fits(sc: Scorer, s: Seq<u32>)
    requires
        sc.accepts(s),
    ensures
        sc.score(s) <= u32::MAX,
{
    match sc {
        Scorer::Count(v) => {
            assert(count_of(s, v) * (v as nat) == count_of(s, v) * v);
        },
        Scorer::OfAKind(x) => {
            lemma_best_kind_fits(s, x, 6);
        },
        _ => {},
    }
}

/// The thirteen categories of the game, in the order of the score sheet.
pub fn standard_rules() -> (rules: Vec<ScoringRule>)
    ensures
        rules.len() == 13,
            rules[0]@ == ("Ones"@, Scorer::Count(1), 5u32),
            rules[1]@ == ("Twos"@, Scorer::Count(2), 10u32),
            rules[2]@ == ("Threes"@, Scorer::Count(3), 15u32),
            rules[3]@ == ("Fours"@, Scorer::Count(4), 20u32),
            rules[4]@ == ("Fives"@, Scorer::Count(5), 25u32),
            rules[5]@ == ("Sixes"@, Scorer::Count(6), 30u32),
            rules[6]@ == ("Chance"@, Scorer::Chance, 30u32),
            rules[7]@ == ("3-of-a-Kind"@, Scorer::OfAKind(3), 30u32),
            rules[8]@ == ("4-of-a-Kind"@, Scorer::OfAKind(4), 30u32),
            rules[9]@ == ("Full House"@, Scorer::FullHouse, 25u32),
            rules[10]@ == ("Small Straight"@, Scorer::SmallStraight, 30u32),
            rules[11]@ == ("Large Straight"@, Scorer::LargeStraight, 40u32),
            rules[12]@ == ("Yacht"@, Scorer::Yacht, 50u32),
{
    let mut rules: Vec<ScoringRule> = Vec::new();
    rules.push(ScoringRule::new("Ones".to_owned(), Scorer::Count(1), 5));
    rules.push(ScoringRule::new("Twos".to_owned(), Scorer::Count(2), 10));
    rules.push(ScoringRule::new("Threes".to_owned(), Scorer::Count(3), 15));
    rules.push(ScoringRule::new("Fours".to_owned(), Scorer::Count(4), 20));
    rules.push(ScoringRule::new("Fives".to_owned(), Scorer::Count(5), 25));
    rules.push(ScoringRule::new("Sixes".to_owned(), Scorer::Count(6), 30));
    rules.push(ScoringRule::new("Chance".to_owned(), Scorer::Chance, 30));
    rules.push(ScoringRule::new("3-of-a-Kind".to_owned(), Scorer::OfAKind(3), 30));
    rules.push(ScoringRule::new("4-of-a-Kind".to_owned(), Scorer::OfAKind(4), 30));
    rules.push(ScoringRule::new("Full House".to_owned(), Scorer::FullHouse, 25));
    rules.push(ScoringRule::new("Small Straight".to_owned(), Scorer::SmallStraight, 30));
    rules.push(ScoringRule::new("Large Straight".to_owned(), Scorer::LargeStraight, 40));
    rules.push(ScoringRule::new("Yacht".to_owned(), Scorer::Yacht, 50));
    rules
}


// Laws that say, in plain terms of the dice, what each category scores.

/// Adding a die adds its face to "Chance".
pub proof fn lemma_chance_adds_each_die(s: Seq<u32>, x: u32)
    ensures
        Scorer::Chance.score(s.push(x)) == Scorer::Chance.score(s) + x,
{
    assert(s.push(x).drop_last() =~= s);
}

/// Adding a die adds its face to the upper category of that face, and
/// nothing to the others.
pub proof fn lemma_count_adds_matching_die(s: Seq<u32>, x: u32, v: u32)
    ensures
        Scorer::Count(v).score(s.push(x)) == Scorer::Count(v).score(s) + if x == v { v as nat } else { 0 },
{
    assert(s.push(x).drop_last() =~= s);
    let c = count_of(s, v);
    assert((c + 1) * (v as nat) == c * (v as nat) + v as nat) by (nonlinear_arith);
}

/// Dice that show only the faces `a < b`, each at least once, the lower one
/// two or three times, score their total under "Full House".
pub proof fn lemma_full_house_scores_two_faces(s: Seq<u32>, a: u32, b: u32)
    requires
        1 <= a < b <= 6,
        forall|k: int| 0 <= k < s.len() ==> #[trigger] s[k] == a || s[k] == b,
        count_of(s, a) == 2 || count_of(s, a) == 3,
        count_of(s, b) >= 1,
    ensures
        Scorer::FullHouse.score(s) == Scorer::Chance.score(s),
{
    assert(shows_two_faces(s, a, b));
    assert(is_full_house(s));
}

/// Dice that show three different faces score nothing under "Full House".
pub proof fn lemma_full_house_not_three_faces(s: Seq<u32>, i: int, j: int, k: int)
    requires
        0 <= i < s.len(),
        0 <= j < s.len(),
        0 <= k < s.len(),
        s[i] != s[j],
        s[j] != s[k],
        s[i] != s[k],
    ensures
        Scorer::FullHouse.score(s) == 0,
{
    if is_full_house(s) {
        let (a, b) = choose|a: u32, b: u32|
            #![trigger count_of(s, a), count_of(s, b)]
            1 <= a < b <= 6 && shows_two_faces(s, a, b) && (count_of(s, a) == 2 || count_of(s, a) == 3);
        assert(s[i] == a || s[i] == b);
        assert(s[j] == a || s[j] == b);
        assert(s[k] == a || s[k] == b);
    }
}

/// Dice that all show one face score nothing under "Full House".
pub proof fn lemma_full_house_not_one_face(s: Seq<u32>, v: u32)
    requires
        forall|k: int| 0 <= k < s.len() ==> #[trigger] s[k] == v,
    ensures
        Scorer::FullHouse.score(s) == 0,
{
    if is_full_house(s) {
        let (a, b) = choose|a: u32, b: u32|
            #![trigger count_of(s, a), count_of(s, b)]
            1 <= a < b <= 6 && shows_two_faces(s, a, b) && (count_of(s, a) == 2 || count_of(s, a) == 3);
        if a != v {
            lemma_count_of_absent(s, a);
        } else {
            lemma_count_of_absent(s, b);
        }
    }
}

/// Dice that show only the faces `a < b`, the lower one neither two nor
/// three times, score nothing under "Full House".
pub proof fn lemma_full_house_needs_pair_or_triple_below(s: Seq<u32>, a: u32, b: u32)
    requires
        a < b,
        forall|k: int| 0 <= k < s.len() ==> #[trigger] s[k] == a || s[k] == b,
        count_of(s, a) >= 1,
        count_of(s, b) >= 1,
        count_of(s, a) != 2 && count_of(s, a) != 3,
    ensures
        Scorer::FullHouse.score(s) == 0,
{
    if is_full_house(s) {
        let (a2, b2) = choose|a2: u32, b2: u32|
            #![trigger count_of(s, a2), count_of(s, b2)]
            1 <= a2 < b2 <= 6 && shows_two_faces(s, a2, b2) && (count_of(s, a2) == 2 || count_of(s, a2) == 3);
        lemma_count_of_witness(s, a2);
        lemma_count_of_witness(s, b2);
        lemma_count_of_witness(s, a);
        lemma_count_of_witness(s, b);
        let ka = choose|k: int| 0 <= k < s.len() && s[k] == a;
        let kb = choose|k: int| 0 <= k < s.len() && s[k] == b;
        let ka2 = choose|k: int| 0 <= k < s.len() && s[k] == a2;
        let kb2 = choose|k: int| 0 <= k < s.len() && s[k] == b2;
        assert(s[ka] == a2 || s[ka] == b2);
        assert(s[kb] == a2 || s[kb] == b2);
        assert(s[ka2] == a || s[ka2] == b);
        assert(s[kb2] == a || s[kb2] == b);
    }
}

proof fn lemma_best_kind_at_least(s: Seq<u32>, x: u32, v: u32, k: nat)
    requires
        1 <= v <= k,
        count_of(s, v) >= x,
    ensures
        best_kind_upto(s, x, k) >= v * count_of(s, v),
    decreases k,
{
    if v < k {
        lemma_best_kind_at_least(s, x, v, (k - 1) as nat);
    }
}

proof fn lemma_best_kind_attained(s: Seq<u32>, x: u32, k: nat)
    requires
        k <= 6,
    ensures
        best_kind_upto(s, x, k) == 0 || exists|v: u32|
            1 <= v <= k && #[trigger] count_of(s, v) >= x && best_kind_upto(s, x, k) == v * count_of(s, v),
    decreases k,
{
    if k > 0 {
        lemma_best_kind_attained(s, x, (k - 1) as nat);
        let v = k as u32;
        if best_kind_upto(s, x, k) != best_kind_upto(s, x, (k - 1) as nat) {
            assert(best_kind_upto(s, x, k) == kind_score(s, x, v));
            assert(kind_score(s, x, v) > 0);
            assert(count_of(s, v) >= x);
            assert(best_kind_upto(s, x, k) == v * count_of(s, v));
            assert(1 <= v <= k);
        } else if best_kind_upto(s, x, k) != 0 {
            let w = choose|w: u32|
                1 <= w <= k - 1 && #[trigger] count_of(s, w) >= x && best_kind_upto(s, x, (k - 1) as nat) == w
                    * count_of(s, w);
            assert(1 <= w <= k && count_of(s, w) >= x);
        }
    }
}

/// "x of a kind" scores at least the total of every face that at least `x`
/// dice show, and is either 0 or the total of one such face.
pub proof fn lemma_of_a_kind_is_best_face(s: Seq<u32>, x: u32)
    ensures
        forall|v: u32|
            1 <= v <= 6 && #[trigger] count_of(s, v) >= x ==> Scorer::OfAKind(x).score(s) >= v * count_of(s, v),
        Scorer::OfAKind(x).score(s) == 0 || exists|v: u32|
            1 <= v <= 6 && #[trigger] count_of(s, v) >= x && Scorer::OfAKind(x).score(s) == v * count_of(s, v),
{
    assert forall|v: u32| 1 <= v <= 6 && #[trigger] count_of(s, v) >= x implies Scorer::OfAKind(x).score(s) >= v
        * count_of(s, v) by {
        lemma_best_kind_at_least(s, x, v, 6);
    }
    lemma_best_kind_attained(s, x, 6);
}

/// The `m` dice from position `i` on each show one more than the die
/// before them.
pub open spec fn climbs(s: Seq<u32>, i: int, m: int) -> bool {
    &&& 0 <= i
    &&& i + m <= s.len()
    &&& forall|t: int| 0 <= t < m ==> #[trigger] s[i + t] == s[i] + t
}

/// Some `m` dice in a row each show one more than the die before them.
pub open spec fn has_climb(s: Seq<u32>, m: int) -> bool {
    exists|i: int| #[trigger] climbs(s, i, m)
}

proof fn lemma_run_from_climb(s: Seq<u32>, k: int, m: int)
    requires
        1 <= m,
        k < s.len(),
        climbs(s, k - m + 1, m),
    ensures
        run_ending_at(s, k) >= m,
    decreases m,
{
    if m > 1 {
        let i = k - m + 1;
        assert(s[i + (m - 1)] == s[i] + (m - 1));
        assert(s[i + (m - 2)] == s[i] + (m - 2));
        assert(climbs(s, k - 1 - (m - 1) + 1, m - 1)) by {
            assert forall|t: int| 0 <= t < m - 1 implies #[trigger] s[i + t] == s[i] + t by {
                assert(s[i + t] == s[i] + t);
            }
        }
        lemma_run_from_climb(s, k - 1, m - 1);
    }
}

proof fn lemma_climb_from_run(s: Seq<u32>, k: int, m: int)
    requires
        1 <= m,
        0 <= k < s.len(),
        run_ending_at(s, k) >= m,
    ensures
        climbs(s, k - m + 1, m),
    decreases m,
{
    let i = k - m + 1;
    if m == 1 {
        assert(s[i + 0] == s[i] + 0);
    } else {
        assert(k > 0);
        assert(s[k] as int == s[k - 1] + 1);
        lemma_climb_from_run(s, k - 1, m - 1);
        assert forall|t: int| 0 <= t < m implies #[trigger] s[i + t] == s[i] + t by {
            if t < m - 1 {
                assert(s[i + t] == s[i] + t);
            } else {
                assert(s[i + (m - 2)] == s[i] + (m - 2));
            }
        }
    }
}

proof fn lemma_longest_at_least(s: Seq<u32>, n: int, k: int)
    requires
        0 <= k < n,
    ensures
        longest_run_upto(s, n) >= run_ending_at(s, k),
    decreases n,
{
    if k < n - 1 {
        lemma_longest_at_least(s, n - 1, k);
    }
}

proof fn lemma_longest_at_most(s: Seq<u32>, n: int, bound: nat)
    requires
        forall|k: int| 0 <= k < n ==> #[trigger] run_ending_at(s, k) <= bound,
    ensures
        longest_run_upto(s, n) <= bound,
    decreases n,
{
    if n > 0 {
        lemma_longest_at_most(s, n - 1, bound);
    }
}

/// The longest run is at least `m` exactly when some `m` dice in a row each
/// show one more than the die before them.
proof fn lemma_longest_run_climb(s: Seq<u32>, m: int)
    requires
        m >= 1,
    ensures
        longest_run(s) >= m <==> has_climb(s, m),
{
    let n = s.len() as int;
    if has_climb(s, m) {
        let i = choose|i: int| #[trigger] climbs(s, i, m);
        lemma_run_from_climb(s, i + m - 1, m);
        lemma_longest_at_least(s, n, i + m - 1);
    } else {
        assert forall|k: int| 0 <= k < n implies #[trigger] run_ending_at(s, k) <= (m - 1) as nat by {
            if run_ending_at(s, k) >= m {
                lemma_climb_from_run(s, k, m);
            }
        }
        lemma_longest_at_most(s, n, (m - 1) as nat);
    }
}

/// "Small Straight" scores 30 exactly when four dice in a row, and no five,
/// each show one more than the die before them; otherwise 0.
pub proof fn lemma_small_straight_is_run_of_four(s: Seq<u32>)
    ensures
        has_climb(s, 4) && !has_climb(s, 5) ==> Scorer::SmallStraight.score(s) == 30,
        !(has_climb(s, 4) && !has_climb(s, 5)) ==> Scorer::SmallStraight.score(s) == 0,
{
    lemma_longest_run_climb(s, 4);
    lemma_longest_run_climb(s, 5);
}

/// "Large Straight" scores 40 exactly when five dice in a row, and no six,
/// each show one more than the die before them; otherwise 0.
pub proof fn lemma_large_straight_is_run_of_five(s: Seq<u32>)
    ensures
        has_climb(s, 5) && !has_climb(s, 6) ==> Scorer::LargeStraight.score(s) == 40,
        !(has_climb(s, 5) && !has_climb(s, 6)) ==> Scorer::LargeStraight.score(s) == 0,
{
    lemma_longest_run_climb(s, 5);
    lemma_longest_run_climb(s, 6);
}

proof fn lemma_count_of_all(s: Seq<u32>, v: u32)
    requires
        forall|k: int| 0 <= k < s.len() ==> #[trigger] s[k] == v,
    ensures
        count_of(s, v) == s.len(),
    decreases s.len(),
{
    if s.len() > 0 {
        lemma_count_of_all(s.drop_last(), v);
    }
}

/// Five dice that all show one face score 50 under "Yacht"; five dice of
/// which some two differ score nothing.
pub proof fn lemma_yacht_five_alike(s: Seq<u32>)
    requires
        s.len() == 5,
    ensures
        (forall|k: int| 0 <= k < 5 ==> #[trigger] s[k] == s[0]) ==> Scorer::Yacht.score(s) == 50,
        (exists|k: int| 0 <= k < 5 && #[trigger] s[k] != s[0]) ==> Scorer::Yacht.score(s) == 0,
{
    if forall|k: int| 0 <= k < 5 ==> #[trigger] s[k] == s[0] {
        lemma_count_of_all(s, s[0]);
    }
    if exists|k: int| 0 <= k < 5 && #[trigger] s[k] != s[0] {
        let k = choose|k: int| 0 <= k < 5 && #[trigger] s[k] != s[0];
        lemma_count_of_at_most_others(s, s[0], k);
    }
}

/// A die that shows another face leaves room for at most all the others.
proof fn lemma_count_of_at_most_others(s: Seq<u32>, v: u32, k: int)
    requires
        0 <= k < s.len(),
        s[k] != v,
    ensures
        count_of(s, v) < s.len(),
    decreases s.len(),
{
    let r = s.drop_last();
    lemma_count_of_len(r, v);
    if k < s.len() - 1 {
        lemma_count_of_at_most_others(r, v, k);
    }
}

/// Among more dice, "Yacht" scores 50 exactly when five of them show the
/// face of the first.
pub proof fn lemma_yacht_counts_first_face(s: Seq<u32>)
    requires
        s.len() > 0,
    ensures
        Scorer::Yacht.score(s) == 50 <==> count_of(s, s[0]) == 5,
        Scorer::Yacht.score(s) == 0 || Scorer::Yacht.score(s) == 50,
{
}

} // verus!
