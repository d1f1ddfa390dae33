//! How the bot values a position and compares the outcomes of candidate moves.
use vstd::prelude::*;
use vstd::std_specs::cmp::{PartialEqSpecImpl, PartialOrdSpecImpl};
use crate::game::{Endgame, FieldCard, GameView, PlayerView, next_seat};

verus! {

/// The value of a position before a move (`base`) and after it (`action`).
/// Two scores compare by their gain, `action - base`.
#[derive(Debug, Clone, Copy)]
pub struct ComputedScore {
    pub base: i32,
    pub action: i32,
}

/// The gain of a computed score.
pub open spec fn gain(s: ComputedScore) -> int {
    s.action - s.base
}

impl ComputedScore {
    /// The gain `action - base`.
    pub fn score(&self) -> (res: i32)
        requires
            i32::MIN <= gain(*self) <= i32::MAX,
        ensures
            res == gain(*self),
    {
        self.action - self.base
    }

    /// The gain, computed without overflow.
    pub fn wide_score(&self) -> (res: i64)
        ensures
            res == gain(*self),
    {
        self.action as i64 - self.base as i64
    }
}

impl Default for ComputedScore {
    fn default() -> (res: Self)
        ensures
            res.base == 0 && res.action == 0,
    {
        ComputedScore { base: 0, action: 0 }
    }
}

impl PartialEq for ComputedScore {
    fn eq(&self, other: &Self) -> (res: bool) {
        self.wide_score() == other.wide_score()
    }
}

impl PartialEqSpecImpl for ComputedScore {
    open spec fn obeys_eq_spec() -> bool {
        true
    }

    open spec fn eq_spec(&self, other: &ComputedScore) -> bool {
        gain(*self) == gain(*other)
    }
}

impl Eq for ComputedScore {}

impl PartialOrd for ComputedScore {
    fn partial_cmp(&self, other: &Self) -> (res: Option<core::cmp::Ordering>) {
        let a = self.wide_score();
        let b = other.wide_score();
        if a < b {
            Some(core::cmp::Ordering::Less)
        } else if a == b {
            Some(core::cmp::Ordering::Equal)
        } else {
            Some(core::cmp::Ordering::Greater)
        }
    }
}

impl PartialOrdSpecImpl for ComputedScore {
    open spec fn obeys_partial_cmp_spec() -> bool {
        true
    }

    open spec fn partial_cmp_spec(&self, other: &ComputedScore) -> Option<core::cmp::Ordering> {
        if gain(*self) < gain(*other) {
            Some(core::cmp::Ordering::Less)
        } else if gain(*self) == gain(*other) {
            Some(core::cmp::Ordering::Equal)
        } else {
            Some(core::cmp::Ordering::Greater)
        }
    }
}

/// Rust's integer division, which rounds toward zero.
pub open spec fn trunc_div(x: int, d: int) -> int {
    if x >= 0 {
        x / d
    } else {
        -((-x) / d)
    }
}

pub open spec fn sum_i32(s: Seq<i32>) -> int
    decreases s.len(),
{
    if s.len() == 0 {
        0
    } else {
        sum_i32(s.drop_last()) + s.last()
    }
}

/// Whether adding up `s` from the left never leaves the range of `i32`.
pub open spec fn sum_fits(s: Seq<i32>) -> bool {
    forall|k: int| 0 <= k <= s.len() ==> i32::MIN <= #[trigger] sum_i32(s.take(k)) <= i32::MAX
}

pub open spec fn field_scores(f: Seq<FieldCard>) -> Seq<i32> {
    Seq::new(f.len(), |i: int| f[i].score)
}

/// The terms that make up a side's score, in the order they are added.
pub open spec fn score_terms(view: GameView, side: u8, low_life: bool) -> Seq<int> {
    let p = view.players@[side as int];
    let o = view.players@[next_seat(side, view.players@.len())];
    seq![
        trunc_div(p.life as int, 100),
        -(trunc_div(o.life as int, 100) * 2),
        (p.shards as i32) as int,
        -((o.shards as i32) as int),
        trunc_div(sum_i32(p.hand_scores@), 2),
        sum_i32(field_scores(p.field@)),
        p.abilities_score as int,
        -trunc_div(sum_i32(o.hand_scores@), 2),
        -sum_i32(field_scores(o.field@)),
        -(o.abilities_score as int),
        if low_life { -100 } else { 0 },
        match view.endgame {
            Endgame::Finished { winner: Some(w) } => if w == side { 1000int } else { -1000int },
            Endgame::Finished { winner: None } => -500int,
            Endgame::Running => 0int,
        },
    ]
}

pub open spec fn sum_int(s: Seq<int>) -> int
    decreases s.len(),
{
    if s.len() == 0 {
        0
    } else {
        sum_int(s.drop_last()) + s.last()
    }
}

/// The bot's valuation of the position for `side`: life, shards, cards in
/// hand and on the field and abilities of both players, a penalty when the
/// side is low on life (`low_life`), and the result if the game is over.
pub open spec fn score_value(view: GameView, side: u8, low_life: bool) -> int {
    sum_int(score_terms(view, side, low_life))
}

/// Whether computing the score in 32-bit arithmetic, in the order above,
/// never overflows.
pub open spec fn score_fits(view: GameView, side: u8, low_life: bool) -> bool {
    let p = view.players@[side as int];
    let o = view.players@[next_seat(side, view.players@.len())];
    &&& sum_fits(p.hand_scores@)
    &&& sum_fits(o.hand_scores@)
    &&& sum_fits(field_scores(p.field@))
    &&& sum_fits(field_scores(o.field@))
    &&& forall|k: int|
        0 <= k <= 12 ==> i32::MIN <= #[trigger] sum_int(score_terms(view, side, low_life).take(k)) <= i32::MAX
}

proof fn lemma_take_step_i32(s: Seq<i32>, k: int)
    requires
        0 <= k < s.len(),
    ensures
        sum_i32(s.take(k + 1)) == sum_i32(s.take(k)) + s[k],
{
    assert(s.take(k + 1).drop_last() =~= s.take(k));
}

proof fn lemma_take_step_int(s: Seq<int>, k: int)
    requires
        0 <= k < s.len(),
    ensures
        sum_int(s.take(k + 1)) == sum_int(s.take(k)) + s[k],
{
    assert(s.take(k + 1).drop_last() =~= s.take(k));
}

fn sum_scores(s: &Vec<i32>) -> (res: i32)
    requires
        sum_fits(s@),
    ensures
        res == sum_i32(s@),
{
    let mut acc: i32 = 0;
    let mut i: usize = 0;
    assert(s@.take(0) =~= Seq::<i32>::empty());
    while i < s.len()
        invariant
            i <= s.len(),
            sum_fits(s@),
            acc == sum_i32(s@.take(i as int)),
        decreases s.len() - i,
    {
        proof {
            lemma_take_step_i32(s@, i as int);
            assert(i32::MIN <= sum_i32(s@.take(i + 1)) <= i32::MAX);
        }
        acc = acc + s[i];
        i += 1;
    }
    assert(s@.take(i as int) =~= s@);
    acc
}

fn sum_field_scores(f: &Vec<FieldCard>) -> (res: i32)
    requires
        sum_fits(field_scores(f@)),
    ensures
        res == sum_i32(field_scores(f@)),
{
    let mut acc: i32 = 0;
    let mut i: usize = 0;
    let ghost s = field_scores(f@);
    assert(s.take(0) =~= Seq::<i32>::empty());
    while i < f.len()
        invariant
            i <= f.len(),
            s == field_scores(f@),
            sum_fits(s),
            acc == sum_i32(s.take(i as int)),
        decreases f.len() - i,
    {
        proof {
            lemma_take_step_i32(s, i as int);
            assert(i32::MIN <= sum_i32(s.take(i + 1)) <= i32::MAX);
        }
        acc = acc + f[i].score;
        i += 1;
    }
    assert(s.take(i as int) =~= s);
    acc
}

/// The bot's valuation of the position for `side` (see [`score_value`]).
/// `low_life` tells whether the side's life is below a fifth of the
/// starting life, as the engine's single-precision comparison
/// `(life as f32) < initial_life as f32 * 0.2` finds it.
pub fn get_score(view: &GameView, side: u8, low_life: bool) -> (res: i32)
    requires
        (side as int) < view.players@.len(),
        score_fits(*view, side, low_life),
    ensures
        res == score_value(*view, side, low_life),
{
    let player = &view.players[side as usize];
    let opponent = match view.next_player(side) {
        Some(o) => o,
        None => player,
    };
    let ghost t = score_terms(*view, side, low_life);
    let hp = sum_scores(&player.hand_scores);
    let ho = sum_scores(&opponent.hand_scores);
    let fp = sum_field_scores(&player.field);
    let fo = sum_field_scores(&opponent.field);
    let mut score: i32 = 0;
    proof {
        assert(t.take(0) =~= Seq::<int>::empty());
        lemma_take_step_int(t, 0);
        lemma_take_step_int(t, 1);
        lemma_take_step_int(t, 2);
        lemma_take_step_int(t, 3);
        lemma_take_step_int(t, 4);
        lemma_take_step_int(t, 5);
        lemma_take_step_int(t, 6);
        lemma_take_step_int(t, 7);
        lemma_take_step_int(t, 8);
        lemma_take_step_int(t, 9);
        lemma_take_step_int(t, 10);
        lemma_take_step_int(t, 11);
        assert(i32::MIN <= sum_int(t.take(1)) <= i32::MAX);
        assert(i32::MIN <= sum_int(t.take(2)) <= i32::MAX);
        assert(i32::MIN <= sum_int(t.take(3)) <= i32::MAX);
        assert(i32::MIN <= sum_int(t.take(4)) <= i32::MAX);
        assert(i32::MIN <= sum_int(t.take(5)) <= i32::MAX);
        assert(i32::MIN <= sum_int(t.take(6)) <= i32::MAX);
        assert(i32::MIN <= sum_int(t.take(7)) <= i32::MAX);
        assert(i32::MIN <= sum_int(t.take(8)) <= i32::MAX);
        assert(i32::MIN <= sum_int(t.take(9)) <= i32::MAX);
        assert(i32::MIN <= sum_int(t.take(10)) <= i32::MAX);
        assert(i32::MIN <= sum_int(t.take(11)) <= i32::MAX);
        assert(i32::MIN <= sum_int(t.take(12)) <= i32::MAX);
        assert(t.take(12) =~= t);
    }
    let pl = player.life / 100;
    let ol = opponent.life / 100;
    assert(pl == trunc_div(player.life as int, 100) && pl == t[0]);
    assert(ol == trunc_div(opponent.life as int, 100) && -(ol * 2) == t[1]);
    assert(sum_int(t.take(1)) == t[0]);
    score = score + pl;
    assert(score == sum_int(t.take(1)));
    score = score - ol * 2;
    assert(score == sum_int(t.take(2)));
    let ps: i32 = #[verifier::truncate] (player.shards as i32);
    let os: i32 = #[verifier::truncate] (opponent.shards as i32);
    assert(ps == t[2] && -os == t[3]);
    score = score + ps;
    assert(score == sum_int(t.take(3)));
    score = score - os;
    assert(score == sum_int(t.take(4)));
    score = score + hp / 2;
    assert(score == sum_int(t.take(5)));
    score = score + fp;
    assert(score == sum_int(t.take(6)));
    score = score + player.abilities_score;
    assert(score == sum_int(t.take(7)));
    score = score - ho / 2;
    assert(score == sum_int(t.take(8)));
    score = score - fo;
    assert(score == sum_int(t.take(9)));
    score = score - opponent.abilities_score;
    assert(score == sum_int(t.take(10)));
    if low_life {
        score = score - 100;
    }
    assert(score == sum_int(t.take(11)));
    let bonus: i32 = match view.endgame {
        Endgame::Finished { winner: Some(w) } => if w == side { 1000 } else { -1000 },
        Endgame::Finished { winner: None } => -500,
        Endgame::Running => 0,
    };
    score = score + bonus;
    assert(score == sum_int(t.take(12)));
    score
}

/// Whether `a` and `b` are the same side of the board but for their life.
pub open spec fn same_but_life(a: PlayerView, b: PlayerView) -> bool {
    &&& a.hand@ == b.hand@
    &&& a.shards == b.shards
    &&& a.hand_scores@ == b.hand_scores@
    &&& a.field@ == b.field@
    &&& a.abilities_score == b.abilities_score
}

proof fn lemma_trunc_div_monotone(x: int, y: int)
    requires
        x <= y,
    ensures
        trunc_div(x, 100) <= trunc_div(y, 100),
{
    if 0 <= x {
        vstd::arithmetic::div_mod::lemma_div_is_ordered(x, y, 100);
    } else if y < 0 {
        vstd::arithmetic::div_mod::lemma_div_is_ordered(-y, -x, 100);
    } else {
        vstd::arithmetic::div_mod::lemma_div_pos_is_pos(y, 100);
        vstd::arithmetic::div_mod::lemma_div_pos_is_pos(-x, 100);
    }
}

proof fn lemma_sum_int_12(t: Seq<int>)
    requires
        t.len() == 12,
    ensures
        sum_int(t) == t[0] + t[1] + t[2] + t[3] + t[4] + t[5] + t[6] + t[7] + t[8] + t[9] + t[10] + t[11],
{
    reveal_with_fuel(sum_int, 13);
}

/// More life for the scoring side never lowers its score: two positions that
/// differ only in that side's life, the second with at least as much, score
/// the second at least as high. The low-life flag, a comparison of the life
/// with a fixed bound, cannot be set for the larger life and clear for the
/// smaller one.
pub proof fn lemma_score_monotone_in_own_life(v1: GameView, v2: GameView, side: u8, low1: bool, low2: bool)
    requires
        v1.players@.len() == v2.players@.len(),
        v1.players@.len() >= 2,
        (side as int) < v1.players@.len(),
        same_but_life(v1.players@[side as int], v2.players@[side as int]),
        v1.players@[side as int].life <= v2.players@[side as int].life,
        v1.players@[next_seat(side, v1.players@.len())] == v2.players@[next_seat(side, v2.players@.len())],
        v1.endgame == v2.endgame,
        low2 ==> low1,
    ensures
        score_value(v1, side, low1) <= score_value(v2, side, low2),
{
    let t1 = score_terms(v1, side, low1);
    let t2 = score_terms(v2, side, low2);
    lemma_sum_int_12(t1);
    lemma_sum_int_12(t2);
    lemma_trunc_div_monotone(v1.players@[side as int].life as int, v2.players@[side as int].life as int);
    assert(field_scores(v1.players@[side as int].field@) =~= field_scores(v2.players@[side as int].field@));
}

/// More life for the opponent never raises the score: two positions that
/// differ only in the opponent's life, the second with at least as much,
/// score the second no higher.
pub proof fn lemma_score_antitone_in_opponent_life(v1: GameView, v2: GameView, side: u8, low_life: bool)
    requires
        v1.players@.len() == v2.players@.len(),
        v1.players@.len() >= 2,
        (side as int) < v1.players@.len(),
        v1.players@[side as int] == v2.players@[side as int],
        same_but_life(
            v1.players@[next_seat(side, v1.players@.len())],
            v2.players@[next_seat(side, v2.players@.len())],
        ),
        v1.players@[next_seat(side, v1.players@.len())].life <= v2.players@[next_seat(
            side,
            v2.players@.len(),
        )].life,
        v1.endgame == v2.endgame,
    ensures
        score_value(v2, side, low_life) <= score_value(v1, side, low_life),
{
    let n = v1.players@.len();
    let t1 = score_terms(v1, side, low_life);
    let t2 = score_terms(v2, side, low_life);
    lemma_sum_int_12(t1);
    lemma_sum_int_12(t2);
    lemma_trunc_div_monotone(
        v1.players@[next_seat(side, n)].life as int,
        v2.players@[next_seat(side, n)].life as int,
    );
    assert(field_scores(v1.players@[next_seat(side, n)].field@) =~= field_scores(
        v2.players@[next_seat(side, n)].field@,
    ));
}

} // verus!
