use vstd::prelude::*;
use crate::packed_actions::{Action, ActionQueue, SubAction};

verus! {

/// Result of a finished game, from the mover's point of view.
#[derive(Debug, PartialEq, Eq, Copy, Clone)]
pub enum Outcome {
    P1win,
    P2win,
    Tie,
}

/// The board: slots 0 to 5 are the mover's houses, 6 the mover's store,
/// 7 to 12 the opponent's houses and 13 the opponent's store.
#[derive(Debug, Eq, PartialEq, Hash, Copy, Clone)]
pub struct GameState {
    pub houses: [u8; 14],
}

impl View for GameState {
    type V = Seq<nat>;

    /// The seed count of each of the fourteen slots.
    open spec fn view(&self) -> Seq<nat> {
        Seq::new(14, |i: int| self.houses@[i] as nat)
    }
}

/// The board at the start of a game with `n` seeds in every house.
pub open spec fn initial_board(n: nat) -> Seq<nat> {
    Seq::new(14, |i: int| if i == 6 || i == 13 { 0 } else { n })
}

/// Seeds in the mover's houses.
pub open spec fn mover_seeds(h: Seq<nat>) -> nat {
    h[0] + h[1] + h[2] + h[3] + h[4] + h[5]
}

/// Seeds in the opponent's houses.
pub open spec fn opponent_seeds(h: Seq<nat>) -> nat {
    h[7] + h[8] + h[9] + h[10] + h[11] + h[12]
}

/// Seeds on the whole board, stores included.
pub open spec fn total_seeds(h: Seq<nat>) -> nat {
    mover_seeds(h) + h[6] + opponent_seeds(h) + h[13]
}

/// The game is over once either side's houses are all empty.
pub open spec fn ended(h: Seq<nat>) -> bool {
    mover_seeds(h) == 0 || opponent_seeds(h) == 0
}

/// Who wins an ended game once each side's houses count for its own store.
pub open spec fn outcome(h: Seq<nat>) -> Option<Outcome> {
    if !ended(h) {
        None
    } else {
        let mover = mover_seeds(h) + h[6];
        let opponent = opponent_seeds(h) + h[13];
        if mover > opponent {
            Some(Outcome::P1win)
        } else if opponent > mover {
            Some(Outcome::P2win)
        } else {
            Some(Outcome::Tie)
        }
    }
}

/// The mover's houses emptied into the mover's store.
pub open spec fn sweep_mover(h: Seq<nat>) -> Seq<nat> {
    Seq::new(
        14,
        |i: int|
            if 0 <= i < 6 {
                0
            } else if i == 6 {
                h[6] + mover_seeds(h)
            } else {
                h[i]
            },
    )
}

/// The opponent's houses emptied into the opponent's store.
pub open spec fn sweep_opponent(h: Seq<nat>) -> Seq<nat> {
    Seq::new(
        14,
        |i: int|
            if 7 <= i < 13 {
                0
            } else if i == 13 {
                h[13] + opponent_seeds(h)
            } else {
                h[i]
            },
    )
}

/// The board after the remaining seeds are swept: when the opponent's side is
/// empty the mover's houses go to the mover's store, otherwise the opponent's
/// houses go to the opponent's store.
pub open spec fn finalized(h: Seq<nat>) -> Seq<nat> {
    if opponent_seeds(h) == 0 {
        sweep_mover(h)
    } else {
        sweep_opponent(h)
    }
}

/// The board seen from the other player: the two halves exchanged.
pub open spec fn swapped(h: Seq<nat>) -> Seq<nat> {
    Seq::new(14, |i: int| if i < 7 { h[i + 7] } else { h[i - 7] })
}

/// The slot after `p` in sowing order; the opponent's store is skipped.
pub open spec fn next_slot(p: int) -> int {
    if p >= 12 {
        0
    } else {
        p + 1
    }
}

/// One seed into each of the `n` slots that follow `p` in sowing order.
pub open spec fn sow(h: Seq<nat>, p: int, n: nat) -> Seq<nat>
    decreases n,
{
    if n == 0 {
        h
    } else {
        let q = next_slot(p);
        sow(h.update(q, h[q] + 1), q, (n - 1) as nat)
    }
}

/// Whether playing house `a` ends in the mover's store, granting another move.
pub open spec fn renewing(h: Seq<nat>, a: int) -> bool {
    h[a] + a == 6
}

/// The board after the mover plays house `a`: its seeds are sown, and when
/// the last one lands in an empty house of the mover without passing the
/// store, that seed and the opposite house's seeds go to the mover's store.
#[verifier::opaque]
pub open spec fn apply_sub(h: Seq<nat>, a: int) -> Seq<nat> {
    let s = h[a];
    let sown = sow(h.update(a, 0), a, s);
    let e = a + s;
    if e <= 5 && sown[e] == 1 {
        let o = 12 - e;
        sown.update(6, sown[6] + 1 + sown[o]).update(e, 0).update(o, 0)
    } else {
        sown
    }
}

/// Whether house `a` can be played: it is one of the mover's and holds seeds.
pub open spec fn playable(h: Seq<nat>, a: int) -> bool {
    0 <= a < 6 && h[a] > 0
}

/// Whether every sub-move of `xs`, played in order, is playable when its turn comes.
pub open spec fn legal_moves(h: Seq<nat>, xs: Seq<int>) -> bool
    decreases xs.len(),
{
    xs.len() == 0 || (playable(h, xs[0]) && legal_moves(apply_sub(h, xs[0]), xs.drop_first()))
}

/// The board after playing the sub-moves of `xs` in order.
pub open spec fn apply_moves(h: Seq<nat>, xs: Seq<int>) -> Seq<nat>
    decreases xs.len(),
{
    if xs.len() == 0 {
        h
    } else {
        apply_moves(apply_sub(h, xs[0]), xs.drop_first())
    }
}

/// No house in `lo .. hi` holds seeds.
pub open spec fn no_move_between(h: Seq<nat>, lo: int, hi: int) -> bool {
    forall|j: int| lo <= j < hi ==> h[j] == 0
}

/// Sowing adds one seed per step and never reaches the opponent's store.
pub proof fn lemma_sow_total(h: Seq<nat>, p: int, n: nat)
    requires
        h.len() == 14,
        0 <= p <= 12,
    ensures
        sow(h, p, n).len() == 14,
        total_seeds(sow(h, p, n)) == total_seeds(h) + n,
        sow(h, p, n)[13] == h[13],
    decreases n,
{
    if n > 0 {
        let q = next_slot(p);
        let h1 = h.update(q, h[q] + 1);
        assert(total_seeds(h1) == total_seeds(h) + 1);
        lemma_sow_total(h1, q, (n - 1) as nat);
    }
}

proof fn lemma_update_total(h: Seq<nat>, j: int, x: nat)
    requires
        h.len() == 14,
        0 <= j < 14,
    ensures
        total_seeds(h.update(j, x)) + h[j] == total_seeds(h) + x,
{
}

/// A slot never holds more than the whole board.
proof fn lemma_slot_le_total(h: Seq<nat>, j: int)
    requires
        h.len() == 14,
        0 <= j < 14,
    ensures
        h[j] <= total_seeds(h),
{
    lemma_update_total(h, j, 0);
}

/// Seed conservation for one sub-move.
#[verifier::rlimit(40)]
pub proof fn lemma_apply_sub_total(h: Seq<nat>, a: int)
    requires
        h.len() == 14,
        0 <= a < 6,
    ensures
        apply_sub(h, a).len() == 14,
        total_seeds(apply_sub(h, a)) == total_seeds(h),
{
    reveal(apply_sub);
    let h0 = h.update(a, 0);
    lemma_update_total(h, a, 0);
    lemma_sow_total(h0, a, h[a]);
    let sown = sow(h0, a, h[a]);
    let e = a + h[a];
    if e <= 5 && sown[e] == 1 {
        let o = 12 - e;
        let c1 = sown.update(6, sown[6] + 1 + sown[o]);
        lemma_update_total(sown, 6, sown[6] + 1 + sown[o]);
        let c2 = c1.update(e, 0);
        lemma_update_total(c1, e, 0);
        lemma_update_total(c2, o, 0);
        assert(apply_sub(h, a) == c2.update(o, 0));
    }
}

/// Seed conservation for a sequence of sub-moves.
pub proof fn lemma_apply_moves_total(h: Seq<nat>, xs: Seq<int>)
    requires
        h.len() == 14,
        legal_moves(h, xs),
    ensures
        apply_moves(h, xs).len() == 14,
        total_seeds(apply_moves(h, xs)) == total_seeds(h),
    decreases xs.len(),
{
    if xs.len() > 0 {
        lemma_apply_sub_total(h, xs[0]);
        lemma_apply_moves_total(apply_sub(h, xs[0]), xs.drop_first());
    }
}

/// Sowing that does not pass slot 12 adds one seed to each of the next `n` slots.
proof fn lemma_sow_straight(h: Seq<nat>, p: int, n: nat)
    requires
        h.len() == 14,
        0 <= p,
        p + n <= 12,
    ensures
        sow(h, p, n) == Seq::new(14, |i: int| if p < i <= p + n { h[i] + 1 } else { h[i] }),
    decreases n,
{
    if n > 0 {
        let h1 = h.update(p + 1, h[p + 1] + 1);
        lemma_sow_straight(h1, p + 1, (n - 1) as nat);
        assert(sow(h, p, n) =~= Seq::new(
            14,
            |i: int| if p < i <= p + n { h[i] + 1 } else { h[i] },
        ));
    } else {
        assert(sow(h, p, n) =~= Seq::new(
            14,
            |i: int| if p < i <= p + n { h[i] + 1 } else { h[i] },
        ));
    }
}

/// A renewing move leaves the mover's houses with one seed fewer: the last
/// seed went to the store.
pub proof fn lemma_renewing_mover_seeds(h: Seq<nat>, a: int)
    requires
        h.len() == 14,
        playable(h, a),
        renewing(h, a),
    ensures
        mover_seeds(apply_sub(h, a)) + 1 == mover_seeds(h),
        total_seeds(apply_sub(h, a)) == total_seeds(h),
        apply_sub(h, a) == sow(h.update(a, 0), a, h[a]),
{
    reveal(apply_sub);
    let h0 = h.update(a, 0);
    lemma_sow_straight(h0, a, h[a]);
    lemma_apply_sub_total(h, a);
}

/// Whether playing house `a` earns another move that the mover can make.
pub open spec fn continues(h: Seq<nat>, a: int) -> bool {
    renewing(h, a) && !no_move_between(apply_sub(h, a), 0, 6)
}

/// Each sequence of `ts` with `q` put in front.
pub open spec fn prefixed(ts: Seq<Seq<int>>, q: Seq<int>) -> Seq<Seq<int>> {
    ts.map_values(|t: Seq<int>| q + t)
}

/// Every complete turn from `h` whose first sub-move is a house in
/// `start .. 6`: ascending by first house, and for each first house that
/// earns another move, the turns that follow it in the same order.
#[verifier::opaque]
pub open spec fn turns_from(h: Seq<nat>, start: int) -> Seq<Seq<int>>
    decreases mover_seeds(h), 6 - start,
{
    if h.len() != 14 || start < 0 || start >= 6 {
        Seq::empty()
    } else if h[start] == 0 {
        turns_from(h, start + 1)
    } else if continues(h, start) {
        proof {
            lemma_renewing_mover_seeds(h, start);
        }
        prefixed(turns_from(apply_sub(h, start), 0), seq![start]) + turns_from(h, start + 1)
    } else {
        seq![seq![start]] + turns_from(h, start + 1)
    }
}

/// Every complete turn from `h`; none once the game has ended.
pub open spec fn turns(h: Seq<nat>) -> Seq<Seq<int>> {
    if ended(h) {
        Seq::empty()
    } else {
        turns_from(h, 0)
    }
}

/// Whether `t` is one complete turn from `h`: each sub-move is playable,
/// every one but the last earns another move, and the last does not (or
/// leaves the mover nothing to play).
pub open spec fn is_turn(h: Seq<nat>, t: Seq<int>) -> bool
    decreases t.len(),
{
    &&& t.len() > 0
    &&& playable(h, t[0])
    &&& if t.len() == 1 {
        !continues(h, t[0])
    } else {
        continues(h, t[0]) && is_turn(apply_sub(h, t[0]), t.drop_first())
    }
}

/// A turn that fits the packed encoding.
pub open spec fn fits_packed(t: Seq<int>) -> bool {
    t.len() <= crate::packed_actions::MAX_LEN
}

/// Every turn from `h` fits the packed encoding.
pub open spec fn turns_fit(h: Seq<nat>) -> bool {
    forall|i: int| 0 <= i < turns(h).len() ==> fits_packed(#[trigger] turns(h)[i])
}

proof fn lemma_prefixed_concat(a: Seq<Seq<int>>, b: Seq<Seq<int>>, q: Seq<int>)
    ensures
        prefixed(a + b, q) == prefixed(a, q) + prefixed(b, q),
{
    assert(prefixed(a + b, q) =~= prefixed(a, q) + prefixed(b, q));
}

proof fn lemma_prefixed_prefixed(ts: Seq<Seq<int>>, x: int, q: Seq<int>)
    ensures
        prefixed(prefixed(ts, seq![x]), q) == prefixed(ts, q.push(x)),
{
    assert forall|i: int| 0 <= i < ts.len() implies prefixed(prefixed(ts, seq![x]), q)[i]
        == prefixed(ts, q.push(x))[i] by {
        assert(q + (seq![x] + ts[i]) =~= q.push(x) + ts[i]);
    }
    assert(prefixed(prefixed(ts, seq![x]), q) =~= prefixed(ts, q.push(x)));
}

/// Houses without seeds before the next playable one add no turns.
proof fn lemma_turns_from_skip(h: Seq<nat>, start: int, y: int)
    requires
        h.len() == 14,
        0 <= start <= y,
        no_move_between(h, start, y),
    ensures
        turns_from(h, start) == turns_from(h, y),
    decreases y - start,
{
    reveal(turns_from);
    if start < y {
        lemma_turns_from_skip(h, start + 1, y);
    }
}

/// Every turn from `h` starting at `start` or later is a complete turn.
proof fn lemma_turns_from_are_turns(h: Seq<nat>, start: int)
    requires
        h.len() == 14,
    ensures
        forall|i: int|
            0 <= i < turns_from(h, start).len() ==> is_turn(h, #[trigger] turns_from(h, start)[i]),
    decreases mover_seeds(h), 6 - start,
{
    reveal(turns_from);
    if 0 <= start < 6 {
        lemma_turns_from_are_turns(h, start + 1);
        let rest = turns_from(h, start + 1);
        if h[start] > 0 {
            let first = if continues(h, start) {
                let c = apply_sub(h, start);
                lemma_renewing_mover_seeds(h, start);
                lemma_apply_sub_total(h, start);
                lemma_turns_from_are_turns(c, 0);
                let inner = turns_from(c, 0);
                assert forall|i: int| 0 <= i < inner.len() implies is_turn(
                    h,
                    #[trigger] prefixed(inner, seq![start])[i],
                ) by {
                    let t = prefixed(inner, seq![start])[i];
                    assert(is_turn(c, inner[i]));
                    assert(t.drop_first() =~= inner[i]);
                }
                prefixed(inner, seq![start])
            } else {
                assert(is_turn(h, seq![start]));
                seq![seq![start]]
            };
            assert(turns_from(h, start) == first + rest);
            assert forall|i: int| 0 <= i < turns_from(h, start).len() implies is_turn(
                h,
                #[trigger] turns_from(h, start)[i],
            ) by {
                if i < first.len() {
                    assert(turns_from(h, start)[i] == first[i]);
                } else {
                    assert(turns_from(h, start)[i] == rest[i - first.len()]);
                }
            }
        }
    }
}

/// From a board where the mover can play a house in `start .. 6`, some turn exists.
proof fn lemma_turns_from_nonempty(h: Seq<nat>, start: int)
    requires
        h.len() == 14,
        0 <= start < 6,
        !no_move_between(h, start, 6),
    ensures
        turns_from(h, start).len() > 0,
    decreases mover_seeds(h), 6 - start,
{
    reveal(turns_from);
    if h[start] == 0 {
        lemma_turns_from_nonempty(h, start + 1);
    } else if continues(h, start) {
        lemma_renewing_mover_seeds(h, start);
        lemma_apply_sub_total(h, start);
        lemma_turns_from_nonempty(apply_sub(h, start), 0);
    }
}

impl GameState {
    /// A new board with `starting_seeds` seeds in every house and empty stores.
    pub fn new(starting_seeds: u8) -> (r: GameState)
        ensures
            r@ == initial_board(starting_seeds as nat),
    {
        let s = starting_seeds;
        let r = GameState { houses: [s, s, s, s, s, s, 0, s, s, s, s, s, s, 0] };
        assert(r@ =~= initial_board(starting_seeds as nat));
        r
    }

    /// Whether one side's houses are all empty.
    pub fn is_ended(&self) -> (r: bool)
        ensures
            r == ended(self@),
    {
        let h = &self.houses;
        let mover_tot: u32 = h[0] as u32 + h[1] as u32 + h[2] as u32 + h[3] as u32 + h[4] as u32
            + h[5] as u32;
        let opponent_tot: u32 = h[7] as u32 + h[8] as u32 + h[9] as u32 + h[10] as u32 + h[11] as u32
            + h[12] as u32;
        mover_tot == 0 || opponent_tot == 0
    }

    /// The outcome of an ended game, counting each side's houses for its own
    /// store; `None` while the game goes on.
    pub fn is_won(&self) -> (r: Option<Outcome>)
        ensures
            r == outcome(self@),
    {
        let h = &self.houses;
        let mover_tot: u32 = h[0] as u32 + h[1] as u32 + h[2] as u32 + h[3] as u32 + h[4] as u32
            + h[5] as u32;
        let opponent_tot: u32 = h[7] as u32 + h[8] as u32 + h[9] as u32 + h[10] as u32 + h[11] as u32
            + h[12] as u32;
        if mover_tot != 0 && opponent_tot != 0 {
            return None;
        }
        let mover_tot = mover_tot + h[6] as u32;
        let opponent_tot = opponent_tot + h[13] as u32;
        if mover_tot > opponent_tot {
            Some(Outcome::P1win)
        } else if opponent_tot > mover_tot {
            Some(Outcome::P2win)
        } else {
            Some(Outcome::Tie)
        }
    }
    /// Empties the houses `lo .. hi`.
    fn clear_houses(&mut self, lo: usize, hi: usize)
        requires
            lo <= hi <= 14,
        ensures
            final(self)@ == Seq::new(
                14,
                |j: int|
                    if lo <= j < hi {
                        0nat
                    } else {
                        old(self)@[j]
                    },
            ),
    {
        let ghost h0 = self@;
        let mut i: usize = lo;
        while i < hi
            invariant
                lo <= i <= hi,
                hi <= 14,
                forall|j: int|
                    0 <= j < 14 ==> #[trigger] self@[j] == if lo <= j < i {
                        0nat
                    } else {
                        h0[j]
                    },
            decreases hi - i,
        {
            let ghost prev = self@;
            self.houses[i] = 0;
            assert(self@ =~= prev.update(i as int, 0));
            i = i + 1;
        }
        assert(self@ =~= Seq::new(14, |j: int| if lo <= j < hi { 0nat } else { h0[j] }));
    }

    /// Sweeps the remaining seeds into a store: the mover's houses into the
    /// mover's store when the opponent's side is empty, otherwise the
    /// opponent's houses into the opponent's store. On an ended board a
    /// second call changes nothing.
    pub fn finalize_game(&mut self)
        requires
            total_seeds(old(self)@) <= 255,
        ensures
            final(self)@ == finalized(old(self)@),
    {
        let ghost h0 = self@;
        let h = self.houses;
        let opponent_tot: u32 = h[7] as u32 + h[8] as u32 + h[9] as u32 + h[10] as u32 + h[11] as u32
            + h[12] as u32;
        if opponent_tot == 0 {
            let mover_tot: u8 = h[0] + h[1] + h[2] + h[3] + h[4] + h[5];
            self.houses[6] = h[6] + mover_tot;
            self.clear_houses(0, 6);
            assert(self@ =~= sweep_mover(h0));
        } else {
            let moved: u8 = h[7] + h[8] + h[9] + h[10] + h[11] + h[12];
            self.houses[13] = h[13] + moved;
            self.clear_houses(7, 13);
            assert(self@ =~= sweep_opponent(h0));
        }
    }

    /// Sows `seeds` seeds one by one into the slots after `start`.
    fn sow_from(&mut self, start: usize, seeds: u8)
        requires
            start <= 12,
            total_seeds(old(self)@) + seeds <= 255,
        ensures
            final(self)@ == sow(old(self)@, start as int, seeds as nat),
            total_seeds(final(self)@) == total_seeds(old(self)@) + seeds,
    {
        let ghost h0 = self@;
        let mut pos: usize = start;
        let mut k: u8 = 0;
        while k < seeds
            invariant
                pos <= 12,
                k <= seeds,
                total_seeds(h0) + seeds <= 255,
                total_seeds(self@) == total_seeds(h0) + k,
                sow(self@, pos as int, (seeds - k) as nat) == sow(h0, start as int, seeds as nat),
            decreases seeds - k,
        {
            let ghost prev = self@;
            pos = if pos >= 12 {
                0
            } else {
                pos + 1
            };
            proof {
                lemma_slot_le_total(prev, pos as int);
                lemma_update_total(prev, pos as int, prev[pos as int] + 1);
            }
            let v = self.houses[pos];
            self.houses[pos] = v + 1;
            k = k + 1;
            assert(self@ =~= prev.update(pos as int, prev[pos as int] + 1));
        }
    }

    /// Moves the seed in house `end_house` and those of the opposite house
    /// into the mover's store.
    fn capture(&mut self, end_house: usize)
        requires
            end_house <= 5,
            total_seeds(old(self)@) <= 255,
        ensures
            final(self)@ == old(self)@.update(
                6,
                old(self)@[6] + old(self)@[end_house as int] + old(self)@[12 - end_house],
            ).update(end_house as int, 0).update(12 - end_house, 0),
    {
        let ghost h0 = self@;
        let opposing = 12 - end_house;
        proof {
            lemma_update_total(h0, 6, 0);
            lemma_update_total(h0.update(6, 0), opposing as int, 0);
            lemma_slot_le_total(h0.update(6, 0).update(opposing as int, 0), end_house as int);
        }
        self.houses[6] = self.houses[6] + self.houses[end_house] + self.houses[opposing];
        self.houses[end_house] = 0;
        self.houses[opposing] = 0;
        assert(self@ =~= h0.update(6, h0[6] + h0[end_house as int] + h0[opposing as int]).update(
            end_house as int,
            0,
        ).update(opposing as int, 0));
    }

    /// Plays one sub-move: sows the seeds of house `subaction`, skipping the
    /// opponent's store, then applies the capture rule.
    pub fn evaluate_subaction(&mut self, subaction: SubAction)
        requires
            subaction <= 5,
            total_seeds(old(self)@) <= 255,
        ensures
            final(self)@ == apply_sub(old(self)@, subaction as int),
            total_seeds(final(self)@) == total_seeds(old(self)@),
    {
        let ghost h0 = self@;
        let action = subaction as usize;
        let seeds = self.houses[action];
        self.houses[action] = 0;
        proof {
            assert(self@ =~= h0.update(action as int, 0));
            lemma_update_total(h0, action as int, 0);
        }
        self.sow_from(action, seeds);
        let end_house = action + seeds as usize;
        if end_house <= 5 && self.houses[end_house] == 1 {
            self.capture(end_house);
        }
        proof {
            reveal(apply_sub);
            lemma_apply_sub_total(h0, action as int);
        }
    }

    /// Whether playing house `sub` ends in the mover's store.
    pub fn is_renewing_subaction(&self, sub: SubAction) -> (r: bool)
        requires
            sub <= 5,
        ensures
            r == renewing(self@, sub as int),
    {
        self.houses[sub as usize] as u16 + sub as u16 == 6
    }

    /// The first house at or after `search_start` that holds seeds.
    pub fn find_next_subaction(&self, search_start: SubAction) -> (r: Option<SubAction>)
        ensures
            match r {
                Some(i) => search_start <= i < 6 && self@[i as int] > 0 && no_move_between(
                    self@,
                    search_start as int,
                    i as int,
                ),
                None => no_move_between(self@, search_start as int, 6),
            },
    {
        let mut index: u8 = search_start;
        while index < 6
            invariant
                search_start <= index,
                no_move_between(self@, search_start as int, index as int),
            decreases 6 - index,
        {
            if self.houses[index as usize] > 0 {
                return Some(index);
            }
            index = index + 1;
        }
        None
    }

    /// Plays the sub-moves of `action_list` in order.
    pub fn evaluate_action(&mut self, action_list: Action)
        requires
            action_list.wf(),
            legal_moves(old(self)@, action_list.items()),
            total_seeds(old(self)@) <= 255,
        ensures
            final(self)@ == apply_moves(old(self)@, action_list.items()),
            total_seeds(final(self)@) == total_seeds(old(self)@),
    {
        let ghost h0 = self@;
        let mut list = action_list;
        while !list.is_empty()
            invariant
                list.wf(),
                legal_moves(self@, list.items()),
                total_seeds(self@) == total_seeds(h0),
                total_seeds(h0) <= 255,
                apply_moves(self@, list.items()) == apply_moves(h0, action_list.items()),
            decreases list.items().len(),
        {
            let sub = list.pop_front();
            self.evaluate_subaction(sub);
        }
    }

    /// The board that playing `action_list` leads to; `self` is unchanged.
    pub fn evaluate_to_new_state(&self, action_list: Action) -> (r: GameState)
        requires
            action_list.wf(),
            legal_moves(self@, action_list.items()),
            total_seeds(self@) <= 255,
        ensures
            r@ == apply_moves(self@, action_list.items()),
    {
        let mut new_state = *self;
        new_state.evaluate_action(action_list);
        new_state
    }

    /// Enumerates every complete turn from this board.
    pub fn gen_actions(&self) -> (r: ActionIter)
        requires
            total_seeds(self@) <= 255,
            turns_fit(self@),
        ensures
            r.inv(),
            r.base() == self@,
            r.pending() == turns(self@),
    {
        let r = ActionIter {
            action: Action::new(),
            base_state: *self,
            state_stack: Vec::new(),
            finished: false,
        };
        proof {
            reveal(chain_valid);
            lemma_turns_from_are_turns(self@, 0);
            assert(r.pending() == turns(self@));
        }
        r
    }

    /// Every complete turn from this board, in enumeration order, with the
    /// board it leads to.
    pub fn candidates(&self) -> (r: Vec<(Action, GameState)>)
        requires
            total_seeds(self@) <= 255,
            turns_fit(self@),
        ensures
            r@.len() == turns(self@).len(),
            forall|i: int|
                0 <= i < r@.len() ==> {
                    &&& (#[trigger] r@[i]).0.wf()
                    &&& r@[i].0.items() == turns(self@)[i]
                    &&& r@[i].1@ == apply_moves(self@, turns(self@)[i])
                },
    {
        let ghost all = turns(self@);
        let mut it = self.gen_actions();
        let mut out: Vec<(Action, GameState)> = Vec::new();
        loop
            invariant
                it.inv(),
                it.base() == self@,
                total_seeds(self@) <= 255,
                all == turns(self@),
                out@.len() + it.pending().len() == all.len(),
                forall|i: int|
                    0 <= i < it.pending().len() ==> #[trigger] it.pending()[i] == all[out@.len()
                        + i],
                forall|i: int|
                    0 <= i < out@.len() ==> {
                        &&& (#[trigger] out@[i]).0.wf()
                        &&& out@[i].0.items() == all[i]
                        &&& out@[i].1@ == apply_moves(self@, all[i])
                    },
            ensures
                out@.len() == all.len(),
                forall|i: int|
                    0 <= i < out@.len() ==> {
                        &&& (#[trigger] out@[i]).0.wf()
                        &&& out@[i].0.items() == all[i]
                        &&& out@[i].1@ == apply_moves(self@, all[i])
                    },
            decreases it.pending().len(),
        {
            let ghost before = it.pending();
            match it.next() {
                Some(a) => {
                    proof {
                        lemma_turn_is_legal(self@, a.items());
                        assert(before[0] == a.items());
                        assert forall|i: int| 0 <= i < it.pending().len() implies #[trigger] it.pending()[i]
                            == all[out@.len() + 1 + i] by {
                            assert(it.pending()[i] == before[i + 1]);
                        }
                    }
                    let s = self.evaluate_to_new_state(a);
                    out.push((a, s));
                },
                None => {
                    break;
                },
            }
        }
        out
    }

    /// Exchanges the two halves of the board, so that the other player becomes the mover.
    pub fn swap_board(&mut self)
        ensures
            final(self)@ == swapped(old(self)@),
    {
        let ghost h0 = self@;
        let mut i: usize = 0;
        while i < 7
            invariant
                i <= 7,
                forall|j: int| 0 <= j < i ==> #[trigger] self@[j] == h0[j + 7],
                forall|j: int| 7 <= j < 7 + i ==> #[trigger] self@[j] == h0[j - 7],
                forall|j: int| i <= j < 7 ==> #[trigger] self@[j] == h0[j],
                forall|j: int| 7 + i <= j < 14 ==> #[trigger] self@[j] == h0[j],
            decreases 7 - i,
        {
            let ghost prev = self@;
            let temp = self.houses[i];
            self.houses[i] = self.houses[i + 7];
            self.houses[i + 7] = temp;
            assert(self@ =~= prev.update(i as int, prev[i + 7]).update(i + 7, prev[i as int]));
            i = i + 1;
        }
        assert(self@ =~= swapped(h0));
    }
}

/// The board at depth `i` of a chain: the base board, or the one that the
/// `i`-th stacked state holds.
spec fn level_of(base: Seq<nat>, stack: Seq<GameState>, i: int) -> Seq<nat> {
    if i == 0 {
        base
    } else {
        stack[i - 1]@
    }
}

/// The turns that come after the first `k` sub-moves of `p`: at each depth,
/// the turns that begin with a later house there, deepest first.
#[verifier::opaque]
spec fn rest_at(base: Seq<nat>, stack: Seq<GameState>, p: Seq<int>, k: int) -> Seq<
    Seq<int>,
>
    decreases k,
{
    if k <= 0 {
        Seq::empty()
    } else {
        prefixed(turns_from(level_of(base, stack, k - 1), p[k - 1] + 1), p.take(k - 1))
            + rest_at(base, stack, p, k - 1)
    }
}

proof fn lemma_rest_at_agree(
    base: Seq<nat>,
    sa: Seq<GameState>,
    sb: Seq<GameState>,
    pa: Seq<int>,
    pb: Seq<int>,
    k: int,
)
    requires
        k <= pa.len(),
        k <= pb.len(),
        forall|i: int| 0 <= i < k - 1 ==> sa[i] == sb[i],
        forall|i: int| 0 <= i < k ==> pa[i] == pb[i],
    ensures
        rest_at(base, sa, pa, k) == rest_at(base, sb, pb, k),
    decreases k,
{
    reveal(rest_at);
    if k > 0 {
        lemma_rest_at_agree(base, sa, sb, pa, pb, k - 1);
        assert(pa.take(k - 1) =~= pb.take(k - 1));
        assert(level_of(base, sa, k - 1) == level_of(base, sb, k - 1));
    }
}

/// A complete turn is a legal sequence of sub-moves.
pub proof fn lemma_turn_is_legal(h: Seq<nat>, t: Seq<int>)
    requires
        is_turn(h, t),
    ensures
        legal_moves(h, t),
    decreases t.len(),
{
    if t.len() > 1 {
        lemma_turn_is_legal(apply_sub(h, t[0]), t.drop_first());
    } else {
        assert(t.drop_first().len() == 0);
        assert(legal_moves(apply_sub(h, t[0]), t.drop_first()));
    }
}

/// A chain that ends with house `x` at depth `q.len()` is handed out next.
proof fn lemma_descend_stop(base: Seq<nat>, st: Seq<GameState>, q: Seq<int>, x: int)
    requires
        st.len() == q.len(),
        level_of(base, st, q.len() as int).len() == 14,
        playable(level_of(base, st, q.len() as int), x),
        !continues(level_of(base, st, q.len() as int), x),
    ensures
        prefixed(turns_from(level_of(base, st, q.len() as int), x), q) + rest_at(
            base,
            st,
            q,
            q.len() as int,
        ) == seq![q.push(x)] + rest_at(base, st, q.push(x), q.len() + 1int),
{
    reveal(turns_from);
    reveal(rest_at);
    let j = q.len() as int;
    let s = level_of(base, st, j);
    let q1 = q.push(x);
    let later = turns_from(s, x + 1);
    lemma_rest_at_agree(base, st, st, q1, q, j);
    assert(q1.take(j) =~= q);
    assert(turns_from(s, x) == seq![seq![x]] + later);
    lemma_prefixed_concat(seq![seq![x]], later, q);
    assert(q + seq![x] =~= q1);
    assert(prefixed(seq![seq![x]], q) =~= seq![q1]);
    assert(seq![q1] + prefixed(later, q) + rest_at(base, st, q, j) =~= seq![q1] + (prefixed(
        later,
        q,
    ) + rest_at(base, st, q, j)));
}

/// A chain that goes on with house `x` at depth `q.len()` continues one level
/// down, from the first playable house `y` there.
proof fn lemma_descend_step(
    base: Seq<nat>,
    st: Seq<GameState>,
    q: Seq<int>,
    x: int,
    y: int,
    g: GameState,
)
    requires
        st.len() == q.len(),
        level_of(base, st, q.len() as int).len() == 14,
        playable(level_of(base, st, q.len() as int), x),
        continues(level_of(base, st, q.len() as int), x),
        g@ == apply_sub(level_of(base, st, q.len() as int), x),
        playable(g@, y),
        no_move_between(g@, 0, y),
    ensures
        prefixed(turns_from(level_of(base, st, q.len() as int), x), q) + rest_at(
            base,
            st,
            q,
            q.len() as int,
        ) == prefixed(turns_from(g@, y), q.push(x)) + rest_at(
            base,
            st.push(g),
            q.push(x),
            q.len() + 1int,
        ),
{
    reveal(turns_from);
    reveal(rest_at);
    let j = q.len() as int;
    let s = level_of(base, st, j);
    let q1 = q.push(x);
    let st1 = st.push(g);
    let later = turns_from(s, x + 1);
    let inner = turns_from(g@, 0);
    lemma_turns_from_skip(g@, 0, y);
    lemma_rest_at_agree(base, st1, st, q1, q, j);
    assert(q1.take(j) =~= q);
    assert(level_of(base, st1, j) == s);
    assert(turns_from(s, x) == prefixed(inner, seq![x]) + later);
    lemma_prefixed_concat(prefixed(inner, seq![x]), later, q);
    lemma_prefixed_prefixed(inner, x, q);
    assert(prefixed(inner, q1) + prefixed(later, q) + rest_at(base, st, q, j) =~= prefixed(
        inner,
        q1,
    ) + (prefixed(later, q) + rest_at(base, st, q, j)));
}

/// Once the chain `p` has been handed out, what follows are the turns after
/// its last house at the deepest level, then those of the shallower levels.
proof fn lemma_advance(base: Seq<nat>, st: Seq<GameState>, p: Seq<int>)
    requires
        p.len() >= 1,
    ensures
        rest_at(base, st, p, p.len() as int) == prefixed(
            turns_from(level_of(base, st, p.len() - 1), p[p.len() - 1] + 1),
            p.drop_last(),
        ) + rest_at(base, st, p.drop_last(), p.len() - 1),
{
    reveal(rest_at);
    let k = p.len() as int;
    lemma_rest_at_agree(base, st, st, p, p.drop_last(), k - 1);
    assert(p.take(k - 1) =~= p.drop_last());
}

/// Playing `x` on `prev` earns another move and leads to `next`, which holds
/// `total` seeds.
#[verifier::opaque]
spec fn step_ok(prev: Seq<nat>, x: int, next: Seq<nat>, total: nat) -> bool {
    continues(prev, x) && next == apply_sub(prev, x) && total_seeds(next) == total
}

/// Each sub-move of the chain `p` is playable at its depth, and each board
/// of `stack` is what the sub-move before it leads to, with the same seeds.
#[verifier::opaque]
spec fn chain_valid(base: Seq<nat>, stack: Seq<GameState>, p: Seq<int>) -> bool {
    &&& stack.len() <= p.len()
    &&& forall|i: int| 0 <= i < p.len() ==> playable(level_of(base, stack, i), #[trigger] p[i])
    &&& forall|i: int|
        0 <= i < stack.len() ==> step_ok(
            level_of(base, stack, i),
            p[i],
            (#[trigger] stack[i])@,
            total_seeds(base),
        )
}

proof fn lemma_chain_facts(base: Seq<nat>, stack: Seq<GameState>, p: Seq<int>)
    requires
        chain_valid(base, stack, p),
    ensures
        stack.len() <= p.len(),
        forall|i: int|
            0 <= i <= stack.len() ==> total_seeds(#[trigger] level_of(base, stack, i))
                == total_seeds(base),
        forall|i: int| 0 <= i < p.len() ==> playable(level_of(base, stack, i), #[trigger] p[i]),
{
    reveal(chain_valid);
    reveal(step_ok);
}

proof fn lemma_chain_push_path(base: Seq<nat>, stack: Seq<GameState>, p: Seq<int>, x: int)
    requires
        chain_valid(base, stack, p),
        stack.len() == p.len(),
        playable(level_of(base, stack, p.len() as int), x),
    ensures
        chain_valid(base, stack, p.push(x)),
{
    reveal(chain_valid);
    let pp = p.push(x);
    assert forall|i: int| 0 <= i < pp.len() implies playable(
        level_of(base, stack, i),
        #[trigger] pp[i],
    ) by {
        if i < p.len() {
            assert(pp[i] == p[i]);
        }
    }
}

proof fn lemma_chain_push_stack(base: Seq<nat>, stack: Seq<GameState>, p: Seq<int>, g: GameState)
    requires
        chain_valid(base, stack, p),
        stack.len() + 1 == p.len(),
        continues(level_of(base, stack, stack.len() as int), p[stack.len() as int]),
        g@ == apply_sub(level_of(base, stack, stack.len() as int), p[stack.len() as int]),
        total_seeds(g@) == total_seeds(base),
    ensures
        chain_valid(base, stack.push(g), p),
        level_of(base, stack.push(g), stack.len() + 1int) == g@,
        forall|i: int|
            0 <= i <= stack.len() ==> #[trigger] level_of(base, stack.push(g), i) == level_of(
                base,
                stack,
                i,
            ),
{
    reveal(chain_valid);
    let ss = stack.push(g);
    let n = stack.len() as int;
    assert forall|i: int| 0 <= i <= n implies #[trigger] level_of(base, ss, i) == level_of(
        base,
        stack,
        i,
    ) by {}
    assert forall|i: int| 0 <= i < p.len() implies playable(
        level_of(base, ss, i),
        #[trigger] p[i],
    ) by {
        assert(level_of(base, ss, i) == level_of(base, stack, i));
    }
    assert(step_ok(level_of(base, ss, n), p[n], g@, total_seeds(base))) by {
        reveal(step_ok);
    }
    assert forall|i: int| 0 <= i < ss.len() implies step_ok(
        level_of(base, ss, i),
        p[i],
        (#[trigger] ss[i])@,
        total_seeds(base),
    ) by {
        assert(level_of(base, ss, i) == level_of(base, stack, i));
        if i < n {
            assert(ss[i] == stack[i]);
        }
    }
}

proof fn lemma_chain_pop_path(base: Seq<nat>, stack: Seq<GameState>, p: Seq<int>)
    requires
        chain_valid(base, stack, p),
        stack.len() < p.len(),
    ensures
        chain_valid(base, stack, p.drop_last()),
{
    reveal(chain_valid);
    let pp = p.drop_last();
    assert forall|i: int| 0 <= i < pp.len() implies playable(
        level_of(base, stack, i),
        #[trigger] pp[i],
    ) by {
        assert(pp[i] == p[i]);
    }
    assert forall|i: int| 0 <= i < stack.len() implies step_ok(
        level_of(base, stack, i),
        pp[i],
        (#[trigger] stack[i])@,
        total_seeds(base),
    ) by {
        assert(pp[i] == p[i]);
    }
}

proof fn lemma_chain_pop_stack(base: Seq<nat>, stack: Seq<GameState>, p: Seq<int>)
    requires
        chain_valid(base, stack, p),
        stack.len() > 0,
        p.len() <= stack.len(),
    ensures
        chain_valid(base, stack.drop_last(), p),
        forall|i: int|
            0 <= i < stack.len() ==> #[trigger] level_of(base, stack.drop_last(), i) == level_of(
                base,
                stack,
                i,
            ),
{
    reveal(chain_valid);
    let ss = stack.drop_last();
    assert forall|i: int| 0 <= i < stack.len() implies #[trigger] level_of(base, ss, i)
        == level_of(base, stack, i) by {}
    assert forall|i: int| 0 <= i < p.len() implies playable(
        level_of(base, ss, i),
        #[trigger] p[i],
    ) by {
        if i < stack.len() {
            assert(level_of(base, ss, i) == level_of(base, stack, i));
        }
    }
    assert forall|i: int| 0 <= i < ss.len() implies step_ok(
        level_of(base, ss, i),
        p[i],
        (#[trigger] ss[i])@,
        total_seeds(base),
    ) by {
        assert(level_of(base, ss, i) == level_of(base, stack, i));
        assert(ss[i] == stack[i]);
    }
}

proof fn lemma_turn_nonempty(h: Seq<nat>, t: Seq<int>)
    requires
        is_turn(h, t),
    ensures
        t.len() > 0,
{
}

/// Two boards with the same seed counts are the same board.
pub proof fn lemma_view_injective(g1: GameState, g2: GameState)
    requires
        g1@ == g2@,
    ensures
        g1 == g2,
{
    assert forall|i: int| 0 <= i < 14 implies g1.houses[i] == g2.houses[i] by {
        assert(g1@[i] == g1.houses@[i] as nat);
        assert(g2@[i] == g2.houses@[i] as nat);
    }
    assert(g1.houses =~= g2.houses);
}

/// Swapping the halves of a board twice gives back the same board: a board
/// `t` whose seeds are those of `s` swapped twice is `s`.
pub proof fn lemma_swap_involution(s: GameState, t: GameState)
    requires
        t@ == swapped(swapped(s@)),
    ensures
        t == s,
{
    assert(swapped(swapped(s@)) =~= s@);
    lemma_view_injective(t, s);
}

/// Swapping the halves keeps every seed on the board.
pub proof fn lemma_swap_total(h: Seq<nat>)
    requires
        h.len() == 14,
    ensures
        swapped(h).len() == 14,
        total_seeds(swapped(h)) == total_seeds(h),
{
}

/// Once a game has ended, finalizing it a second time changes nothing.
pub proof fn lemma_finalize_idempotent(h: Seq<nat>)
    requires
        h.len() == 14,
        ended(h),
    ensures
        finalized(finalized(h)) == finalized(h),
{
    assert(finalized(finalized(h)) =~= finalized(h));
}

/// Finalizing an ended game keeps its seeds and does not change who wins.
pub proof fn lemma_finalize_keeps_outcome(h: Seq<nat>)
    requires
        h.len() == 14,
        ended(h),
    ensures
        total_seeds(finalized(h)) == total_seeds(h),
        outcome(finalized(h)) == outcome(h),
{
}

/// From every board where the game goes on there is at least one turn, and
/// every turn handed out is legal and complete: its last sub-move earns no
/// further move that the mover could use.
pub proof fn lemma_generated_turns(h: Seq<nat>)
    requires
        h.len() == 14,
    ensures
        !ended(h) ==> turns(h).len() > 0,
        forall|i: int|
            0 <= i < turns(h).len() ==> is_turn(h, #[trigger] turns(h)[i]) && legal_moves(
                h,
                turns(h)[i],
            ),
{
    if !ended(h) {
        lemma_turns_from_are_turns(h, 0);
        let y = if h[0] > 0 {
            0
        } else if h[1] > 0 {
            1
        } else if h[2] > 0 {
            2
        } else if h[3] > 0 {
            3
        } else if h[4] > 0 {
            4
        } else {
            5
        };
        assert(h[y] > 0);
        lemma_turns_from_nonempty(h, 0);
        assert forall|i: int| 0 <= i < turns(h).len() implies is_turn(h, #[trigger] turns(h)[i])
            && legal_moves(h, turns(h)[i]) by {
            lemma_turn_is_legal(h, turns(h)[i]);
        }
    }
}

/// A lazy enumeration of every complete turn from a board, depth first and
/// by ascending house at each depth.
///
/// `action` holds the chain being explored; `state_stack` holds the board
/// after each of its sub-moves that earned another move.
pub struct ActionIter {
    action: Action,
    base_state: GameState,
    state_stack: Vec<GameState>,
    finished: bool,
}

impl ActionIter {
    /// The board the turns are enumerated from.
    pub closed spec fn base(&self) -> Seq<nat> {
        self.base_state@
    }

    spec fn path(&self) -> Seq<int> {
        self.action.items()
    }

    spec fn level(&self, i: int) -> Seq<nat> {
        level_of(self.base_state@, self.state_stack@, i)
    }

    spec fn rest(&self, k: int) -> Seq<Seq<int>> {
        rest_at(self.base_state@, self.state_stack@, self.path(), k)
    }

    /// The turns from the current depth that begin with house `x` or a later
    /// one, followed by those still to come at shallower depths.
    spec fn from_here(&self, x: int) -> Seq<Seq<int>> {
        prefixed(turns_from(self.level(self.path().len() as int), x), self.path()) + self.rest(
            self.path().len() as int,
        )
    }

    /// Each sub-move of the chain is playable at its depth, and each stacked
    /// board is what the sub-move before it leads to.
    spec fn chain_ok(&self) -> bool {
        &&& self.action.wf()
        &&& total_seeds(self.base_state@) <= 255
        &&& chain_valid(self.base_state@, self.state_stack@, self.path())
    }

    /// The turns not yet handed out, in the order they will come.
    pub closed spec fn pending(&self) -> Seq<Seq<int>> {
        if self.finished {
            Seq::empty()
        } else if self.path().len() == 0 {
            turns(self.base_state@)
        } else {
            self.rest(self.path().len() as int)
        }
    }

    /// The enumeration's internal invariant.
    pub closed spec fn inv(&self) -> bool {
        &&& self.chain_ok()
        &&& (self.path().len() == 0 ==> self.state_stack@.len() == 0)
        &&& (self.path().len() > 0 ==> self.state_stack@.len() + 1 == self.path().len()
            && !self.finished)
        &&& forall|i: int|
            0 <= i < self.pending().len() ==> fits_packed(#[trigger] self.pending()[i]) && is_turn(
                self.base_state@,
                self.pending()[i],
            )
    }

    /// The board at the deepest level of the chain.
    fn get_current_state(&self) -> (r: GameState)
        requires
            self.chain_ok(),
        ensures
            r@ == self.level(self.state_stack@.len() as int),
    {
        if self.state_stack.len() == 0 {
            self.base_state
        } else {
            self.state_stack[self.state_stack.len() - 1]
        }
    }
    /// Extends the chain from house `first_sub` at the current depth: after
    /// each sub-move that earns another move, the first playable house one
    /// level down follows, until the turn is complete.
    fn next_terminal_state(&mut self, first_sub: SubAction)
        requires
            old(self).chain_ok(),
            !old(self).finished,
            old(self).state_stack@.len() == old(self).path().len(),
            playable(old(self).level(old(self).path().len() as int), first_sub as int),
            forall|i: int|
                0 <= i < old(self).from_here(first_sub as int).len() ==> fits_packed(
                    #[trigger] old(self).from_here(first_sub as int)[i],
                ),
        ensures
            final(self).chain_ok(),
            !final(self).finished,
            final(self).base_state == old(self).base_state,
            final(self).state_stack@.len() + 1 == final(self).path().len(),
            old(self).from_here(first_sub as int) == seq![final(self).path()] + final(self).rest(
                final(self).path().len() as int,
            ),
    {
        let ghost target = self.from_here(first_sub as int);
        let ghost base0 = self.base_state;
        let mut sub = first_sub;
        let mut curr_state = self.get_current_state();
        proof {
            lemma_chain_facts(self.base_state@, self.state_stack@, self.path());
        }
        loop
            invariant_except_break
                self.state_stack@.len() == self.path().len(),
                curr_state@ == self.level(self.path().len() as int),
                total_seeds(curr_state@) == total_seeds(self.base_state@),
                playable(curr_state@, sub as int),
                target == self.from_here(sub as int),
            invariant
                self.chain_ok(),
                !self.finished,
                self.base_state == base0,
                forall|i: int| 0 <= i < target.len() ==> fits_packed(#[trigger] target[i]),
            ensures
                self.chain_ok(),
                !self.finished,
                self.base_state == base0,
                self.state_stack@.len() + 1 == self.path().len(),
                target == seq![self.path()] + self.rest(self.path().len() as int),
            decreases mover_seeds(curr_state@),
        {
            let ghost q = self.path();
            let ghost st = self.state_stack@;
            let ghost b = self.base_state@;
            proof {
                assert(curr_state@[sub as int] > 0);
                lemma_turns_from_nonempty(curr_state@, sub as int);
                lemma_turns_from_are_turns(curr_state@, sub as int);
                let t0 = turns_from(curr_state@, sub as int)[0];
                lemma_turn_nonempty(curr_state@, t0);
                assert(target[0] == q + t0);
                assert(fits_packed(target[0]));
                lemma_chain_push_path(b, st, q, sub as int);
            }
            self.action.push_front(sub);
            if !curr_state.is_renewing_subaction(sub) {
                proof {
                    lemma_descend_stop(b, st, q, sub as int);
                }
                break;
            }
            let mut child = curr_state;
            child.evaluate_subaction(sub);
            proof {
                lemma_renewing_mover_seeds(curr_state@, sub as int);
            }
            match child.find_next_subaction(0) {
                None => {
                    proof {
                        lemma_descend_stop(b, st, q, sub as int);
                    }
                    break;
                },
                Some(next) => {
                    proof {
                        assert(child@[next as int] > 0);
                        lemma_descend_step(b, st, q, sub as int, next as int, child);
                        lemma_chain_push_stack(b, st, q.push(sub as int), child);
                    }
                    self.state_stack.push(child);
                    curr_state = child;
                    sub = next;
                },
            }
        }
    }

    /// The next complete turn, or `None` once every turn has been handed out.
    pub fn next(&mut self) -> (r: Option<Action>)
        requires
            old(self).inv(),
        ensures
            final(self).inv(),
            final(self).base() == old(self).base(),
            match r {
                Some(a) => {
                    &&& a.wf()
                    &&& old(self).pending() == seq![a.items()] + final(self).pending()
                    &&& is_turn(old(self).base(), a.items())
                },
                None => old(self).pending().len() == 0 && final(self).pending().len() == 0,
            },
    {
        if self.finished {
            return None;
        }
        let ghost target = self.pending();
        let ghost b = self.base_state@;
        if self.action.is_empty() {
            if self.base_state.is_ended() {
                self.finished = true;
                return None;
            }
            match self.base_state.find_next_subaction(0) {
                Some(sub) => {
                    proof {
                        reveal(rest_at);
                        lemma_turns_from_skip(b, 0, sub as int);
                        assert(prefixed(turns_from(b, sub as int), self.path()) =~= turns_from(
                            b,
                            sub as int,
                        ));
                        assert(target =~= self.from_here(sub as int));
                    }
                    self.next_terminal_state(sub);
                    proof {
                        assert(target[0] == self.path());
                        assert(is_turn(b, target[0]));
                        assert forall|i: int| 0 <= i < self.pending().len() implies fits_packed(
                            #[trigger] self.pending()[i],
                        ) && is_turn(b, self.pending()[i]) by {
                            assert(self.pending()[i] == target[i + 1]);
                        }
                    }
                    return Some(self.action);
                },
                None => {
                    self.finished = true;
                    return None;
                },
            }
        }
        loop
            invariant
                self.chain_ok(),
                !self.finished,
                self.base_state@ == b,
                b == old(self).base(),
                target == old(self).pending(),
                self.path().len() > 0,
                self.state_stack@.len() + 1 == self.path().len(),
                target == self.rest(self.path().len() as int),
                forall|i: int|
                    0 <= i < target.len() ==> fits_packed(#[trigger] target[i]) && is_turn(
                        b,
                        target[i],
                    ),
            decreases self.path().len(),
        {
            let curr_state = self.get_current_state();
            let ghost p = self.path();
            let ghost st = self.state_stack@;
            proof {
                lemma_advance(b, st, p);
                lemma_chain_facts(b, st, p);
                assert(playable(level_of(b, st, p.len() - 1), p[p.len() - 1]));
                lemma_chain_pop_path(b, st, p);
            }
            let prev = self.action.pop_back();
            match curr_state.find_next_subaction(prev + 1) {
                Some(sub) => {
                    proof {
                        lemma_turns_from_skip(curr_state@, prev + 1, sub as int);
                    }
                    self.next_terminal_state(sub);
                    proof {
                        assert(target[0] == self.path());
                        assert(is_turn(b, target[0]));
                        assert forall|i: int| 0 <= i < self.pending().len() implies fits_packed(
                            #[trigger] self.pending()[i],
                        ) && is_turn(b, self.pending()[i]) by {
                            assert(self.pending()[i] == target[i + 1]);
                        }
                    }
                    return Some(self.action);
                },
                None => {
                    proof {
                        reveal(turns_from);
                        lemma_turns_from_skip(curr_state@, prev + 1, 6);
                        assert(prefixed(turns_from(curr_state@, prev + 1), p.drop_last())
                            =~= Seq::empty());
                        assert(target =~= self.rest(self.path().len() as int));
                    }
                    if self.state_stack.len() == 0 {
                        proof {
                            reveal(rest_at);
                        }
                        self.finished = true;
                        return None;
                    }
                    proof {
                        lemma_chain_pop_stack(b, st, p.drop_last());
                        lemma_rest_at_agree(
                            b,
                            st.drop_last(),
                            st,
                            p.drop_last(),
                            p.drop_last(),
                            p.len() - 1,
                        );
                    }
                    self.state_stack.pop();
                },
            }
        }
    }
}

} // verus!
