use vstd::prelude::*;

use crate::dice::DieFace;
use crate::dice::face_of_roll;
use crate::dice::roll_die;

verus! {

/// The engine's error taxonomy; both variants are precondition-style.
#[derive(Clone, Copy, PartialEq, Eq, Structural, Debug)]
pub enum GameError {
    /// Construction was asked for fewer than three players, or the name list
    /// does not match the player count.
    InvalidSetup,
    /// The winner was queried while more than one player still holds chips.
    NoWinnerYet,
}

/// Total number of chips held by the roster.
pub open spec fn sum_chips(s: Seq<u32>) -> int
    decreases s.len(),
{
    if s.len() == 0 {
        0
    } else {
        sum_chips(s.drop_last()) + s.last()
    }
}

/// Number of players still holding at least one chip.
pub open spec fn count_active(s: Seq<u32>) -> int
    decreases s.len(),
{
    if s.len() == 0 {
        0
    } else {
        count_active(s.drop_last()) + if s.last() > 0 {
            1int
        } else {
            0int
        }
    }
}

/// Index of the numerically previous player, wrapping to the last index.
pub open spec fn left_of(p: int, n: int) -> int {
    if p == 0 {
        n - 1
    } else {
        p - 1
    }
}

/// Index of the numerically next player, wrapping to zero.
pub open spec fn right_of(p: int, n: int) -> int {
    if p + 1 == n {
        0
    } else {
        p + 1
    }
}

/// Wraps an index below 2n back into 0..n.
pub open spec fn wrap_index(i: int, n: int) -> int {
    if i < n {
        i
    } else {
        i - n
    }
}

/// The seat j steps after p in cyclic order over n seats, for 0 <= j <= n.
pub open spec fn seat(p: int, j: int, n: int) -> int {
    wrap_index(p + j, n)
}

/// Number of dice a player holding c chips rolls: one per chip, capped at 3.
pub open spec fn dice_count_spec(c: u32) -> int {
    if c < 3 {
        c as int
    } else {
        3
    }
}

/// One die resolved against live chip counts. A roller without chips
/// transfers nothing, so no count can go below zero mid-turn.
pub open spec fn apply_face_spec(chips: Seq<u32>, p: int, face: DieFace) -> Seq<u32> {
    let n = chips.len() as int;
    if chips[p] == 0 || face == DieFace::Dot {
        chips
    } else if face == DieFace::Left {
        chips.update(p, (chips[p] - 1) as u32).update(
            left_of(p, n),
            (chips[left_of(p, n)] + 1) as u32,
        )
    } else if face == DieFace::Right {
        chips.update(p, (chips[p] - 1) as u32).update(
            right_of(p, n),
            (chips[right_of(p, n)] + 1) as u32,
        )
    } else {
        chips.update(p, (chips[p] - 1) as u32)
    }
}

/// Chips retired to the center pool by one resolved die.
pub open spec fn retired_of_face(chips: Seq<u32>, p: int, face: DieFace) -> int {
    if chips[p] > 0 && face == DieFace::Center {
        1
    } else {
        0
    }
}

/// A sequence of dice resolved immediately and in order against live counts.
pub open spec fn apply_faces_spec(chips: Seq<u32>, p: int, faces: Seq<DieFace>) -> Seq<u32>
    decreases faces.len(),
{
    if faces.len() == 0 {
        chips
    } else {
        apply_face_spec(apply_faces_spec(chips, p, faces.drop_last()), p, faces.last())
    }
}

/// Chips retired to the center pool over a sequence of resolved dice.
pub open spec fn retired_of_faces(chips: Seq<u32>, p: int, faces: Seq<DieFace>) -> int
    decreases faces.len(),
{
    if faces.len() == 0 {
        0
    } else {
        retired_of_faces(chips, p, faces.drop_last()) + retired_of_face(
            apply_faces_spec(chips, p, faces.drop_last()),
            p,
            faces.last(),
        )
    }
}

/// The first seat strictly after p (in steps of k, k + 1, ... up to a full
/// rotation) whose holder still has chips; p itself after a fruitless rotation.
pub open spec fn next_active_from(chips: Seq<u32>, p: int, k: int) -> int
    decreases chips.len() + 1 - k,
{
    let n = chips.len() as int;
    if k < 1 || k > n {
        p
    } else if chips[seat(p, k, n)] > 0 {
        seat(p, k, n)
    } else {
        next_active_from(chips, p, k + 1)
    }
}

proof fn lemma_sum_nonneg(s: Seq<u32>)
    ensures
        0 <= sum_chips(s),
    decreases s.len(),
{
    if s.len() > 0 {
        lemma_sum_nonneg(s.drop_last());
    }
}

proof fn lemma_sum_elem(s: Seq<u32>, i: int)
    requires
        0 <= i < s.len(),
    ensures
        s[i] <= sum_chips(s),
    decreases s.len(),
{
    if i == s.len() - 1 {
        lemma_sum_nonneg(s.drop_last());
    } else {
        lemma_sum_elem(s.drop_last(), i);
    }
}

proof fn lemma_sum_update(s: Seq<u32>, i: int, v: u32)
    requires
        0 <= i < s.len(),
    ensures
        sum_chips(s.update(i, v)) == sum_chips(s) - s[i] + v,
    decreases s.len(),
{
    if i == s.len() - 1 {
        assert(s.update(i, v).drop_last() =~= s.drop_last());
    } else {
        lemma_sum_update(s.drop_last(), i, v);
        assert(s.update(i, v).drop_last() =~= s.drop_last().update(i, v));
    }
}

proof fn lemma_sum_two(s: Seq<u32>, i: int, j: int)
    requires
        0 <= i < s.len(),
        0 <= j < s.len(),
        i != j,
    ensures
        s[i] + s[j] <= sum_chips(s),
{
    lemma_sum_update(s, i, 0);
    lemma_sum_elem(s.update(i, 0), j);
}

/// One resolved die conserves chips: whatever leaves the roller's hand either
/// reaches a neighbour or is counted as retired, and the roster keeps its size.
proof fn lemma_apply_face_sum(chips: Seq<u32>, p: int, face: DieFace)
    requires
        0 <= p < chips.len(),
        3 <= chips.len(),
        sum_chips(chips) <= u32::MAX,
    ensures
        apply_face_spec(chips, p, face).len() == chips.len(),
        sum_chips(apply_face_spec(chips, p, face)) + retired_of_face(chips, p, face) == sum_chips(
            chips,
        ),
{
    let n = chips.len() as int;
    if chips[p] == 0 || face == DieFace::Dot {
    } else {
        let dec = chips.update(p, (chips[p] - 1) as u32);
        lemma_sum_update(chips, p, (chips[p] - 1) as u32);
        if face == DieFace::Left {
            let t = left_of(p, n);
            lemma_sum_two(chips, p, t);
            lemma_sum_update(dec, t, (chips[t] + 1) as u32);
        } else if face == DieFace::Right {
            let t = right_of(p, n);
            lemma_sum_two(chips, p, t);
            lemma_sum_update(dec, t, (chips[t] + 1) as u32);
        }
    }
}

/// A roller can only move or retire their own chips: one resolved die never
/// lowers any other player's count.
proof fn lemma_apply_face_others(chips: Seq<u32>, p: int, face: DieFace)
    requires
        0 <= p < chips.len(),
        3 <= chips.len(),
        sum_chips(chips) <= u32::MAX,
    ensures
        forall|j: int|
            0 <= j < chips.len() && j != p ==> apply_face_spec(chips, p, face)[j] >= chips[j],
{
    let n = chips.len() as int;
    if chips[p] > 0 && (face == DieFace::Left || face == DieFace::Right) {
        let t = if face == DieFace::Left {
            left_of(p, n)
        } else {
            right_of(p, n)
        };
        lemma_sum_two(chips, p, t);
    }
}

proof fn lemma_apply_faces_others(chips: Seq<u32>, p: int, faces: Seq<DieFace>)
    requires
        0 <= p < chips.len(),
        3 <= chips.len(),
        sum_chips(chips) <= u32::MAX,
    ensures
        apply_faces_spec(chips, p, faces).len() == chips.len(),
        sum_chips(apply_faces_spec(chips, p, faces)) <= sum_chips(chips),
        forall|j: int|
            0 <= j < chips.len() && j != p ==> apply_faces_spec(chips, p, faces)[j] >= chips[j],
    decreases faces.len(),
{
    if faces.len() > 0 {
        lemma_apply_faces_others(chips, p, faces.drop_last());
        let mid = apply_faces_spec(chips, p, faces.drop_last());
        lemma_apply_face_sum(mid, p, faces.last());
        lemma_apply_face_others(mid, p, faces.last());
    }
}

proof fn lemma_count_two_actives(s: Seq<u32>)
    requires
        2 <= count_active(s),
    ensures
        exists|i: int, j: int| 0 <= i < j < s.len() && s[i] > 0 && s[j] > 0,
    decreases s.len(),
{
    if s.len() > 0 {
        if s.last() > 0 {
            if count_active(s.drop_last()) >= 1 {
                lemma_exists_active(s.drop_last());
                let i = choose|i: int| 0 <= i < s.drop_last().len() && s.drop_last()[i] > 0;
                assert(s[i] > 0 && s[s.len() - 1] > 0);
            }
        } else {
            lemma_count_two_actives(s.drop_last());
            let (i, j) = choose|i: int, j: int|
                0 <= i < j < s.drop_last().len() && s.drop_last()[i] > 0 && s.drop_last()[j] > 0;
            assert(s[i] > 0 && s[j] > 0);
        }
    }
}

/// A turn never strands the game: while two or more players hold chips, the
/// roller's dice cannot empty every other hand, so after any turn at least
/// one player still holds chips and the turn advance always has a legal
/// player to land on.
pub proof fn lemma_turn_keeps_someone_active(chips: Seq<u32>, p: int, faces: Seq<DieFace>)
    requires
        0 <= p < chips.len(),
        3 <= chips.len(),
        sum_chips(chips) <= u32::MAX,
        2 <= count_active(chips),
    ensures
        exists|w: int| 0 <= w < chips.len() && apply_faces_spec(chips, p, faces)[w] > 0,
{
    lemma_count_two_actives(chips);
    let (i, j) = choose|i: int, j: int| 0 <= i < j < chips.len() && chips[i] > 0 && chips[j] > 0;
    let w = if i != p {
        i
    } else {
        j
    };
    lemma_apply_faces_others(chips, p, faces);
    assert(apply_faces_spec(chips, p, faces)[w] > 0);
}

/// The Left-Right-Center game engine: the player roster with live chip
/// counts, the turn cursor, and the count of chips retired to the center.
pub struct GameEngine {
    names: Vec<String>,
    chips: Vec<u32>,
    current: usize,
    retired: u32,
}

impl GameEngine {
    /// Chip counts by player index.
    pub closed spec fn spec_chips(self) -> Seq<u32> {
        self.chips@
    }

    /// Player names by index, fixed at construction.
    pub closed spec fn spec_names(self) -> Seq<String> {
        self.names@
    }

    /// The turn cursor: whose turn is active.
    pub closed spec fn spec_current(self) -> int {
        self.current as int
    }

    /// Chips retired to the center pool, permanently out of circulation.
    pub closed spec fn spec_retired(self) -> int {
        self.retired as int
    }

    /// Number of players in the roster.
    pub open spec fn spec_player_count(self) -> int {
        self.spec_chips().len() as int
    }

    /// Engine well-formedness: one name per player, at least three players, a
    /// cursor inside the roster, and chip conservation: held chips plus the
    /// retired pool always total three per player (which also keeps every
    /// count inside the u32 range).
    pub closed spec fn inv(self) -> bool {
        &&& self.names@.len() == self.chips@.len()
        &&& 3 <= self.chips@.len()
        &&& self.current < self.chips@.len()
        &&& sum_chips(self.chips@) + self.retired == 3 * self.chips@.len()
        &&& 3 * self.chips@.len() <= u32::MAX
    }

    /// Builds an engine with one roster entry per name, three chips each, and
    /// the cursor on player zero. Rejects a player count below three or a
    /// name list of the wrong length with InvalidSetup, and nothing else.
    pub fn new(player_count: usize, names: Vec<String>) -> (r: Result<GameEngine, GameError>)
        requires
            3 * player_count <= u32::MAX,
        ensures
            r is Ok <==> (3 <= player_count && names@.len() == player_count),
            r is Err ==> r->Err_0 == GameError::InvalidSetup,
            r is Ok ==> {
                let e = r->Ok_0;
                &&& e.inv()
                &&& e.spec_names() == names@
                &&& e.spec_player_count() == player_count
                &&& (forall|i: int| 0 <= i < player_count ==> e.spec_chips()[i] == 3)
                &&& sum_chips(e.spec_chips()) == 3 * player_count
                &&& e.spec_current() == 0
                &&& e.spec_retired() == 0
            },
    {
        if player_count < 3 || names.len() != player_count {
            return Err(GameError::InvalidSetup);
        }
        let mut chips: Vec<u32> = Vec::new();
        let mut i: usize = 0;
        while i < player_count
            invariant
                i <= player_count,
                chips@.len() == i,
                forall|j: int| 0 <= j < i ==> chips@[j] == 3,
                sum_chips(chips@) == 3 * i,
            decreases player_count - i,
        {
            let ghost prev = chips@;
            chips.push(3);
            proof {
                assert(chips@.drop_last() =~= prev);
            }
            i += 1;
        }
        Ok(GameEngine { names, chips, current: 0, retired: 0 })
    }

    /// Resolves one die for `player` against the live chip counts: Dot keeps
    /// the chip, Left and Right pass one chip to the wrapping neighbour (a
    /// Right by the last player credits player zero), Center retires one chip
    /// to the center pool. A player already at zero chips transfers nothing,
    /// so no count ever drops below zero.
    pub fn apply_face(&mut self, player: usize, face: DieFace)
        requires
            old(self).inv(),
            player < old(self).spec_player_count(),
        ensures
            final(self).inv(),
            final(self).spec_names() == old(self).spec_names(),
            final(self).spec_current() == old(self).spec_current(),
            final(self).spec_player_count() == old(self).spec_player_count(),
            final(self).spec_chips() == apply_face_spec(
                old(self).spec_chips(),
                player as int,
                face,
            ),
            final(self).spec_retired() == old(self).spec_retired() + retired_of_face(
                old(self).spec_chips(),
                player as int,
                face,
            ),
            forall|j: int|
                0 <= j < old(self).spec_player_count() && j != player
                    ==> final(self).spec_chips()[j] >= old(self).spec_chips()[j],
    {
        proof {
            lemma_apply_face_sum(self.chips@, player as int, face);
            lemma_apply_face_others(self.chips@, player as int, face);
            lemma_sum_elem(self.chips@, player as int);
        }
        let n = self.chips.len();
        let c = self.chips[player];
        if c == 0 {
            return;
        }
        match face {
            DieFace::Dot => {},
            DieFace::Left => {
                let target = if player == 0 {
                    n - 1
                } else {
                    player - 1
                };
                proof {
                    lemma_sum_two(self.chips@, player as int, target as int);
                }
                self.chips.set(player, c - 1);
                let t = self.chips[target];
                self.chips.set(target, t + 1);
            },
            DieFace::Right => {
                let target = if player == n - 1 {
                    0
                } else {
                    player + 1
                };
                proof {
                    lemma_sum_two(self.chips@, player as int, target as int);
                }
                self.chips.set(player, c - 1);
                let t = self.chips[target];
                self.chips.set(target, t + 1);
            },
            DieFace::Center => {
                self.chips.set(player, c - 1);
                self.retired = self.retired + 1;
            },
        }
    }

    /// The central per-turn algorithm: rolls one die per chip the player
    /// holds, capped at three dice, and resolves each die immediately and in
    /// order against the live chip counts. Returns the resolved faces in roll
    /// order; the cursor and the roster names are untouched, and the retired
    /// pool never shrinks.
    pub fn take_turn(&mut self, current_player: usize) -> (r: Vec<DieFace>)
        requires
            old(self).inv(),
            current_player < old(self).spec_player_count(),
        ensures
            final(self).inv(),
            final(self).spec_names() == old(self).spec_names(),
            final(self).spec_current() == old(self).spec_current(),
            final(self).spec_player_count() == old(self).spec_player_count(),
            r@.len() == dice_count_spec(old(self).spec_chips()[current_player as int]),
            final(self).spec_chips() == apply_faces_spec(
                old(self).spec_chips(),
                current_player as int,
                r@,
            ),
            final(self).spec_retired() == old(self).spec_retired() + retired_of_faces(
                old(self).spec_chips(),
                current_player as int,
                r@,
            ),
            old(self).spec_retired() <= final(self).spec_retired(),
            forall|j: int|
                0 <= j < old(self).spec_player_count() && j != current_player
                    ==> final(self).spec_chips()[j] >= old(self).spec_chips()[j],
    {
        let c = self.chips[current_player];
        let dice_count: u32 = if c < 3 {
            c
        } else {
            3
        };
        let mut faces: Vec<DieFace> = Vec::new();
        let mut i: u32 = 0;
        while i < dice_count
            invariant
                i <= dice_count,
                dice_count == dice_count_spec(old(self).spec_chips()[current_player as int]),
                faces@.len() == i,
                self.inv(),
                current_player < self.spec_player_count(),
                self.spec_names() == old(self).spec_names(),
                self.spec_current() == old(self).spec_current(),
                self.spec_player_count() == old(self).spec_player_count(),
                self.spec_chips() == apply_faces_spec(
                    old(self).spec_chips(),
                    current_player as int,
                    faces@,
                ),
                self.spec_retired() == old(self).spec_retired() + retired_of_faces(
                    old(self).spec_chips(),
                    current_player as int,
                    faces@,
                ),
                old(self).spec_retired() <= self.spec_retired(),
                forall|j: int|
                    0 <= j < old(self).spec_player_count() && j != current_player
                        ==> self.spec_chips()[j] >= old(self).spec_chips()[j],
            decreases dice_count - i,
        {
            let roll = roll_die();
            let face = face_of_roll(roll);
            let ghost prev = faces@;
            faces.push(face);
            proof {
                assert(faces@.drop_last() =~= prev);
            }
            self.apply_face(current_player, face);
            i += 1;
        }
        faces
    }

    /// Rolls for the player under the turn cursor, exactly as take_turn does
    /// for that index.
    pub fn roll_for_current_player(&mut self) -> (r: Vec<DieFace>)
        requires
            old(self).inv(),
        ensures
            final(self).inv(),
            final(self).spec_names() == old(self).spec_names(),
            final(self).spec_current() == old(self).spec_current(),
            final(self).spec_player_count() == old(self).spec_player_count(),
            r@.len() == dice_count_spec(old(self).spec_chips()[old(self).spec_current()]),
            final(self).spec_chips() == apply_faces_spec(
                old(self).spec_chips(),
                old(self).spec_current(),
                r@,
            ),
            final(self).spec_retired() == old(self).spec_retired() + retired_of_faces(
                old(self).spec_chips(),
                old(self).spec_current(),
                r@,
            ),
            old(self).spec_retired() <= final(self).spec_retired(),
            forall|j: int|
                0 <= j < old(self).spec_player_count() && j != old(self).spec_current()
                    ==> final(self).spec_chips()[j] >= old(self).spec_chips()[j],
    {
        let cur = self.current;
        self.take_turn(cur)
    }

    /// Moves the turn cursor to the next player strictly after
    /// current_player in seating order (wrapping past the end of the roster)
    /// who still holds chips; only after a fruitless full rotation does it
    /// rest on current_player again, the sole holder. Chip counts, names and
    /// the retired pool are untouched.
    pub fn advance_turn(&mut self, current_player: usize) -> (r: usize)
        requires
            old(self).inv(),
            current_player < old(self).spec_player_count(),
            exists|w: int|
                0 <= w < old(self).spec_player_count() && old(self).spec_chips()[w] > 0,
        ensures
            final(self).inv(),
            final(self).spec_chips() == old(self).spec_chips(),
            final(self).spec_names() == old(self).spec_names(),
            final(self).spec_retired() == old(self).spec_retired(),
            final(self).spec_player_count() == old(self).spec_player_count(),
            r == next_active_from(old(self).spec_chips(), current_player as int, 1),
            final(self).spec_current() == r,
            r < old(self).spec_player_count(),
            old(self).spec_chips()[r as int] > 0,
    {
        let n = self.chips.len();
        let mut k: usize = 1;
        loop
            invariant
                self.inv(),
                self.spec_chips() == old(self).spec_chips(),
                self.spec_names() == old(self).spec_names(),
                self.spec_retired() == old(self).spec_retired(),
                self.spec_current() == old(self).spec_current(),
                n == self.spec_player_count(),
                current_player < n,
                1 <= k <= n,
                exists|w: int| 0 <= w < n && self.spec_chips()[w] > 0,
                forall|j: int|
                    1 <= j < k ==> self.spec_chips()[seat(
                        current_player as int,
                        j,
                        n as int,
                    )] == 0,
                next_active_from(self.spec_chips(), current_player as int, 1)
                    == next_active_from(self.spec_chips(), current_player as int, k as int),
            decreases n - k,
        {
            let idx = if current_player + k >= n {
                current_player + k - n
            } else {
                current_player + k
            };
            proof {
                assert(idx == seat(current_player as int, k as int, n as int));
            }
            if self.chips[idx] > 0 {
                self.current = idx;
                return idx;
            }
            proof {
                let cp = current_player as int;
                let ni = n as int;
                let w = choose|w: int| 0 <= w < ni && self.spec_chips()[w] > 0;
                let d = if w > cp {
                    w - cp
                } else {
                    w - cp + ni
                };
                assert(seat(cp, d, ni) == w);
                if d < k {
                    assert(self.spec_chips()[seat(cp, d, ni)] == 0);
                }
                if d == k {
                    assert(self.spec_chips()[seat(cp, d, ni)] == 0);
                }
                assert(k < ni);
            }
            k = k + 1;
        }
    }

    /// True iff exactly one player still holds chips: the game is then over
    /// and that player has won.
    pub fn is_game_over(&self) -> (r: bool)
        ensures
            r == (count_active(self.spec_chips()) == 1),
    {
        check_winner(&self.chips)
    }

    /// Index of the sole player still holding chips, once the game is over;
    /// NoWinnerYet exactly when more or fewer than one player holds chips.
    pub fn winner(&self) -> (r: Result<usize, GameError>)
        ensures
            r is Ok <==> count_active(self.spec_chips()) == 1,
            r is Err ==> r->Err_0 == GameError::NoWinnerYet,
            r is Ok ==> {
                let w = r->Ok_0;
                &&& w < self.spec_player_count()
                &&& self.spec_chips()[w as int] > 0
                &&& (forall|j: int|
                    0 <= j < self.spec_player_count() && j != w ==> self.spec_chips()[j] == 0)
            },
    {
        if !check_winner(&self.chips) {
            return Err(GameError::NoWinnerYet);
        }
        proof {
            lemma_sole_holder(self.chips@);
        }
        let n = self.chips.len();
        let mut i: usize = 0;
        while i < n
            invariant
                n == self.spec_chips().len(),
                i <= n,
                count_active(self.spec_chips()) == 1,
                i <= first_active(self.spec_chips()),
                first_active(self.spec_chips()) < n,
                self.spec_chips()[first_active(self.spec_chips())] > 0,
                forall|j: int| 0 <= j < first_active(self.spec_chips()) ==> self.spec_chips()[j]
                    == 0,
                forall|j: int|
                    0 <= j < n && j != first_active(self.spec_chips()) ==> self.spec_chips()[j]
                        == 0,
            decreases n - i,
        {
            if self.chips[i] > 0 {
                return Ok(i);
            }
            i += 1;
        }
        proof {
            assert(false);
        }
        Err(GameError::NoWinnerYet)
    }

    /// Name of the sole player still holding chips, once the game is over;
    /// the empty string while the game is still in progress mirrors the
    /// roster-wide scan get_winner performs.
    pub fn winner_name(&self) -> (r: String)
        requires
            self.inv(),
        ensures
            first_active(self.spec_chips()) < self.spec_player_count() ==> r == self.spec_names()[
                first_active(self.spec_chips())
            ],
            first_active(self.spec_chips()) == self.spec_player_count() ==> r@
                == Seq::<char>::empty(),
    {
        let n = self.chips.len();
        get_winner(&self.names, &self.chips, n)
    }

    /// The index of the player whose turn is active.
    pub fn current_player_index(&self) -> (r: usize)
        ensures
            r == self.spec_current(),
    {
        self.current
    }

    /// Chip count of the player at the given index.
    pub fn chips_of(&self, index: usize) -> (r: u32)
        requires
            index < self.spec_player_count(),
        ensures
            r == self.spec_chips()[index as int],
    {
        self.chips[index]
    }

    /// Name of the player at the given index, fixed at construction.
    pub fn name_of(&self, index: usize) -> (r: String)
        requires
            index < self.spec_names().len(),
        ensures
            r == self.spec_names()[index as int],
    {
        self.names[index].clone()
    }

    /// Number of players in the roster, fixed at construction.
    pub fn player_count(&self) -> (r: usize)
        ensures
            r == self.spec_player_count(),
    {
        self.chips.len()
    }

    /// Chips retired to the center pool so far.
    pub fn retired_to_center(&self) -> (r: u32)
        ensures
            r == self.spec_retired(),
    {
        self.retired
    }
}

/// A player with no chips is always skipped: whenever some seat still holds
/// chips and every seat the advance has already passed over (steps 1 up to k)
/// is empty, the advance computation continued from step k lands on a seat
/// that holds chips.
pub proof fn lemma_next_active_positive(chips: Seq<u32>, p: int, k: int)
    requires
        1 <= chips.len(),
        0 <= p < chips.len(),
        1 <= k <= chips.len(),
        exists|w: int| 0 <= w < chips.len() && chips[w] > 0,
        forall|j: int| 1 <= j < k ==> chips[seat(p, j, chips.len() as int)] == 0,
    ensures
        0 <= next_active_from(chips, p, k) < chips.len(),
        chips[next_active_from(chips, p, k)] > 0,
    decreases chips.len() - k,
{
    let n = chips.len() as int;
    if chips[seat(p, k, n)] > 0 {
    } else {
        let w = choose|w: int| 0 <= w < n && chips[w] > 0;
        let d = if w > p {
            w - p
        } else {
            w - p + n
        };
        assert(seat(p, d, n) == w);
        if d < k {
            assert(chips[seat(p, d, n)] == 0);
        }
        if d == k {
            assert(chips[seat(p, d, n)] == 0);
        }
        assert(k < n);
        lemma_next_active_positive(chips, p, k + 1);
    }
}

/// A turn can never drive a chip count below zero: every count is a
/// non-negative machine integer, and once the roller's hand is empty, each
/// remaining die of the turn resolves without moving or retiring any chip, so
/// no decrement is ever attempted on an empty hand.
pub proof fn lemma_no_negative_chips(chips: Seq<u32>, p: int, faces: Seq<DieFace>)
    requires
        0 <= p < chips.len(),
    ensures
        chips[p] == 0 ==> apply_faces_spec(chips, p, faces) == chips,
        chips[p] == 0 ==> retired_of_faces(chips, p, faces) == 0,
        forall|i: int|
            0 <= i < apply_faces_spec(chips, p, faces).len() ==> apply_faces_spec(
                chips,
                p,
                faces,
            )[i] >= 0,
    decreases faces.len(),
{
    if faces.len() > 0 {
        lemma_no_negative_chips(chips, p, faces.drop_last());
    }
}

/// Smallest index whose holder still has chips; the roster length when nobody
/// does.
pub open spec fn first_active(s: Seq<u32>) -> int
    decreases s.len(),
{
    if s.len() == 0 {
        0
    } else if s[0] > 0 {
        0
    } else {
        1 + first_active(s.drop_first())
    }
}

proof fn lemma_first_active_props(s: Seq<u32>)
    ensures
        0 <= first_active(s) <= s.len(),
        first_active(s) < s.len() ==> s[first_active(s)] > 0,
        forall|j: int| 0 <= j < first_active(s) ==> s[j] == 0,
        forall|j: int| 0 <= j < s.len() && s[j] > 0 ==> first_active(s) <= j,
    decreases s.len(),
{
    if s.len() == 0 {
    } else if s[0] > 0 {
    } else {
        lemma_first_active_props(s.drop_first());
        assert forall|j: int| 0 <= j < first_active(s) implies s[j] == 0 by {
            if j > 0 {
                assert(s.drop_first()[j - 1] == s[j]);
            }
        }
        assert forall|j: int| 0 <= j < s.len() && s[j] > 0 implies first_active(s) <= j by {
            if j > 0 {
                assert(s.drop_first()[j - 1] == s[j]);
            }
        }
    }
}

proof fn lemma_count_active_pos(s: Seq<u32>, i: int)
    requires
        0 <= i < s.len(),
        s[i] > 0,
    ensures
        1 <= count_active(s),
    decreases s.len(),
{
    lemma_count_active_nonneg(s.drop_last());
    if i < s.len() - 1 {
        lemma_count_active_pos(s.drop_last(), i);
    }
}

proof fn lemma_count_active_nonneg(s: Seq<u32>)
    ensures
        0 <= count_active(s),
    decreases s.len(),
{
    if s.len() > 0 {
        lemma_count_active_nonneg(s.drop_last());
    }
}

proof fn lemma_count_active_two(s: Seq<u32>, i: int, j: int)
    requires
        0 <= i < j < s.len(),
        s[i] > 0,
        s[j] > 0,
    ensures
        2 <= count_active(s),
    decreases s.len(),
{
    if j == s.len() - 1 {
        lemma_count_active_pos(s.drop_last(), i);
    } else {
        lemma_count_active_two(s.drop_last(), i, j);
    }
}

/// The sole chip holder: when exactly one roster entry is positive, the first
/// active index holds chips and every other entry is zero.
pub proof fn lemma_sole_holder(s: Seq<u32>)
    requires
        count_active(s) == 1,
    ensures
        0 <= first_active(s) < s.len(),
        s[first_active(s)] > 0,
        forall|j: int| 0 <= j < s.len() && j != first_active(s) ==> s[j] == 0,
{
    lemma_first_active_props(s);
    lemma_exists_active(s);
    let f = first_active(s);
    assert forall|j: int| 0 <= j < s.len() && j != f implies s[j] == 0 by {
        if s[j] > 0 {
            if j < f {
                lemma_count_active_two(s, j, f);
            } else {
                lemma_count_active_two(s, f, j);
            }
        }
    }
}

proof fn lemma_exists_active(s: Seq<u32>)
    requires
        1 <= count_active(s),
    ensures
        exists|i: int| 0 <= i < s.len() && s[i] > 0,
    decreases s.len(),
{
    if s.len() > 0 {
        if s.last() > 0 {
            assert(s[s.len() - 1] > 0);
        } else {
            lemma_exists_active(s.drop_last());
            let i = choose|i: int| 0 <= i < s.drop_last().len() && s.drop_last()[i] > 0;
            assert(s[i] > 0);
        }
    }
}

/// True iff exactly one entry of the chip table is positive: the game-over
/// test.
pub fn check_winner(player_chips: &Vec<u32>) -> (r: bool)
    ensures
        r == (count_active(player_chips@) == 1),
{
    let n = player_chips.len();
    let mut count: usize = 0;
    let mut i: usize = 0;
    while i < n
        invariant
            n == player_chips@.len(),
            i <= n,
            count <= i,
            count == count_active(player_chips@.take(i as int)),
        decreases n - i,
    {
        proof {
            assert(player_chips@.take(i as int + 1).drop_last() =~= player_chips@.take(i as int));
        }
        if player_chips[i] > 0 {
            count += 1;
        }
        i += 1;
    }
    proof {
        assert(player_chips@.take(n as int) =~= player_chips@);
    }
    count == 1
}

/// Name of the first player still holding chips; the empty string when nobody
/// does. The inputs must agree on the roster size.
pub fn get_winner(player_names: &Vec<String>, player_chips: &Vec<u32>, player_count: usize) -> (r:
    String)
    requires
        player_names@.len() == player_count,
        player_chips@.len() == player_count,
    ensures
        first_active(player_chips@) < player_count ==> r == player_names@[first_active(
            player_chips@,
        )],
        first_active(player_chips@) == player_count ==> r@ == Seq::<char>::empty(),
{
    proof {
        lemma_first_active_props(player_chips@);
    }
    let mut i: usize = 0;
    while i < player_count
        invariant
            player_names@.len() == player_count,
            player_chips@.len() == player_count,
            i <= player_count,
            i <= first_active(player_chips@),
            forall|j: int| 0 <= j < first_active(player_chips@) ==> player_chips@[j] == 0,
            first_active(player_chips@) < player_count ==> player_chips@[first_active(
                player_chips@,
            )] > 0,
            first_active(player_chips@) <= player_count,
        decreases player_count - i,
    {
        if player_chips[i] > 0 {
            proof {
                lemma_first_active_props(player_chips@);
            }
            return player_names[i].clone();
        }
        i += 1;
    }
    String::new()
}

/// Chip conservation: in every well-formed engine state, the chips the
/// players hold plus the chips retired to the center total exactly three per
/// player, and the retired pool is never negative.
pub proof fn lemma_chip_conservation(e: GameEngine)
    requires
        e.inv(),
    ensures
        sum_chips(e.spec_chips()) + e.spec_retired() == 3 * e.spec_player_count(),
        0 <= e.spec_retired(),
        3 <= e.spec_player_count(),
{
}

} // verus!


