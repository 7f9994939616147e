//! The live shots and their simulation: spawning on a player's trigger,
//! bouncing off the map, flying, and leaving play.

use crate::cell::Cell;
use crate::collision::{check, collides, contact, hits_any, overlaps, rects, Collision, Contact};
use crate::entity::{Bounds, Rect};
use crate::input::Event;
use crate::map::TileMap;
use crate::player::{Inputs, Player};
use crate::player_controller::{tiles, PlayerController};
use crate::shot::{shot_of, Id, Shot, State, SHOT_LIVES};
use crate::units::{
    advance, clamp, is_sqrt, isqrt, lemma_sqrt_unique, mag, moved, reflect, saturate, trunc_div,
    WORLD_HEIGHT, WORLD_WIDTH,
};
use vstd::prelude::*;

verus! {

/// Speed of a shot, in sub-units per second.
pub const SHOT_SPEED: i64 = 800_000;

/// Distance between the centre of a player and the position of the shot
/// it fires, in sub-units.
pub const SPAWN_DISTANCE: i64 = 20_000;

/// Factor by which a short aim vector is enlarged before its length is
/// taken, so that the rounding of the length does not show in the result.
pub const AIM_PRECISION: u128 = 0x1_0000_0000;

/// Squared length below which an aim vector counts as short.
pub const SHORT_AIM: u128 = 0x1_0000_0000_0000_0000;

/// The shots in flight, each under its own identity, and the sequence
/// number of the next shot.
#[derive(Debug)]
pub struct ShotController {
    pub shots: Vec<Shot>,
    pub next_id: u32,
}

/// No two shots of the sequence share an identity.
pub open spec fn distinct_ids(shots: Seq<Shot>) -> bool {
    forall|i: int, j: int|
        0 <= i < j < shots.len() ==> (#[trigger] shots[i]).state.id.key() != (
        #[trigger] shots[j]).state.id.key()
}

/// Some shot of the sequence has the identity `key`.
pub open spec fn has_id(shots: Seq<Shot>, key: (u32, Seq<char>)) -> bool {
    exists|i: int| 0 <= i < shots.len() && (#[trigger] shots[i]).state.id.key() == key
}

/// `i` is the first shot of the sequence with the identity `key`.
pub open spec fn is_first_with_id(shots: Seq<Shot>, key: (u32, Seq<char>), i: int) -> bool {
    &&& 0 <= i < shots.len()
    &&& shots[i].state.id.key() == key
    &&& forall|j: int| 0 <= j < i ==> (#[trigger] shots[j]).state.id.key() != key
}

/// The sequence with `s` under its identity: in the place of the first
/// shot of that identity if there is one, else behind the others.
pub open spec fn upserted(shots: Seq<Shot>, s: Shot) -> Seq<Shot> {
    if has_id(shots, s.state.id.key()) {
        shots.update(choose|i: int| is_first_with_id(shots, s.state.id.key(), i), s)
    } else {
        shots.push(s)
    }
}

/// The playfield.
pub open spec fn world() -> Rect {
    Rect { x: 0, y: 0, w: WORLD_WIDTH as int, h: WORLD_HEIGHT as int }
}

/// A shot stays in play while it has lives left and overlaps the
/// playfield.
pub open spec fn in_play(s: Shot) -> bool {
    s.state.lives > 0 && overlaps(s.rect(), world())
}

/// The integer square root of `n`, rounded down.
pub open spec fn sqrt(n: int) -> int {
    choose|r: int| is_sqrt(n, r)
}

/// Factor by which an aim vector of squared length `n` is enlarged.
pub open spec fn enlargement(n: int) -> int {
    if n < SHORT_AIM {
        AIM_PRECISION as int
    } else {
        1
    }
}

/// The vector of length `scale` in the direction of `(ax, ay)`: each
/// component of the aim is multiplied by `scale` and divided by the
/// rounded-down length of the enlarged aim, rounding toward zero. For the
/// zero vector it is the vector of that length pointing left.
pub open spec fn heading(ax: int, ay: int, scale: int) -> (int, int) {
    let n = ax * ax + ay * ay;
    let k = enlargement(n);
    let len = sqrt(n * k * k);
    if n == 0 {
        (-scale, 0)
    } else {
        (trunc_div(ax * scale * k, len), trunc_div(ay * scale * k, len))
    }
}

/// Where a player aims: the vector from its centre to the cursor.
pub open spec fn aim(p: Player) -> (int, int) {
    (
        clamp(p.inputs.mouse_x - (p.state.x + trunc_div(p.state.width as int, 2))),
        clamp(p.inputs.mouse_y - (p.state.y + trunc_div(p.state.height as int, 2))),
    )
}

/// The shot that the player `p` fires under the sequence number `id`. Its
/// position lies `SPAWN_DISTANCE` from the centre of the player in the
/// direction of the cursor, it flies in that direction at `SHOT_SPEED`,
/// and it has the color of the player.
pub open spec fn fired(p: Player, id: u32) -> Shot {
    let (ax, ay) = aim(p);
    let (ox, oy) = heading(ax, ay, SPAWN_DISTANCE as int);
    let (vx, vy) = heading(ax, ay, SHOT_SPEED as int);
    shot_of(
        State {
            id: Id { id, owner: p.state.name },
            x: clamp(p.state.x + trunc_div(p.state.width as int, 2) + ox) as i64,
            y: clamp(p.state.y + trunc_div(p.state.height as int, 2) + oy) as i64,
            dx: vx as i64,
            dy: vy as i64,
            lives: SHOT_LIVES,
        },
        p.state.color,
    )
}

/// The player fires on this tick: it is alive and its trigger is set.
pub open spec fn fires(p: Player) -> bool {
    p.state.lives > 0 && p.inputs.shoot
}

/// The player with its trigger consumed.
pub open spec fn disarmed(p: Player) -> Player {
    Player { inputs: Inputs { shoot: false, ..p.inputs }, ..p }
}

/// The sequence number after `id`; numbering starts over after the last.
pub open spec fn following(id: u32) -> u32 {
    if id == u32::MAX {
        0
    } else {
        (id + 1) as u32
    }
}

/// Players, shots and next sequence number after every player, in order,
/// had its chance to fire. A firing player consumes its trigger and a
/// sequence number; its shot joins the others unless it would start
/// inside a solid tile.
pub open spec fn spawned(
    players: Seq<Player>,
    shots: Seq<Shot>,
    next_id: u32,
    cells: Seq<Cell>,
) -> (
    Seq<Player>,
    Seq<Shot>,
    u32,
)
    decreases players.len(),
{
    if players.len() == 0 {
        (players, shots, next_id)
    } else {
        let (done, s, n) = spawned(players.drop_last(), shots, next_id, cells);
        let p = players.last();
        if fires(p) {
            let shot = fired(p, n);
            (
                done.push(disarmed(p)),
                if hits_any(shot.rect(), rects(cells)) {
                    s
                } else {
                    upserted(s, shot)
                },
                following(n),
            )
        } else {
            (done.push(p), s, n)
        }
    }
}

/// The response of a shot to what is in its way: it is reflected on each
/// axis whose sweep hit, on both at a corner, and every collision costs
/// it one life and marks it dirty.
pub open spec fn bounced(s: Shot, c: Contact) -> Shot {
    match c {
        Contact::Side { x, y } => Shot {
            state: State {
                dx: if x.is_some() {
                    clamp(-s.state.dx) as i64
                } else {
                    s.state.dx
                },
                dy: if y.is_some() {
                    clamp(-s.state.dy) as i64
                } else {
                    s.state.dy
                },
                lives: (s.state.lives - 1) as u32,
                ..s.state
            },
            dirty: true,
            ..s
        },
        Contact::Corner { cell } => Shot {
            state: State {
                dx: clamp(-s.state.dx) as i64,
                dy: clamp(-s.state.dy) as i64,
                lives: (s.state.lives - 1) as u32,
                ..s.state
            },
            dirty: true,
            ..s
        },
        Contact::Clear => s,
    }
}

/// The shot displaced by its velocity over `dt` microseconds.
pub open spec fn flown(s: Shot, dt: int) -> Shot {
    Shot {
        state: State {
            x: moved(s.state.x as int, s.state.dx as int, dt) as i64,
            y: moved(s.state.y as int, s.state.dy as int, dt) as i64,
            ..s.state
        },
        ..s
    }
}

/// One tick of one shot against the solid tiles `cells`.
pub open spec fn advanced(s: Shot, cells: Seq<Cell>, dt: int) -> Shot {
    flown(
        bounced(s, contact(s.rect(), s.state.dx as int, s.state.dy as int, rects(cells), dt)),
        dt,
    )
}

/// The shots as a tick leaves them, given the shots as the players' fire
/// left them: those in play, each advanced by one tick.
pub open spec fn flown_on(shots: Seq<Shot>, cells: Seq<Cell>, dt: int) -> Seq<Shot> {
    shots.filter(|s: Shot| in_play(s)).map_values(|s: Shot| advanced(s, cells, dt))
}

/// There is at most one first shot with a given identity.
pub proof fn lemma_first_with_id_is(shots: Seq<Shot>, s: Shot, i: int)
    requires
        is_first_with_id(shots, s.state.id.key(), i),
    ensures
        upserted(shots, s) == shots.update(i, s),
{
    let key = s.state.id.key();
    let k = choose|k: int| is_first_with_id(shots, key, k);
    if k < i {
        assert(shots[k].state.id.key() != key);
    } else if i < k {
        assert(shots[i].state.id.key() != key);
    }
}

/// Putting a shot under its identity keeps the identities distinct.
pub proof fn lemma_upserted_distinct(shots: Seq<Shot>, s: Shot)
    requires
        distinct_ids(shots),
    ensures
        distinct_ids(upserted(shots, s)),
{
    let key = s.state.id.key();
    if has_id(shots, key) {
        let k = choose|k: int| is_first_with_id(shots, key, k);
        let w = choose|i: int| 0 <= i < shots.len() && (#[trigger] shots[i]).state.id.key() == key;
        lemma_first_exists(shots, key, w);
        let after = shots.update(k, s);
        assert forall|i: int, j: int| 0 <= i < j < after.len() implies (
        #[trigger] after[i]).state.id.key() != (#[trigger] after[j]).state.id.key() by {
            assert(shots[i].state.id.key() != shots[j].state.id.key());
        }
    } else {
        let after = shots.push(s);
        assert forall|i: int, j: int| 0 <= i < j < after.len() implies (
        #[trigger] after[i]).state.id.key() != (#[trigger] after[j]).state.id.key() by {
            if j < shots.len() {
                assert(shots[i].state.id.key() != shots[j].state.id.key());
            } else {
                assert(shots[i].state.id.key() != key);
            }
        }
    }
}

/// Where some shot has an identity, a first one has it.
pub proof fn lemma_first_exists(shots: Seq<Shot>, key: (u32, Seq<char>), w: int)
    requires
        0 <= w < shots.len(),
        shots[w].state.id.key() == key,
    ensures
        exists|k: int| is_first_with_id(shots, key, k),
    decreases w,
{
    if exists|j: int| 0 <= j < w && (#[trigger] shots[j]).state.id.key() == key {
        let j = choose|j: int| 0 <= j < w && (#[trigger] shots[j]).state.id.key() == key;
        lemma_first_exists(shots, key, j);
    } else {
        assert(is_first_with_id(shots, key, w));
    }
}

/// The vector of length `scale` in the direction of `(ax, ay)`.
fn head(ax: i64, ay: i64, scale: i64) -> (r: (i64, i64))
    requires
        0 <= scale <= 0x1_0000_0000,
    ensures
        (r.0 as int, r.1 as int) == heading(ax as int, ay as int, scale as int),
{
    let ux: u128 = if ax >= 0 {
        ax as u128
    } else {
        (-(ax as i128)) as u128
    };
    let uy: u128 = if ay >= 0 {
        ay as u128
    } else {
        (-(ay as i128)) as u128
    };
    assert(ux * ux == ax * ax && ux * ux <= 0x8000_0000_0000_0000 * 0x8000_0000_0000_0000)
        by (nonlinear_arith)
        requires
            ux == ax || ux == -ax,
            0 <= ux <= 0x8000_0000_0000_0000,
    ;
    assert(uy * uy == ay * ay && uy * uy <= 0x8000_0000_0000_0000 * 0x8000_0000_0000_0000)
        by (nonlinear_arith)
        requires
            uy == ay || uy == -ay,
            0 <= uy <= 0x8000_0000_0000_0000,
    ;
    let n: u128 = ux * ux + uy * uy;
    if n == 0 {
        return (-scale, 0);
    }
    let ghost k = enlargement(n as int);
    proof {
        lemma_heading(ax as int, ay as int, scale as int);
        lemma_aim_length(ax as int, ay as int);
    }
    if n < SHORT_AIM {
        assert(ux < 0x1_0000_0000 && uy < 0x1_0000_0000) by (nonlinear_arith)
            requires
                ux * ux + uy * uy < 0x1_0000_0000_0000_0000,
                ux >= 0,
                uy >= 0,
        ;
        let len = isqrt(n * SHORT_AIM);
        proof {
            assert(n * k * k == n * SHORT_AIM) by (nonlinear_arith)
                requires
                    k == 0x1_0000_0000,
                    SHORT_AIM == 0x1_0000_0000_0000_0000,
            ;
            lemma_sqrt_unique(n * k * k, len as int, sqrt(n * k * k));
        }
        assert(-0x1_0000_0000_0000_0000 <= ax * scale <= 0x1_0000_0000_0000_0000
            && -0x1_0000_0000_0000_0000 <= ay * scale <= 0x1_0000_0000_0000_0000)
            by (nonlinear_arith)
            requires
                -0x1_0000_0000 < ax < 0x1_0000_0000,
                -0x1_0000_0000 < ay < 0x1_0000_0000,
                0 <= scale <= 0x1_0000_0000,
        ;
        let sx: i128 = (ax as i128) * (scale as i128);
        let sy: i128 = (ay as i128) * (scale as i128);
        assert(-0x1_0000_0000_0000_0000_0000_0000 <= sx * 0x1_0000_0000
            <= 0x1_0000_0000_0000_0000_0000_0000 && -0x1_0000_0000_0000_0000_0000_0000 <= sy
            * 0x1_0000_0000 <= 0x1_0000_0000_0000_0000_0000_0000) by (nonlinear_arith)
            requires
                -0x1_0000_0000_0000_0000 <= sx <= 0x1_0000_0000_0000_0000,
                -0x1_0000_0000_0000_0000 <= sy <= 0x1_0000_0000_0000_0000,
        ;
        let px: i128 = sx * 0x1_0000_0000;
        let py: i128 = sy * 0x1_0000_0000;
        assert(px == ax * scale * k && py == ay * scale * k);
        ((px / (len as i128)) as i64, (py / (len as i128)) as i64)
    } else {
        let len = isqrt(n);
        proof {
            assert(n * k * k == n) by (nonlinear_arith)
                requires
                    k == 1,
            ;
            lemma_sqrt_unique(n * k * k, len as int, sqrt(n * k * k));
        }
        assert(-0x8000_0000_0000_0000 * 0x1_0000_0000 <= ax * scale <= 0x8000_0000_0000_0000
            * 0x1_0000_0000 && -0x8000_0000_0000_0000 * 0x1_0000_0000 <= ay * scale
            <= 0x8000_0000_0000_0000 * 0x1_0000_0000) by (nonlinear_arith)
            requires
                -0x8000_0000_0000_0000 <= ax <= 0x8000_0000_0000_0000,
                -0x8000_0000_0000_0000 <= ay <= 0x8000_0000_0000_0000,
                0 <= scale <= 0x1_0000_0000,
        ;
        let px: i128 = (ax as i128) * (scale as i128);
        let py: i128 = (ay as i128) * (scale as i128);
        assert(px == ax * scale * k && py == ay * scale * k) by (nonlinear_arith)
            requires
                px == ax * scale,
                py == ay * scale,
                k == 1,
        ;
        ((px / (len as i128)) as i64, (py / (len as i128)) as i64)
    }
}

/// Half of `size`, rounded toward zero.
fn half(size: i64) -> (r: i64)
    ensures
        r == trunc_div(size as int, 2),
{
    size / 2
}

/// The shot that `player` fires under the sequence number `id`.
pub fn fire(player: &Player, id: u32) -> (s: Shot)
    ensures
        s == fired(*player, id),
{
    let cx: i128 = player.state.x as i128 + half(player.state.width) as i128;
    let cy: i128 = player.state.y as i128 + half(player.state.height) as i128;
    let ax = saturate(player.inputs.mouse_x as i128 - cx);
    let ay = saturate(player.inputs.mouse_y as i128 - cy);
    let (ox, oy) = head(ax, ay, SPAWN_DISTANCE);
    let (vx, vy) = head(ax, ay, SHOT_SPEED);
    Shot::new(
        saturate(cx + ox as i128),
        saturate(cy + oy as i128),
        vx,
        vy,
        id,
        player.state.name.clone(),
        player.state.color,
    )
}

/// Lets `shot` respond to what is in its way over `dt` microseconds.
pub fn process_collision(shot: &mut Shot, cells: &[Cell], dt: u32)
    requires
        old(shot).state.lives > 0,
    ensures
        *final(shot) == bounced(
            *old(shot),
            contact(
                old(shot).rect(),
                old(shot).state.dx as int,
                old(shot).state.dy as int,
                rects(cells@),
                dt as int,
            ),
        ),
{
    match check(&*shot, cells, dt) {
        Some(Collision::Side { x, y }) => {
            if x.is_some() {
                shot.state.dx = reflect(shot.state.dx);
            }
            if y.is_some() {
                shot.state.dy = reflect(shot.state.dy);
            }
            shot.state.lives -= 1;
            shot.dirty = true;
        },
        Some(Collision::Corner { .. }) => {
            shot.state.dx = reflect(shot.state.dx);
            shot.state.dy = reflect(shot.state.dy);
            shot.state.lives -= 1;
            shot.dirty = true;
        },
        None => {},
    }
}

/// Displaces `shot` by its velocity over `dt` microseconds.
pub fn motion(shot: &mut Shot, dt: u32)
    ensures
        *final(shot) == flown(*old(shot), dt as int),
{
    shot.state.x = advance(shot.state.x, shot.state.dx, dt);
    shot.state.y = advance(shot.state.y, shot.state.dy, dt);
}

/// Whether `shot` has lives left and overlaps the playfield.
pub fn stays(shot: &Shot) -> (r: bool)
    ensures
        r == in_play(*shot),
{
    let field: [i64; 4] = [0, 0, WORLD_WIDTH, WORLD_HEIGHT];
    shot.state.lives > 0 && collides(shot, &field)
}

impl ShotController {
    /// No two shots share an identity.
    pub open spec fn wf(&self) -> bool {
        distinct_ids(self.shots@)
    }

    /// A controller without shots; the first shot will have number 0.
    pub fn new() -> (r: Self)
        ensures
            r.shots@ == Seq::<Shot>::empty(),
            r.next_id == 0,
            r.wf(),
    {
        Self { shots: Vec::new(), next_id: 0 }
    }

    /// Index of the first shot with the identity `id`.
    pub fn find(&self, id: &Id) -> (r: Option<usize>)
        ensures
            match r {
                Some(i) => is_first_with_id(self.shots@, id.key(), i as int),
                None => !has_id(self.shots@, id.key()),
            },
    {
        let mut i: usize = 0;
        while i < self.shots.len()
            invariant
                i <= self.shots.len(),
                forall|j: int| 0 <= j < i ==> (#[trigger] self.shots[j]).state.id.key() != id.key(),
            decreases self.shots.len() - i,
        {
            if self.shots[i].state.id.id == id.id && self.shots[i].state.id.owner == id.owner {
                return Some(i);
            }
            i += 1;
        }
        None
    }

    /// Puts `shot` under its identity: in the place of the shot of that
    /// identity if there is one, else behind the others.
    pub fn insert(&mut self, shot: Shot)
        ensures
            final(self).shots@ == upserted(old(self).shots@, shot),
            final(self).next_id == old(self).next_id,
            old(self).wf() ==> final(self).wf(),
    {
        proof {
            if old(self).wf() {
                lemma_upserted_distinct(old(self).shots@, shot);
            }
        }
        match self.find(&shot.state.id) {
            Some(i) => {
                proof {
                    lemma_first_with_id_is(self.shots@, shot, i as int);
                }
                self.shots[i] = shot;
            },
            None => {
                self.shots.push(shot);
            },
        }
    }

    /// Lets every player whose trigger is set fire a shot.
    pub fn update(&mut self, map: &TileMap, player_controller: &mut PlayerController)
        requires
            map.wf(),
        ensures
            (final(player_controller).players@, final(self).shots@, final(self).next_id) == spawned(
                old(player_controller).players@,
                old(self).shots@,
                old(self).next_id,
                tiles(*map),
            ),
            old(self).wf() ==> final(self).wf(),
    {
        let cells = map.all_cells();
        let mut i: usize = 0;
        while i < player_controller.players.len()
            invariant
                cells@ == tiles(*map),
                i <= player_controller.players.len(),
                player_controller.players.len() == old(player_controller).players.len(),
                (player_controller.players@.take(i as int), self.shots@, self.next_id) == spawned(
                    old(player_controller).players@.take(i as int),
                    old(self).shots@,
                    old(self).next_id,
                    cells@,
                ),
                forall|j: int|
                    i <= j < player_controller.players.len() ==> player_controller.players[j]
                        == old(player_controller).players[j],
                old(self).wf() ==> self.wf(),
            decreases player_controller.players.len() - i,
        {
            let ghost before = player_controller.players@;
            let ghost olds = old(player_controller).players@;
            if player_controller.players[i].state.lives != 0
                && player_controller.players[i].inputs.shoot {
                let id = self.next_id;
                self.next_id = id.wrapping_add(1);
                let shot = fire(&player_controller.players[i], id);
                player_controller.players[i].inputs.shoot = false;
                let blocked = match check(&shot, cells.as_slice(), 0) {
                    Some(Collision::Side { x: Some(_), y: Some(_) }) => true,
                    _ => false,
                };
                proof {
                    lemma_blocked(shot, cells@);
                }
                if !blocked {
                    self.insert(shot);
                }
            }
            proof {
                assert(olds.take(i + 1).drop_last() == olds.take(i as int));
                assert(olds.take(i + 1).last() == olds[i as int]);
                assert(player_controller.players@.take(i + 1) == before.take(i as int).push(
                    player_controller.players@[i as int],
                ));
            }
            i += 1;
        }
        proof {
            assert(player_controller.players@.take(i as int) == player_controller.players@);
            assert(old(player_controller).players@.take(i as int)
                == old(player_controller).players@);
        }
    }

    /// Removes the shots that are no longer in play.
    pub fn sweep(&mut self)
        ensures
            final(self).shots@ == old(self).shots@.filter(|s: Shot| in_play(s)),
            forall|j: int| 0 <= j < final(self).shots.len()
                ==> in_play(#[trigger] final(self).shots[j]),
            final(self).next_id == old(self).next_id,
            old(self).wf() ==> final(self).wf(),
    {
        let mut kept: Vec<Shot> = Vec::new();
        let mut k: usize = 0;
        let ghost pred = |s: Shot| in_play(s);
        while k < self.shots.len()
            invariant
                k <= self.shots.len(),
                self.shots@ == old(self).shots@,
                pred == |s: Shot| in_play(s),
                kept@ == self.shots@.take(k as int).filter(pred),
                forall|a: int| 0 <= a < kept.len() ==> in_play(#[trigger] kept[a]),
                forall|a: int|
                    0 <= a < kept.len() ==> exists|j: int|
                        0 <= j < k && (#[trigger] kept[a]).state.id.key() == (
                        #[trigger] self.shots[j]).state.id.key(),
                self.wf() ==> distinct_ids(kept@),
            decreases self.shots.len() - k,
        {
            proof {
                let before = self.shots@.take(k as int);
                let after = self.shots@.take(k + 1);
                assert(after.drop_last() == before);
                assert(after.last() == self.shots[k as int]);
                reveal_with_fuel(Seq::filter, 2);
                if pred(self.shots[k as int]) {
                    assert(after.filter(pred) == before.filter(pred).push(self.shots[k as int]));
                } else {
                    assert(after.filter(pred) == before.filter(pred));
                }
            }
            if stays(&self.shots[k]) {
                let ghost old_kept = kept@;
                kept.push(self.shots[k].clone());
                proof {
                    assert forall|a: int| 0 <= a < kept.len() implies exists|j: int|
                        0 <= j < k + 1 && (#[trigger] kept[a]).state.id.key() == (
                        #[trigger] self.shots[j]).state.id.key() by {
                        if a < old_kept.len() {
                            assert(kept[a] == old_kept[a]);
                            let j = choose|j: int|
                                0 <= j < k && (#[trigger] old_kept[a]).state.id.key() == (
                                #[trigger] self.shots[j]).state.id.key();
                            assert(0 <= j < k + 1 && kept[a].state.id.key()
                                == self.shots[j].state.id.key());
                        } else {
                            assert(kept[a].state.id.key() == self.shots[k as int].state.id.key());
                        }
                    }
                    if self.wf() {
                        assert forall|a: int, b: int| 0 <= a < b < kept.len() implies (
                        #[trigger] kept[a]).state.id.key()
                            != (#[trigger] kept[b]).state.id.key() by {
                            if b == old_kept.len() {
                                let j = choose|j: int|
                                    0 <= j < k && (#[trigger] old_kept[a]).state.id.key() == (
                                    #[trigger] self.shots[j]).state.id.key();
                                assert(self.shots[j].state.id.key()
                                    != self.shots[k as int].state.id.key());
                            } else {
                                assert(old_kept[a].state.id.key() != old_kept[b].state.id.key());
                            }
                        }
                    }
                }
            }
            k += 1;
        }
        assert(self.shots@.take(k as int) == self.shots@);
        self.shots = kept;
    }

    /// On a tick: lets the players fire, removes the shots that left play,
    /// and advances the others.
    pub fn event(&mut self, map: &TileMap, player_controller: &mut PlayerController, e: &Event)
        requires
            map.wf(),
        ensures
            match *e {
                Event::Update { dt } => {
                    let (players, shots, next_id) = spawned(
                        old(player_controller).players@,
                        old(self).shots@,
                        old(self).next_id,
                        tiles(*map),
                    );
                    &&& final(player_controller).players@ == players
                    &&& final(self).next_id == next_id
                    &&& final(self).shots@ == flown_on(shots, tiles(*map), dt as int)
                },
                _ => *final(self) == *old(self) && *final(player_controller)
                    == *old(player_controller),
            },
            old(self).wf() ==> final(self).wf(),
    {
        if let Event::Update { dt } = e {
            self.update(map, player_controller);
            let ghost fresh = self.shots@;
            self.sweep();

            let cells = map.all_cells();
            let ghost start = self.shots@;
            let ghost next = self.next_id;
            let ghost step = |s: Shot| advanced(s, tiles(*map), *dt as int);
            let mut k: usize = 0;
            while k < self.shots.len()
                invariant
                    cells@ == tiles(*map),
                    step == |s: Shot| advanced(s, tiles(*map), *dt as int),
                    k <= self.shots.len(),
                    self.shots.len() == start.len(),
                    self.next_id == next,
                    forall|j: int| 0 <= j < start.len() ==> in_play(#[trigger] start[j]),
                    forall|j: int| 0 <= j < k ==> self.shots[j] == step(start[j]),
                    forall|j: int| k <= j < self.shots.len() ==> self.shots[j] == start[j],
                decreases self.shots.len() - k,
            {
                assert(in_play(start[k as int]));
                process_collision(&mut self.shots[k], cells.as_slice(), *dt);
                motion(&mut self.shots[k], *dt);
                k += 1;
            }
            proof {
                assert(self.shots@ == start.map_values(step));
                assert(start == fresh.filter(|s: Shot| in_play(s)));
                let d = *dt;
                assert(start.map_values(step) =~= start.map_values(
                    |s: Shot| advanced(s, tiles(*map), d as int),
                ));
                assert(fresh == spawned(
                    old(player_controller).players@,
                    old(self).shots@,
                    old(self).next_id,
                    tiles(*map),
                ).1);
                if old(self).wf() {
                    assert forall|a: int, b: int| 0 <= a < b < self.shots.len() implies (
                    #[trigger] self.shots[a]).state.id.key() != (
                    #[trigger] self.shots[b]).state.id.key() by {
                        assert(start[a].state.id.key() != start[b].state.id.key());
                    }
                }
            }
        }
    }
}

/// The velocity `v` reversed: `-v`, but for the least velocity, whose
/// reverse is the greatest.
pub open spec fn reversed(v: i64) -> int {
    clamp(-v)
}

/// The reverse of every velocity but the least is its negation.
pub proof fn lemma_reversed(v: i64)
    ensures
        v > i64::MIN ==> reversed(v) == -v,
        v == i64::MIN ==> reversed(v) == i64::MAX,
{
}

/// What a tick does to a shot that has lives. A shot with a clear way
/// keeps its velocity, its lives and its dirty flag. A shot that collides
/// loses exactly one life, also when both axes are hit, and is marked
/// dirty; on a side its velocity is reversed on each axis whose sweep hit
/// and kept on the other, at a corner it is reversed on both. Identity,
/// size and color stay.
pub proof fn lemma_bounce(s: Shot, cells: Seq<Cell>, dt: int)
    requires
        s.state.lives > 0,
    ensures
        ({
            let c = contact(s.rect(), s.state.dx as int, s.state.dy as int, rects(cells), dt);
            let after = advanced(s, cells, dt);
            &&& after.state.id == s.state.id
            &&& after.w == s.w && after.h == s.h && after.color == s.color
            &&& after.state.x == moved(s.state.x as int, after.state.dx as int, dt)
            &&& after.state.y == moved(s.state.y as int, after.state.dy as int, dt)
            &&& match c {
                Contact::Clear => {
                    &&& after.state.lives == s.state.lives
                    &&& after.state.dx == s.state.dx
                    &&& after.state.dy == s.state.dy
                    &&& after.dirty == s.dirty
                },
                Contact::Side { x, y } => {
                    &&& x.is_some() || y.is_some()
                    &&& after.state.lives == s.state.lives - 1
                    &&& after.dirty
                    &&& after.state.dx == if x.is_some() {
                        reversed(s.state.dx)
                    } else {
                        s.state.dx as int
                    }
                    &&& after.state.dy == if y.is_some() {
                        reversed(s.state.dy)
                    } else {
                        s.state.dy as int
                    }
                },
                Contact::Corner { cell } => {
                    &&& after.state.lives == s.state.lives - 1
                    &&& after.dirty
                    &&& after.state.dx == reversed(s.state.dx)
                    &&& after.state.dy == reversed(s.state.dy)
                },
            }
        }),
{
}

/// Every shot that is in play when a tick moves the shots is in the
/// collection after the tick, in the same place among those in play, as
/// the tick left it: with one life less if it collided, even if that was
/// its last, and with all its lives if it did not. `lemma_bounce` says the
/// rest.
pub proof fn lemma_tick_keeps_shots_in_play(shots: Seq<Shot>, cells: Seq<Cell>, dt: int, j: int)
    requires
        0 <= j < shots.filter(|s: Shot| in_play(s)).len(),
    ensures
        ({
            let live = shots.filter(|s: Shot| in_play(s));
            let after = flown_on(shots, cells, dt);
            let c = contact(
                live[j].rect(),
                live[j].state.dx as int,
                live[j].state.dy as int,
                rects(cells),
                dt,
            );
            &&& after.len() == live.len()
            &&& in_play(live[j])
            &&& after[j] == advanced(live[j], cells, dt)
            &&& after[j].state.id == live[j].state.id
            &&& after[j].state.lives == if c is Clear {
                live[j].state.lives as int
            } else {
                live[j].state.lives - 1
            }
        }),
{
    let pred = |s: Shot| in_play(s);
    shots.lemma_filter_pred(pred, j);
    lemma_bounce(shots.filter(pred)[j], cells, dt);
}

/// What rounding toward zero leaves of a quotient: the quotient has the
/// sign of the dividend, and its magnitude is the magnitude of the
/// dividend divided by the divisor, rounded down.
pub proof fn lemma_trunc_div(a: int, b: int)
    requires
        b > 0,
    ensures
        mag(trunc_div(a, b)) * b <= mag(a) < (mag(trunc_div(a, b)) + 1) * b,
        a >= 0 ==> trunc_div(a, b) >= 0,
        a <= 0 ==> trunc_div(a, b) <= 0,
{
    let m = mag(a);
    assert(0 <= m / b && (m / b) * b <= m < (m / b + 1) * b) by (nonlinear_arith)
        requires
            m >= 0,
            b > 0,
    ;
}

/// Every natural number has an integer square root.
pub proof fn lemma_sqrt_exists(n: int)
    requires
        n >= 0,
    ensures
        is_sqrt(n, sqrt(n)),
    decreases n,
{
    if n == 0 {
        assert(is_sqrt(0, 0));
    } else {
        lemma_sqrt_exists(n - 1);
        let r = sqrt(n - 1);
        if (r + 1) * (r + 1) <= n {
            assert((r + 2) * (r + 2) > n) by (nonlinear_arith)
                requires
                    r >= 0,
                    n - 1 < (r + 1) * (r + 1),
            ;
            assert(is_sqrt(n, r + 1));
        } else {
            assert(is_sqrt(n, r));
        }
    }
}

/// Of two numbers that are not negative, the one with the smaller square
/// is the smaller.
proof fn lemma_square_order(a: int, b: int)
    requires
        0 <= a,
        0 <= b,
        a * a < b * b,
    ensures
        a < b,
{
    if a >= b {
        assert(a * a >= b * b) by (nonlinear_arith)
            requires
                a >= b,
                b >= 0,
        ;
    }
}

/// The enlarged aim of a vector other than zero has a rounded-down
/// length of at least `AIM_PRECISION`.
pub proof fn lemma_aim_length(ax: int, ay: int)
    requires
        ax * ax + ay * ay > 0,
    ensures
        ({
            let n = ax * ax + ay * ay;
            let k = enlargement(n);
            &&& is_sqrt(n * k * k, sqrt(n * k * k))
            &&& sqrt(n * k * k) >= AIM_PRECISION
            &&& n * k * k == (ax * k) * (ax * k) + (ay * k) * (ay * k)
        }),
{
    let n = ax * ax + ay * ay;
    let k = enlargement(n);
    let m = n * k * k;
    let len = sqrt(m);
    assert(m == (ax * k) * (ax * k) + (ay * k) * (ay * k)) by (nonlinear_arith)
        requires
            m == n * k * k,
            n == ax * ax + ay * ay,
    ;
    assert(m >= 0x1_0000_0000_0000_0000) by (nonlinear_arith)
        requires
            m == n * k * k,
            n >= 1,
            (k == 0x1_0000_0000) || (k == 1 && n >= 0x1_0000_0000_0000_0000),
    ;
    lemma_sqrt_exists(m);
    if len < 0x1_0000_0000 {
        assert((len + 1) * (len + 1) <= 0x1_0000_0000 * 0x1_0000_0000) by (nonlinear_arith)
            requires
                0 <= len,
                len + 1 <= 0x1_0000_0000,
        ;
    }
}

/// The heading is as long as `scale`, to rounding, and points where the
/// aim points. Each component has the sign of the aim's and is at most
/// `scale`; the length lies below `scale + 1`, and would reach `scale` if
/// each component were one larger in magnitude; and the tip of the
/// heading lies off the line of the aim by less than two sub-units: the
/// cross product of heading and aim is smaller than the sum of the
/// magnitudes of the aim's components.
pub proof fn lemma_heading(ax: int, ay: int, scale: int)
    requires
        0 <= scale <= AIM_PRECISION,
    ensures
        ({
            let (hx, hy) = heading(ax, ay, scale);
            &&& mag(hx) <= scale
            &&& mag(hy) <= scale
            &&& hx * hx + hy * hy < (scale + 1) * (scale + 1)
            &&& (mag(hx) + 1) * (mag(hx) + 1) + (mag(hy) + 1) * (mag(hy) + 1) > scale * scale
            &&& ax > 0 ==> hx >= 0
            &&& ax < 0 ==> hx <= 0
            &&& ay > 0 ==> hy >= 0
            &&& ay < 0 ==> hy <= 0
            &&& ax * ax + ay * ay > 0 ==> mag(hx * ay - hy * ax) < mag(ax) + mag(ay)
        }),
{
    let n = ax * ax + ay * ay;
    assert(n >= 0) by (nonlinear_arith)
        requires
            n == ax * ax + ay * ay,
    ;
    if n == 0 {
        assert((scale + 1) * (scale + 1) > scale * scale) by (nonlinear_arith)
            requires
                scale >= 0,
        ;
        assert((-scale) * (-scale) == scale * scale) by (nonlinear_arith);
        assert((mag(-scale) + 1) * (mag(-scale) + 1) + (mag(0) + 1) * (mag(0) + 1) > scale * scale)
            by (nonlinear_arith)
            requires
                mag(-scale) == scale,
                mag(0) == 0,
                scale >= 0,
        ;
        assert(ax == 0 && ay == 0) by (nonlinear_arith)
            requires
                ax * ax + ay * ay == 0,
        ;
    } else {
        let k = enlargement(n);
        let m = n * k * k;
        let len = sqrt(m);
        let bx = ax * k;
        let by = ay * k;
        lemma_aim_length(ax, ay);
        crate::units::lemma_component_within_length(bx, by, len);
        let px = ax * scale * k;
        let py = ay * scale * k;
        assert(px == bx * scale && py == by * scale) by (nonlinear_arith)
            requires
                px == ax * scale * k,
                py == ay * scale * k,
                bx == ax * k,
                by == ay * k,
        ;
        lemma_scaled_within(bx, len, scale);
        lemma_scaled_within(by, len, scale);
        let hx = trunc_div(px, len);
        let hy = trunc_div(py, len);
        lemma_trunc_div(px, len);
        lemma_trunc_div(py, len);
        let qx = mag(hx);
        let qy = mag(hy);
        // Signs.
        assert((ax > 0 ==> px >= 0) && (ax < 0 ==> px <= 0) && (ay > 0 ==> py >= 0) && (ay < 0
            ==> py <= 0)) by (nonlinear_arith)
            requires
                px == ax * scale * k,
                py == ay * scale * k,
                scale >= 0,
                k > 0,
        ;
        // The squares of the dividends make the square of the length.
        assert(px * px + py * py == m * (scale * scale)) by (nonlinear_arith)
            requires
                px == bx * scale,
                py == by * scale,
                m == bx * bx + by * by,
        ;
        assert(mag(px) * mag(px) == px * px && mag(py) * mag(py) == py * py) by (nonlinear_arith)
            requires
                mag(px) == px || mag(px) == -px,
                mag(py) == py || mag(py) == -py,
        ;
        assert(qx * qx == hx * hx && qy * qy == hy * hy) by (nonlinear_arith)
            requires
                qx == hx || qx == -hx,
                qy == hy || qy == -hy,
        ;
        // From above: the length stays below `scale + 1`.
        assert((qx * len) * (qx * len) <= mag(px) * mag(px)) by (nonlinear_arith)
            requires
                0 <= qx * len <= mag(px),
        ;
        assert((qy * len) * (qy * len) <= mag(py) * mag(py)) by (nonlinear_arith)
            requires
                0 <= qy * len <= mag(py),
        ;
        let total = qx * qx + qy * qy;
        assert(total * (len * len) == (qx * len) * (qx * len) + (qy * len) * (qy * len))
            by (nonlinear_arith)
            requires
                total == qx * qx + qy * qy,
        ;
        assert(m * (scale * scale)
            <= ((len + 1) * scale) * ((len + 1) * scale)) by (nonlinear_arith)
            requires
                0 <= m < (len + 1) * (len + 1),
                scale >= 0,
        ;
        if total >= (scale + 1) * (scale + 1) {
            assert(((scale + 1) * len) * ((scale + 1) * len) <= total * (len * len))
                by (nonlinear_arith)
                requires
                    total >= (scale + 1) * (scale + 1),
                    len >= 0,
            ;
            if scale > 0 {
                assert(m * (scale * scale) < ((len + 1) * scale) * ((len + 1) * scale))
                    by (nonlinear_arith)
                    requires
                        0 <= m < (len + 1) * (len + 1),
                        scale > 0,
                ;
                assert((scale + 1) * len >= 0 && (len + 1) * scale >= 0) by (nonlinear_arith)
                    requires
                        scale > 0,
                        len >= 0,
                ;
                lemma_square_order((scale + 1) * len, (len + 1) * scale);
                assert((scale + 1) * len - (len + 1) * scale == len - scale) by (nonlinear_arith);
                assert(false);
            } else {
                assert(total == 0 && (scale + 1) * (scale + 1) == 1) by (nonlinear_arith)
                    requires
                        total == qx * qx + qy * qy,
                        0 <= qx <= 0,
                        0 <= qy <= 0,
                        scale == 0,
                ;
                assert(false);
            }
        }
        // From below: one more in each component reaches `scale`.
        assert(mag(px) * mag(px) <= ((qx + 1) * len) * ((qx + 1) * len)) by (nonlinear_arith)
            requires
                0 <= mag(px) <= (qx + 1) * len,
        ;
        assert(mag(py) * mag(py) <= ((qy + 1) * len) * ((qy + 1) * len)) by (nonlinear_arith)
            requires
                0 <= mag(py) <= (qy + 1) * len,
        ;
        let reach = (qx + 1) * (qx + 1) + (qy + 1) * (qy + 1);
        assert(reach * (len * len) == ((qx + 1) * len) * ((qx + 1) * len) + ((qy + 1) * len) * ((qy
            + 1) * len)) by (nonlinear_arith)
            requires
                reach == (qx + 1) * (qx + 1) + (qy + 1) * (qy + 1),
        ;
        assert((len * len) * (scale * scale) <= m * (scale * scale)) by (nonlinear_arith)
            requires
                len * len <= m,
                scale >= 0,
        ;
        if reach <= scale * scale {
            // Then both dividends are as large as they can be, and the
            // length is exact; but a dividend is less than its bound.
            assert(reach * (len * len) <= (scale * scale) * (len * len)) by (nonlinear_arith)
                requires
                    reach <= scale * scale,
                    len >= 0,
            ;
            assert(mag(px) * mag(px) < ((qx + 1) * len) * ((qx + 1) * len)) by (nonlinear_arith)
                requires
                    0 <= mag(px) < (qx + 1) * len,
            ;
            assert(false);
        }
        // Sideways: the heading times the length is the dividend less a
        // remainder smaller than the length.
        let rx = px - hx * len;
        let ry = py - hy * len;
        assert(hx * len == if px >= 0 {
            qx * len
        } else {
            -(qx * len)
        }) by (nonlinear_arith)
            requires
                px >= 0 ==> hx == qx,
                px < 0 ==> hx == -qx,
        ;
        assert(hy * len == if py >= 0 {
            qy * len
        } else {
            -(qy * len)
        }) by (nonlinear_arith)
            requires
                py >= 0 ==> hy == qy,
                py < 0 ==> hy == -qy,
        ;
        assert((qx + 1) * len == qx * len + len && (qy + 1) * len == qy * len + len)
            by (nonlinear_arith);
        assert(mag(rx) < len && mag(ry) < len);
        let cross = hx * ay - hy * ax;
        let sx = hx * len;
        let sy = hy * len;
        assert(cross * len == sx * ay - sy * ax) by (nonlinear_arith)
            requires
                cross == hx * ay - hy * ax,
                sx == hx * len,
                sy == hy * len,
        ;
        assert(px * ay == py * ax) by (nonlinear_arith)
            requires
                px == ax * scale * k,
                py == ay * scale * k,
        ;
        assert(sx * ay - sy * ax == ry * ax - rx * ay) by (nonlinear_arith)
            requires
                sx == px - rx,
                sy == py - ry,
                px * ay == py * ax,
        ;
        assert(mag(ry * ax - rx * ay) <= mag(ry) * mag(ax) + mag(rx) * mag(ay)) by (nonlinear_arith)
            requires
                mag(ry) == ry || mag(ry) == -ry,
                mag(rx) == rx || mag(rx) == -rx,
                mag(ax) == ax || mag(ax) == -ax,
                mag(ay) == ay || mag(ay) == -ay,
                mag(ry) >= 0,
                mag(rx) >= 0,
                mag(ax) >= 0,
                mag(ay) >= 0,
                mag(ry * ax - rx * ay) == ry * ax - rx * ay || mag(ry * ax - rx * ay) == -(ry * ax
                    - rx * ay),
        ;
        assert(mag(ax) + mag(ay) > 0) by (nonlinear_arith)
            requires
                ax * ax + ay * ay > 0,
                mag(ax) >= 0,
                mag(ay) >= 0,
                mag(ax) == 0 ==> ax == 0,
                mag(ay) == 0 ==> ay == 0,
        ;
        assert(mag(ry) * mag(ax) + mag(rx) * mag(ay) < len * (mag(ax) + mag(ay))) by (nonlinear_arith)
            requires
                0 <= mag(ry) < len,
                0 <= mag(rx) < len,
                mag(ax) >= 0,
                mag(ay) >= 0,
                mag(ax) + mag(ay) > 0,
        ;
        assert(mag(cross) * len == mag(cross * len)) by (nonlinear_arith)
            requires
                len > 0,
                mag(cross) == cross || mag(cross) == -cross,
                mag(cross) >= 0,
                mag(cross * len) == cross * len || mag(cross * len) == -(cross * len),
                mag(cross * len) >= 0,
        ;
        assert(mag(cross) < mag(ax) + mag(ay)) by (nonlinear_arith)
            requires
                mag(cross) * len < len * (mag(ax) + mag(ay)),
                len > 0,
        ;
    }
}

/// A fired shot flies toward the cursor at `SHOT_SPEED`, to rounding: its
/// speed lies below `SHOT_SPEED + 1` and would reach `SHOT_SPEED` if each
/// component were one sub-unit per second larger in magnitude, and each
/// component has the sign of the aim's.
pub proof fn lemma_fired_speed(p: Player, id: u32)
    ensures
        ({
            let s = fired(p, id).state;
            let (ax, ay) = aim(p);
            &&& s.dx * s.dx + s.dy * s.dy < (SHOT_SPEED + 1) * (SHOT_SPEED + 1)
            &&& (mag(s.dx as int) + 1) * (mag(s.dx as int) + 1) + (mag(s.dy as int) + 1) * (mag(
                s.dy as int,
            ) + 1) > SHOT_SPEED * SHOT_SPEED
            &&& ax > 0 ==> s.dx >= 0
            &&& ax < 0 ==> s.dx <= 0
            &&& ay > 0 ==> s.dy >= 0
            &&& ay < 0 ==> s.dy <= 0
            &&& ax * ax + ay * ay > 0 ==> mag(s.dx * ay - s.dy * ax) < mag(ax) + mag(ay)
        }),
{
    let (ax, ay) = aim(p);
    lemma_heading(ax, ay, SHOT_SPEED as int);
}

/// A shot is fired from the point that lies `SPAWN_DISTANCE` from the
/// centre of the player toward the cursor, to rounding, wherever that
/// point can be represented.
pub proof fn lemma_fired_position(p: Player, id: u32)
    ensures
        ({
            let s = fired(p, id).state;
            let (ax, ay) = aim(p);
            let cx = p.state.x + trunc_div(p.state.width as int, 2);
            let cy = p.state.y + trunc_div(p.state.height as int, 2);
            let (ox, oy) = heading(ax, ay, SPAWN_DISTANCE as int);
            &&& s.x == clamp(cx + ox)
            &&& s.y == clamp(cy + oy)
            &&& ox * ox + oy * oy < (SPAWN_DISTANCE + 1) * (SPAWN_DISTANCE + 1)
            &&& (mag(ox) + 1) * (mag(ox) + 1) + (mag(oy) + 1) * (mag(oy) + 1) > SPAWN_DISTANCE
                * SPAWN_DISTANCE
            &&& ax > 0 ==> ox >= 0
            &&& ax < 0 ==> ox <= 0
            &&& ay > 0 ==> oy >= 0
            &&& ay < 0 ==> oy <= 0
        }),
{
    let (ax, ay) = aim(p);
    lemma_heading(ax, ay, SPAWN_DISTANCE as int);
}

/// A component that does not exceed `len` in magnitude, scaled by
/// `scale / len`, does not exceed `scale`.
pub proof fn lemma_scaled_within(a: int, len: int, scale: int)
    requires
        len > 0,
        -len <= a <= len,
        scale >= 0,
    ensures
        -scale <= trunc_div(a * scale, len) <= scale,
{
    if a >= 0 {
        assert(0 <= a * scale <= len * scale) by (nonlinear_arith)
            requires
                0 <= a <= len,
                scale >= 0,
        ;
        assert(0 <= (a * scale) / len <= scale) by (nonlinear_arith)
            requires
                0 <= a * scale <= len * scale,
                len > 0,
        ;
    } else {
        assert(0 < -(a * scale) <= len * scale || a * scale == 0) by (nonlinear_arith)
            requires
                -len <= a < 0,
                scale >= 0,
        ;
        assert(0 <= (-(a * scale)) / len <= scale) by (nonlinear_arith)
            requires
                0 <= -(a * scale) <= len * scale,
                len > 0,
        ;
    }
}

/// A shot at rest is blocked where it is exactly if it overlaps a tile:
/// with no time to move, both single-axis sweeps test the place where the
/// shot already is.
pub proof fn lemma_blocked(shot: Shot, cells: Seq<Cell>)
    ensures
        hits_any(shot.rect(), rects(cells)) <==> (contact(
            shot.rect(),
            shot.state.dx as int,
            shot.state.dy as int,
            rects(cells),
            0,
        ) matches Contact::Side { x: Some(_), y: Some(_) }),
{
    assert(crate::collision::swept(shot.rect(), shot.state.dx as int, 0, 0) == shot.rect());
    assert(crate::collision::swept(shot.rect(), 0, shot.state.dy as int, 0) == shot.rect());
}

} // verus!
