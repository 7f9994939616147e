//! The players and their simulation: steering, gravity and jumps, the
//! response to collisions with the map, damage from shots, and motion.

use crate::cell::Cell;
use crate::collision::{check, collides, contact, overlaps, rects, Collision, Contact};
use crate::color::{palette, Color, PALETTE_SIZE};
use crate::entity::Bounds;
use crate::input::Event;
use crate::map::{product, TileMap};
use crate::player::{Inputs, Player, State, FULL_LIVES};
use crate::shot::Shot;
use crate::shot_controller::ShotController;
use crate::units::{
    advance, clamp, coasted, distance, lemma_coasting_decays, lemma_coasting_rests,
    lemma_coasting_stops, lemma_friction_slows, mag, moved, slow_down, slowed, travel, MICROS,
};
use vstd::arithmetic::power::pow;
use vstd::prelude::*;

verus! {

/// Speed a player is steered toward, in sub-units per second.
pub const RUN_SPEED: i64 = 300_000;

/// Friction per second while standing on a tile.
pub const GROUND_FRICTION: u8 = 16;

/// Friction per second while in the air.
pub const AIR_FRICTION: u8 = 4;

/// Acceleration of gravity, in sub-units per second per second.
pub const GRAVITY: i64 = 1_000_000;

/// Upward speed of a jump from the ground, in sub-units per second.
pub const JUMP_SPEED: i64 = 805_000;

/// Upward speed of a jump in the air, in sub-units per second.
pub const DOUBLE_JUMP_SPEED: i64 = 405_000;

/// The players of the game, each under its own name.
#[derive(Debug)]
pub struct PlayerController {
    pub players: Vec<Player>,
}

/// No two players of the sequence share a name.
pub open spec fn distinct_names(players: Seq<Player>) -> bool {
    forall|i: int, j: int|
        0 <= i < j < players.len() ==> (#[trigger] players[i]).state.name@ != (
        #[trigger] players[j]).state.name@
}

/// The names of the players, in order.
pub open spec fn names_of(players: Seq<Player>) -> Seq<Seq<char>> {
    Seq::new(players.len(), |i: int| players[i].state.name@)
}

/// Some player of the sequence is called `name`.
pub open spec fn has_name(players: Seq<Player>, name: Seq<char>) -> bool {
    exists|i: int| 0 <= i < players.len() && (#[trigger] players[i]).state.name@ == name
}

/// `i` is the first player of the sequence called `name`.
pub open spec fn is_first_named(players: Seq<Player>, name: Seq<char>, i: int) -> bool {
    &&& 0 <= i < players.len()
    &&& players[i].state.name@ == name
    &&& forall|j: int| 0 <= j < i ==> (#[trigger] players[j]).state.name@ != name
}

/// The sequence with `p` under its name: in the place of the first player
/// of that name if there is one, else behind the others.
pub open spec fn placed(players: Seq<Player>, p: Player) -> Seq<Player> {
    if has_name(players, p.state.name@) {
        players.update(choose|i: int| is_first_named(players, p.state.name@, i), p)
    } else {
        players.push(p)
    }
}

/// There is at most one first player with a given name.
pub proof fn lemma_first_named_is(players: Seq<Player>, name: Seq<char>, i: int)
    requires
        is_first_named(players, name, i),
    ensures
        has_name(players, name),
        (choose|k: int| is_first_named(players, name, k)) == i,
{
    let k = choose|k: int| is_first_named(players, name, k);
    if k < i {
        assert(players[k].state.name@ != name);
    } else if i < k {
        assert(players[i].state.name@ != name);
    }
}

/// Where some player has a name, a first one has it.
pub proof fn lemma_first_named_exists(players: Seq<Player>, name: Seq<char>, w: int)
    requires
        0 <= w < players.len(),
        players[w].state.name@ == name,
    ensures
        exists|k: int| is_first_named(players, name, k),
    decreases w,
{
    if exists|j: int| 0 <= j < w && (#[trigger] players[j]).state.name@ == name {
        let j = choose|j: int| 0 <= j < w && (#[trigger] players[j]).state.name@ == name;
        lemma_first_named_exists(players, name, j);
    } else {
        assert(is_first_named(players, name, w));
    }
}

/// Changing players without changing a name keeps the names distinct.
pub proof fn lemma_same_names_distinct(before: Seq<Player>, after: Seq<Player>)
    requires
        distinct_names(before),
        names_of(after) == names_of(before),
    ensures
        distinct_names(after),
{
    assert forall|i: int, j: int| 0 <= i < j < after.len() implies (#[trigger] after[i]).state.name@
        != (#[trigger] after[j]).state.name@ by {
        assert(after.len() == names_of(after).len());
        assert(names_of(after)[i] == names_of(before)[i]);
        assert(names_of(after)[j] == names_of(before)[j]);
        assert(before[i].state.name@ != before[j].state.name@);
    }
}

/// Putting a player under its name keeps the names distinct.
pub proof fn lemma_placed_distinct(players: Seq<Player>, p: Player)
    requires
        distinct_names(players),
    ensures
        distinct_names(placed(players, p)),
{
    let name = p.state.name@;
    let after = placed(players, p);
    if has_name(players, name) {
        let w = choose|i: int| 0 <= i < players.len() && (#[trigger] players[i]).state.name@
            == name;
        assert(is_first_named(players, name, w)) by {
            assert forall|j: int| 0 <= j < w implies (#[trigger] players[j]).state.name@
                != name by {
                assert(players[j].state.name@ != players[w].state.name@);
            }
        }
        lemma_first_named_is(players, name, w);
        assert forall|i: int, j: int| 0 <= i < j < after.len() implies (
        #[trigger] after[i]).state.name@ != (#[trigger] after[j]).state.name@ by {
            assert(players[i].state.name@ != players[j].state.name@);
        }
    } else {
        assert forall|i: int, j: int| 0 <= i < j < after.len() implies (
        #[trigger] after[i]).state.name@ != (#[trigger] after[j]).state.name@ by {
            if j < players.len() {
                assert(players[i].state.name@ != players[j].state.name@);
            } else {
                assert(players[i].state.name@ != name);
            }
        }
    }
}

/// Friction that acts on a player.
pub open spec fn friction_of(p: Player) -> int {
    if p.on_ground {
        GROUND_FRICTION as int
    } else {
        AIR_FRICTION as int
    }
}

/// Horizontal velocity after steering: with exactly one direction held the
/// velocity is brought to the running speed in that direction, unless it
/// already exceeds it; otherwise friction slows the player down.
pub open spec fn steered_dx(p: Player, dt: int) -> int {
    if p.inputs.left && !p.inputs.right {
        if p.state.dx < -RUN_SPEED {
            p.state.dx as int
        } else {
            -RUN_SPEED as int
        }
    } else if !p.inputs.left && p.inputs.right {
        if p.state.dx > RUN_SPEED {
            p.state.dx as int
        } else {
            RUN_SPEED as int
        }
    } else {
        slowed(p.state.dx as int, friction_of(p), dt)
    }
}

/// The jump trigger is set and the player is able to jump.
pub open spec fn jumps(p: Player) -> bool {
    p.inputs.jump && (p.on_ground || p.has_double_jump)
}

/// Vertical velocity after steering: a jump raises the upward speed to the
/// speed of the jump; without a jump gravity accelerates the player.
pub open spec fn steered_dy(p: Player, dt: int) -> int {
    if jumps(p) {
        let floor = if p.on_ground {
            -JUMP_SPEED
        } else {
            -DOUBLE_JUMP_SPEED
        };
        if p.state.dy < floor {
            p.state.dy as int
        } else {
            floor as int
        }
    } else {
        clamp(p.state.dy + travel(GRAVITY as int, dt))
    }
}

/// The player after inputs, friction and gravity acted on its velocity for
/// `dt` microseconds. A jump consumes the trigger, and in the air also the
/// double jump.
pub open spec fn steered(p: Player, dt: int) -> Player {
    Player {
        state: State { dx: steered_dx(p, dt) as i64, dy: steered_dy(p, dt) as i64, ..p.state },
        inputs: Inputs { jump: p.inputs.jump && !jumps(p), ..p.inputs },
        has_double_jump: p.has_double_jump && !(jumps(p) && !p.on_ground),
        ..p
    }
}

/// The player standing on top of the tile `cell`, with its double jump
/// restored.
pub open spec fn landed(p: Player, cell: Cell) -> Player {
    Player {
        state: State { y: clamp(cell.y - p.state.height) as i64, ..p.state },
        on_ground: true,
        has_double_jump: true,
        ..p
    }
}

/// The response of a player to what is in its way. A hit on the x sweep
/// stops the horizontal motion. A hit on the y sweep stops the vertical
/// motion, and a falling player lands on the tile hit; without one the
/// player is in the air. At a corner the horizontal motion stops and a
/// falling player lands on the corner tile.
pub open spec fn responded(p: Player, c: Contact, cells: Seq<Cell>) -> Player {
    match c {
        Contact::Side { x, y } => {
            let q = if x.is_some() {
                Player { state: State { dx: 0, ..p.state }, ..p }
            } else {
                p
            };
            match y {
                Some(k) => {
                    let r = if q.state.dy > 0 {
                        landed(q, cells[k])
                    } else {
                        q
                    };
                    Player { state: State { dy: 0, ..r.state }, ..r }
                },
                None => Player { on_ground: false, ..q },
            }
        },
        Contact::Corner { cell } => {
            let q = Player { state: State { dx: 0, ..p.state }, ..p };
            if q.state.dy > 0 {
                landed(q, cells[cell])
            } else {
                q
            }
        },
        Contact::Clear => Player { on_ground: false, ..p },
    }
}

/// The player after its displacement over `dt` microseconds was tested
/// against the solid tiles `cells`.
pub open spec fn resolved(p: Player, cells: Seq<Cell>, dt: int) -> Player {
    responded(
        p,
        contact(p.rect(), p.state.dx as int, p.state.dy as int, rects(cells), dt),
        cells,
    )
}

/// The shot `s` wounds the player `p`: the player is alive, the shot is
/// not its own, and the two overlap.
pub open spec fn wounds(s: Shot, p: Player) -> bool {
    p.state.lives > 0 && s.state.id.owner@ != p.state.name@ && overlaps(p.rect(), s.rect())
}

/// The player with one life less, marked dirty.
pub open spec fn wounded(p: Player) -> Player {
    Player { state: State { lives: (p.state.lives - 1) as u8, ..p.state }, dirty: true, ..p }
}

/// The shot with no life left.
pub open spec fn spent(s: Shot) -> Shot {
    Shot { state: crate::shot::State { lives: 0, ..s.state }, ..s }
}

/// The player and the shots after every shot, in order, had its chance to
/// wound the player: each shot that wounds costs the player one life and
/// is spent.
pub open spec fn struck(p: Player, shots: Seq<Shot>) -> (Player, Seq<Shot>)
    decreases shots.len(),
{
    if shots.len() == 0 {
        (p, shots)
    } else {
        let (q, done) = struck(p, shots.drop_last());
        let s = shots.last();
        if wounds(s, q) {
            (wounded(q), done.push(spent(s)))
        } else {
            (q, done.push(s))
        }
    }
}

/// The shot `s` is not the player's own and overlaps the player.
pub open spec fn threatens(s: Shot, p: Player) -> bool {
    s.state.id.owner@ != p.state.name@ && overlaps(p.rect(), s.rect())
}

/// Number of shots that are not the player's own and overlap the player.
pub open spec fn threats(p: Player, shots: Seq<Shot>) -> nat {
    shots.filter(|s: Shot| threatens(s, p)).len()
}

/// The player displaced by its velocity over `dt` microseconds.
pub open spec fn integrated(p: Player, dt: int) -> Player {
    Player {
        state: State {
            x: moved(p.state.x as int, p.state.dx as int, dt) as i64,
            y: moved(p.state.y as int, p.state.dy as int, dt) as i64,
            ..p.state
        },
        ..p
    }
}

/// One tick of one player: steering, collision response, damage, motion.
/// A player without lives is frozen.
pub open spec fn stepped(p: Player, shots: Seq<Shot>, cells: Seq<Cell>, dt: int) -> (
    Player,
    Seq<Shot>,
) {
    if p.state.lives == 0 {
        (p, shots)
    } else {
        let (q, after) = struck(resolved(steered(p, dt), cells, dt), shots);
        (integrated(q, dt), after)
    }
}

/// One tick of all players, in order, against the same tiles; the shots
/// spent by one player are seen spent by the next.
pub open spec fn ticked(players: Seq<Player>, shots: Seq<Shot>, cells: Seq<Cell>, dt: int) -> (
    Seq<Player>,
    Seq<Shot>,
)
    decreases players.len(),
{
    if players.len() == 0 {
        (players, shots)
    } else {
        let (done, s1) = ticked(players.drop_last(), shots, cells, dt);
        let (q, s2) = stepped(players.last(), s1, cells, dt);
        (done.push(q), s2)
    }
}

/// The player with full lives.
pub open spec fn revived(p: Player) -> Player {
    Player { state: State { lives: FULL_LIVES, ..p.state }, ..p }
}

/// Some player has the color `c`.
pub open spec fn color_taken(players: Seq<Player>, c: Color) -> bool {
    exists|i: int| 0 <= i < players.len() && (#[trigger] players[i]).state.color == c
}

/// `i` is the first color of the palette that no player has.
pub open spec fn is_first_free(players: Seq<Player>, i: int) -> bool {
    &&& 0 <= i < PALETTE_SIZE
    &&& !color_taken(players, palette(i))
    &&& forall|j: int| 0 <= j < i ==> color_taken(players, #[trigger] palette(j))
}

/// The first color of the palette that no player has, if any is left.
pub open spec fn free_color(players: Seq<Player>) -> Option<Color> {
    if exists|i: int| is_first_free(players, i) {
        Some(palette(choose|i: int| is_first_free(players, i)))
    } else {
        None
    }
}

/// The solid tiles of a map, in the order in which they are tested.
pub open spec fn tiles(map: TileMap) -> Seq<Cell> {
    map.solid_cells(product(0, map.width as int, 0, map.height as int))
}

/// A tick changes no name.
pub proof fn lemma_ticked_names(players: Seq<Player>, shots: Seq<Shot>, cells: Seq<Cell>, dt: int)
    ensures
        ticked(players, shots, cells, dt).0.len() == players.len(),
        forall|i: int|
            0 <= i < players.len()
                ==> (#[trigger] ticked(players, shots, cells, dt).0[i]).state.name
                == players[i].state.name,
    decreases players.len(),
{
    if players.len() > 0 {
        lemma_ticked_names(players.drop_last(), shots, cells, dt);
        let (done, s1) = ticked(players.drop_last(), shots, cells, dt);
        lemma_struck_keeps(resolved(steered(players.last(), dt), cells, dt), s1);
    }
}

/// Damage costs the player one life for every shot that is not its own
/// and overlaps it, until no life is left; it marks the player dirty if
/// it cost a life.
pub proof fn lemma_struck_lives(p: Player, shots: Seq<Shot>)
    ensures
        struck(p, shots).0.state.lives == if p.state.lives >= threats(p, shots) {
            p.state.lives - threats(p, shots)
        } else {
            0
        },
        struck(p, shots).0.dirty == (p.dirty || (p.state.lives > 0 && threats(p, shots) > 0)),
    decreases shots.len(),
{
    let pred = |s: Shot| threatens(s, p);
    reveal_with_fuel(Seq::filter, 2);
    if shots.len() > 0 {
        let rest = shots.drop_last();
        lemma_struck_lives(p, rest);
        lemma_struck_keeps(p, rest);
        let q = struck(p, rest).0;
        assert(q.rect() == p.rect());
        assert(threatens(shots.last(), q) == threatens(shots.last(), p));
        if pred(shots.last()) {
            assert(shots.filter(pred) == rest.filter(pred).push(shots.last()));
        } else {
            assert(shots.filter(pred) == rest.filter(pred));
        }
    }
}

/// Damage changes nothing of a player but its lives and its dirty flag,
/// and nothing of a shot but its lives.
pub proof fn lemma_struck_keeps(p: Player, shots: Seq<Shot>)
    ensures
        struck(p, shots).1.len() == shots.len(),
        struck(p, shots).0.state.lives <= p.state.lives,
        struck(p, shots).0 == (Player {
            state: State { lives: struck(p, shots).0.state.lives, ..p.state },
            dirty: struck(p, shots).0.dirty,
            ..p
        }),
        forall|k: int|
            0 <= k < shots.len() ==> (#[trigger] struck(p, shots).1[k]) == shots[k] || struck(
                p,
                shots,
            ).1[k] == spent(shots[k]),
    decreases shots.len(),
{
    if shots.len() > 0 {
        lemma_struck_keeps(p, shots.drop_last());
    }
}

impl PlayerController {
    /// No two players share a name.
    pub open spec fn wf(&self) -> bool {
        distinct_names(self.players@)
    }

    /// A controller without players.
    pub fn new() -> (r: Self)
        ensures
            r.players@ == Seq::<Player>::empty(),
            r.wf(),
    {
        Self { players: Vec::new() }
    }

    /// Index of the first player called `name`.
    pub fn find(&self, name: &String) -> (r: Option<usize>)
        ensures
            match r {
                Some(i) => is_first_named(self.players@, name@, i as int),
                None => !has_name(self.players@, name@),
            },
    {
        let mut i: usize = 0;
        while i < self.players.len()
            invariant
                i <= self.players.len(),
                forall|j: int| 0 <= j < i ==> (#[trigger] self.players[j]).state.name@ != name@,
            decreases self.players.len() - i,
        {
            if self.players[i].state.name == *name {
                return Some(i);
            }
            i += 1;
        }
        None
    }

    /// Puts `player` under its name: in the place of the player of that
    /// name if there is one, else behind the others.
    pub fn insert(&mut self, player: Player)
        ensures
            final(self).players@ == placed(old(self).players@, player),
            old(self).wf() ==> final(self).wf(),
    {
        proof {
            if old(self).wf() {
                lemma_placed_distinct(old(self).players@, player);
            }
        }
        match self.find(&player.state.name) {
            Some(i) => {
                proof {
                    lemma_first_named_is(self.players@, player.state.name@, i as int);
                }
                self.players[i] = player;
            },
            None => {
                self.players.push(player);
            },
        }
    }

    /// Advances the players on a tick, and gives every player full lives
    /// when the round is restarted by hand.
    pub fn event(&mut self, map: &TileMap, shot_controller: &mut ShotController, e: &Event)
        requires
            map.wf(),
        ensures
            final(shot_controller).next_id == old(shot_controller).next_id,
            names_of(final(self).players@) == names_of(old(self).players@),
            old(self).wf() ==> final(self).wf(),
            ({
                let players = old(self).players@;
                let shots = old(shot_controller).shots@;
                match *e {
                    Event::Update { dt } => (final(self).players@, final(shot_controller).shots@)
                        == ticked(players, shots, tiles(*map), dt as int),
                    _ => {
                        &&& final(shot_controller).shots@ == shots
                        &&& final(self).players@ == if e.is_restart() {
                            players.map_values(|p: Player| revived(p))
                        } else {
                            players
                        }
                    },
                }
            }),
    {
        proof {
            assert(names_of(self.players@) == names_of(old(self).players@));
        }
        match e {
            Event::Update { dt } => {
                let ghost cells = tiles(*map);
                let mut i: usize = 0;
                while i < self.players.len()
                    invariant
                        map.wf(),
                        cells == tiles(*map),
                        i <= self.players.len(),
                        self.players.len() == old(self).players.len(),
                        shot_controller.next_id == old(shot_controller).next_id,
                        (self.players@.take(i as int), shot_controller.shots@) == ticked(
                            old(self).players@.take(i as int),
                            old(shot_controller).shots@,
                            cells,
                            *dt as int,
                        ),
                        forall|j: int|
                            i <= j < self.players.len() ==> self.players[j] == old(self).players[j],
                    decreases self.players.len() - i,
                {
                    let ghost before = self.players@;
                    let ghost shots_before = shot_controller.shots@;
                    if self.players[i].state.lives != 0 {
                        Self::update(&mut self.players[i], *dt);
                        Self::process_collision(&mut self.players[i], map, *dt, shot_controller);
                        Self::motion(&mut self.players[i], *dt);
                    }
                    proof {
                        let olds = old(self).players@;
                        assert(olds.take(i + 1).drop_last() == olds.take(i as int));
                        assert(olds.take(i + 1).last() == olds[i as int]);
                        assert(self.players@[i as int] == stepped(
                            olds[i as int],
                            shots_before,
                            cells,
                            *dt as int,
                        ).0);
                        assert(self.players@.take(i + 1) == before.take(i as int).push(
                            self.players@[i as int],
                        ));
                    }
                    i += 1;
                }
                proof {
                    assert(self.players@.take(i as int) == self.players@);
                    assert(old(self).players@.take(i as int) == old(self).players@);
                    lemma_ticked_names(
                        old(self).players@,
                        old(shot_controller).shots@,
                        cells,
                        *dt as int,
                    );
                    assert(names_of(self.players@) == names_of(old(self).players@));
                }
            },
            _ => {
                if e.restarts() {
                    let mut i: usize = 0;
                    while i < self.players.len()
                        invariant
                            i <= self.players.len(),
                            self.players.len() == old(self).players.len(),
                            forall|j: int|
                                0 <= j < i ==> self.players[j] == revived(old(self).players[j]),
                            forall|j: int|
                                i <= j < self.players.len() ==> self.players[j]
                                    == old(self).players[j],
                        decreases self.players.len() - i,
                    {
                        self.players[i].state.lives = FULL_LIVES;
                        i += 1;
                    }
                    assert(self.players@ == old(self).players@.map_values(|p: Player| revived(p)));
                    assert(names_of(self.players@) == names_of(old(self).players@));
                }
            },
        }
        proof {
            if old(self).wf() {
                lemma_same_names_distinct(old(self).players@, self.players@);
            }
        }
    }

    /// Lets inputs, friction and gravity act on the velocity of `player`
    /// for `dt` microseconds.
    pub fn update(player: &mut Player, dt: u32)
        ensures
            *final(player) == steered(*old(player), dt as int),
    {
        if player.inputs.left && !player.inputs.right {
            if player.state.dx > -RUN_SPEED {
                player.state.dx = -RUN_SPEED;
            }
        } else if !player.inputs.left && player.inputs.right {
            if player.state.dx < RUN_SPEED {
                player.state.dx = RUN_SPEED;
            }
        } else {
            let friction = if player.on_ground {
                GROUND_FRICTION
            } else {
                AIR_FRICTION
            };
            player.state.dx = slow_down(player.state.dx, friction, dt);
        }

        if player.inputs.jump && (player.on_ground || player.has_double_jump) {
            player.inputs.jump = false;

            if player.on_ground {
                if player.state.dy > -JUMP_SPEED {
                    player.state.dy = -JUMP_SPEED;
                }
            } else {
                player.has_double_jump = false;
                if player.state.dy > -DOUBLE_JUMP_SPEED {
                    player.state.dy = -DOUBLE_JUMP_SPEED;
                }
            }
        } else {
            player.state.dy = advance(player.state.dy, GRAVITY, dt);
        }
    }

    /// Tests the displacement of `player` against the solid tiles of `map`
    /// and responds to what is in the way, then lets every shot that
    /// overlaps the player wound it.
    pub fn process_collision(
        player: &mut Player,
        map: &TileMap,
        dt: u32,
        shot_controller: &mut ShotController,
    )
        requires
            map.wf(),
        ensures
            (*final(player), final(shot_controller).shots@) == struck(
                resolved(*old(player), tiles(*map), dt as int),
                old(shot_controller).shots@,
            ),
            final(shot_controller).next_id == old(shot_controller).next_id,
    {
        let cells = map.all_cells();
        match check(&*player, cells.as_slice(), dt) {
            Some(Collision::Side { x, y }) => {
                if x.is_some() {
                    player.state.dx = 0;
                }
                if let Some(cell) = y {
                    if player.state.dy > 0 {
                        player.state.y = distance(cell.y, player.state.height);
                        player.on_ground = true;
                        player.has_double_jump = true;
                    }
                    player.state.dy = 0;
                } else {
                    player.on_ground = false;
                }
            },
            Some(Collision::Corner { cell }) => {
                player.state.dx = 0;
                if player.state.dy > 0 {
                    player.state.y = distance(cell.y, player.state.height);
                    player.on_ground = true;
                    player.has_double_jump = true;
                }
            },
            None => {
                player.on_ground = false;
            },
        }
        let ghost mid = *player;
        assert(mid == resolved(*old(player), tiles(*map), dt as int));

        let mut k: usize = 0;
        while k < shot_controller.shots.len()
            invariant
                k <= shot_controller.shots.len(),
                shot_controller.shots.len() == old(shot_controller).shots.len(),
                shot_controller.next_id == old(shot_controller).next_id,
                (*player, shot_controller.shots@.take(k as int)) == struck(
                    mid,
                    old(shot_controller).shots@.take(k as int),
                ),
                forall|j: int|
                    k <= j < shot_controller.shots.len() ==> shot_controller.shots[j]
                        == old(shot_controller).shots[j],
            decreases shot_controller.shots.len() - k,
        {
            let ghost before = shot_controller.shots@;
            let ghost olds = old(shot_controller).shots@;
            if player.state.lives > 0 && shot_controller.shots[k].state.id.owner
                != player.state.name && collides(&*player, &shot_controller.shots[k]) {
                shot_controller.shots[k].state.lives = 0;
                player.state.lives -= 1;
                player.dirty = true;
            }
            proof {
                assert(olds.take(k + 1).drop_last() == olds.take(k as int));
                assert(olds.take(k + 1).last() == olds[k as int]);
                assert(shot_controller.shots@.take(k + 1) == before.take(k as int).push(
                    shot_controller.shots@[k as int],
                ));
            }
            k += 1;
        }
        proof {
            assert(shot_controller.shots@.take(k as int) == shot_controller.shots@);
            assert(old(shot_controller).shots@.take(k as int) == old(shot_controller).shots@);
        }
    }

    /// Displaces `player` by its velocity over `dt` microseconds.
    pub fn motion(player: &mut Player, dt: u32)
        ensures
            *final(player) == integrated(*old(player), dt as int),
    {
        player.state.x = advance(player.state.x, player.state.dx, dt);
        player.state.y = advance(player.state.y, player.state.dy, dt);
    }

    /// Whether some player has the color `c`.
    fn uses_color(&self, c: Color) -> (r: bool)
        ensures
            r == color_taken(self.players@, c),
    {
        let mut i: usize = 0;
        while i < self.players.len()
            invariant
                i <= self.players.len(),
                forall|j: int| 0 <= j < i ==> (#[trigger] self.players[j]).state.color != c,
            decreases self.players.len() - i,
        {
            if self.players[i].state.color == c {
                return true;
            }
            i += 1;
        }
        false
    }

    /// The first color of the palette that no player has, if any is left.
    pub fn get_free_color(&self) -> (r: Option<Color>)
        ensures
            r == free_color(self.players@),
    {
        let mut i: usize = 0;
        while i < PALETTE_SIZE
            invariant
                i <= PALETTE_SIZE,
                forall|j: int| 0 <= j < i ==> color_taken(self.players@, #[trigger] palette(j)),
            decreases PALETTE_SIZE - i,
        {
            let c = Color::from_palette(i);
            if !self.uses_color(c) {
                proof {
                    lemma_first_free_is(self.players@, i as int);
                }
                return Some(c);
            }
            i += 1;
        }
        None
    }
}

/// A player on the ground that holds no direction, or both, is slowed by
/// ground friction alone: in a tick of positive length of at most a
/// sixteenth of a second its horizontal velocity keeps its sign and comes
/// strictly closer to zero.
pub proof fn lemma_grounded_player_slows(p: Player, dt: int)
    requires
        p.on_ground,
        p.inputs.left == p.inputs.right,
        0 < dt,
        GROUND_FRICTION * dt <= MICROS,
    ensures
        steered(p, dt).state.dx == slowed(p.state.dx as int, GROUND_FRICTION as int, dt),
        p.state.dx > 0 ==> 0 <= steered(p, dt).state.dx < p.state.dx,
        p.state.dx < 0 ==> p.state.dx < steered(p, dt).state.dx <= 0,
        p.state.dx == 0 ==> steered(p, dt).state.dx == 0,
{
    lemma_friction_slows(p.state.dx as int, GROUND_FRICTION as int, dt);
}

/// Ground friction brings any horizontal velocity to rest within a bounded
/// number of such ticks, without oscillation: from tick to tick the
/// velocity moves toward zero and never past it, and it is zero once
/// `ticks` reaches the number of sub-units per second it started with.
pub proof fn lemma_ground_friction_stops(v: i64, dt: int, ticks: nat)
    requires
        0 < dt,
        GROUND_FRICTION * dt <= MICROS,
    ensures
        v >= 0 ==> 0 <= coasted(v as int, GROUND_FRICTION as int, dt, ticks + 1) <= coasted(
            v as int,
            GROUND_FRICTION as int,
            dt,
            ticks,
        ) <= v,
        v <= 0 ==> v <= coasted(v as int, GROUND_FRICTION as int, dt, ticks) <= coasted(
            v as int,
            GROUND_FRICTION as int,
            dt,
            ticks + 1,
        ) <= 0,
        ticks >= v && ticks >= -v ==> coasted(v as int, GROUND_FRICTION as int, dt, ticks) == 0,
{
    lemma_coasting_stops(v as int, GROUND_FRICTION as int, dt, ticks);
}

/// The player after `ticks` ticks of `dt` microseconds in which inputs,
/// friction and gravity act on its velocity and nothing else happens.
pub open spec fn steered_times(p: Player, dt: int, ticks: nat) -> Player
    decreases ticks,
{
    if ticks == 0 {
        p
    } else {
        steered(steered_times(p, dt, (ticks - 1) as nat), dt)
    }
}

/// Tick after tick, the horizontal velocity of a player on the ground
/// that holds no direction, or both, is what ground friction alone leaves
/// of it.
pub proof fn lemma_grounded_player_coasts(p: Player, dt: int, ticks: nat)
    requires
        p.on_ground,
        p.inputs.left == p.inputs.right,
        0 < dt,
        GROUND_FRICTION * dt <= MICROS,
    ensures
        steered_times(p, dt, ticks).state.dx == coasted(
            p.state.dx as int,
            GROUND_FRICTION as int,
            dt,
            ticks,
        ),
        steered_times(p, dt, ticks).on_ground,
        steered_times(p, dt, ticks).inputs.left == p.inputs.left,
        steered_times(p, dt, ticks).inputs.right == p.inputs.right,
    decreases ticks,
{
    if ticks > 0 {
        lemma_grounded_player_coasts(p, dt, (ticks - 1) as nat);
        lemma_coasting_stops(p.state.dx as int, GROUND_FRICTION as int, dt, (ticks - 1) as nat);
    }
}

/// The horizontal velocity of such a player decays at least as fast as
/// the powers of `1 - 16 * dt`, and it is exactly zero from the tick on in
/// which those powers have brought the bound below one sub-unit per
/// second.
pub proof fn lemma_grounded_player_rests(p: Player, dt: int, ticks: nat, later: nat)
    requires
        p.on_ground,
        p.inputs.left == p.inputs.right,
        0 < dt,
        GROUND_FRICTION * dt <= MICROS,
    ensures
        mag(steered_times(p, dt, ticks).state.dx as int) * pow(MICROS as int, ticks) <= mag(
            p.state.dx as int,
        ) * pow(MICROS - GROUND_FRICTION * dt, ticks),
        mag(p.state.dx as int) * pow(MICROS - GROUND_FRICTION * dt, ticks) < pow(
            MICROS as int,
            ticks,
        ) && later >= ticks ==> steered_times(p, dt, later).state.dx == 0,
{
    lemma_grounded_player_coasts(p, dt, ticks);
    lemma_grounded_player_coasts(p, dt, later);
    lemma_coasting_decays(p.state.dx as int, GROUND_FRICTION as int, dt, ticks);
    if mag(p.state.dx as int) * pow(MICROS - GROUND_FRICTION * dt, ticks) < pow(
        MICROS as int,
        ticks,
    ) && later >= ticks {
        lemma_coasting_rests(p.state.dx as int, GROUND_FRICTION as int, dt, ticks, later);
    }
}

/// A falling player whose way down is blocked by the tile `k` stands
/// exactly on that tile after the response, on the ground and with its
/// double jump restored, provided the position on top of the tile can be
/// represented.
pub proof fn lemma_landing(p: Player, cells: Seq<Cell>, dt: int, k: int)
    requires
        p.state.dy > 0,
        0 <= k < cells.len(),
        i64::MIN <= cells[k].y - p.state.height <= i64::MAX,
        match contact(p.rect(), p.state.dx as int, p.state.dy as int, rects(cells), dt) {
            Contact::Side { x, y } => y == Some(k),
            Contact::Corner { cell } => cell == k,
            Contact::Clear => false,
        },
    ensures
        resolved(p, cells, dt).state.y + resolved(p, cells, dt).state.height == cells[k].y,
        resolved(p, cells, dt).on_ground,
        resolved(p, cells, dt).has_double_jump,
{
}

/// The free color is a color of the palette that no player has: players
/// that are given the free color one after the other differ in color.
pub proof fn lemma_free_color_is_unused(players: Seq<Player>)
    requires
        free_color(players).is_some(),
    ensures
        !color_taken(players, free_color(players).unwrap()),
        exists|i: int| 0 <= i < PALETTE_SIZE && free_color(players).unwrap() == palette(i),
{
    let i = choose|i: int| is_first_free(players, i);
    assert(0 <= i < PALETTE_SIZE && free_color(players).unwrap() == palette(i));
}

/// There is at most one first free color.
pub proof fn lemma_first_free_is(players: Seq<Player>, i: int)
    requires
        is_first_free(players, i),
    ensures
        free_color(players) == Some(palette(i)),
{
    let k = choose|k: int| is_first_free(players, k);
    if k < i {
        assert(color_taken(players, palette(k)));
    } else if i < k {
        assert(color_taken(players, palette(i)));
    }
}

} // verus!
