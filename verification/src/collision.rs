//! The motion and collision resolver, shared by players and shots.
//!
//! A moving body is tested against static obstacles at three hypothetical
//! positions: moved along x only, moved along y only, and moved along both
//! axes. The resolver is pure; the caller decides how to respond.

use crate::entity::{Bounds, Rect, Speed};
use crate::units::{advance, moved};
use vstd::prelude::*;

verus! {

/// What `check` found in the way of a moving body.
#[derive(Debug)]
pub enum Collision<'a, B: Bounds> {
    /// At least one single-axis sweep hit an obstacle: the one hit when
    /// moving along x only, and the one hit when moving along y only.
    Side { x: Option<&'a B>, y: Option<&'a B> },
    /// Neither single-axis sweep hit anything, but the diagonal one did.
    Corner { cell: &'a B },
}

/// Two rectangles overlap when their interiors meet; rectangles that only
/// share an edge or a corner do not.
pub open spec fn overlaps(a: Rect, b: Rect) -> bool {
    a.x < b.x + b.w && a.x + a.w > b.x && a.y < b.y + b.h && a.y + a.h > b.y
}

/// Two rectangles touch along an edge: one ends exactly where the other
/// begins, horizontally or vertically.
pub open spec fn touching(a: Rect, b: Rect) -> bool {
    a.x + a.w == b.x || b.x + b.w == a.x || a.y + a.h == b.y || b.y + b.h == a.y
}

/// The rectangles of a sequence of bodies, in order.
pub open spec fn rects<B: Bounds>(bodies: Seq<B>) -> Seq<Rect> {
    Seq::new(bodies.len(), |i: int| bodies[i].rect())
}

/// `i` is the first obstacle, in iteration order, that `subject` overlaps.
pub open spec fn is_first_hit(subject: Rect, obstacles: Seq<Rect>, i: int) -> bool {
    &&& 0 <= i < obstacles.len()
    &&& overlaps(subject, obstacles[i])
    &&& forall|j: int| 0 <= j < i ==> !overlaps(subject, #[trigger] obstacles[j])
}

/// `subject` overlaps at least one of the obstacles.
pub open spec fn hits_any(subject: Rect, obstacles: Seq<Rect>) -> bool {
    exists|i: int| 0 <= i < obstacles.len() && overlaps(subject, #[trigger] obstacles[i])
}

/// Index of the first obstacle that `subject` overlaps, if there is one.
pub open spec fn first_hit(subject: Rect, obstacles: Seq<Rect>) -> Option<int> {
    if hits_any(subject, obstacles) {
        Some(choose|i: int| is_first_hit(subject, obstacles, i))
    } else {
        None
    }
}

/// The rectangle `r` displaced as far as a body with velocity `(vx, vy)`
/// travels in `dt` microseconds.
pub open spec fn swept(r: Rect, vx: int, vy: int, dt: int) -> Rect {
    Rect { x: moved(r.x, vx, dt), y: moved(r.y, vy, dt), w: r.w, h: r.h }
}

/// The outcome of a sweep, with obstacles named by their index.
pub ghost enum Contact {
    Clear,
    Side { x: Option<int>, y: Option<int> },
    Corner { cell: int },
}

/// Classifies the displacement of `subject` by its velocity over `dt`
/// microseconds against `obstacles`.
pub open spec fn contact(
    subject: Rect,
    vx: int,
    vy: int,
    obstacles: Seq<Rect>,
    dt: int,
) -> Contact {
    let x = first_hit(swept(subject, vx, 0, dt), obstacles);
    let y = first_hit(swept(subject, 0, vy, dt), obstacles);
    let xy = first_hit(swept(subject, vx, vy, dt), obstacles);
    if x.is_some() || y.is_some() {
        Contact::Side { x, y }
    } else if xy.is_some() {
        Contact::Corner { cell: xy.unwrap() }
    } else {
        Contact::Clear
    }
}

/// The obstacle `found` is the one that `index` names.
pub open spec fn names<B: Bounds>(
    found: Option<&B>,
    index: Option<int>,
    obstacles: Seq<B>,
) -> bool {
    match (found, index) {
        (Some(b), Some(i)) => 0 <= i < obstacles.len() && *b == obstacles[i],
        (None, None) => true,
        _ => false,
    }
}

/// The collision `found` is the outcome `c`, over the same obstacles.
pub open spec fn reports<B: Bounds>(
    found: Option<Collision<B>>,
    c: Contact,
    obstacles: Seq<B>,
) -> bool {
    match (found, c) {
        (None, Contact::Clear) => true,
        (Some(Collision::Side { x, y }), Contact::Side { x: cx, y: cy }) => names(x, cx, obstacles)
            && names(y, cy, obstacles),
        (Some(Collision::Corner { cell }), Contact::Corner { cell: i }) => names(
            Some(cell),
            Some(i),
            obstacles,
        ),
        _ => false,
    }
}

/// Overlap is symmetric.
pub proof fn lemma_overlaps_symmetric(a: Rect, b: Rect)
    ensures
        overlaps(a, b) == overlaps(b, a),
{
}

/// Rectangles that merely touch along an edge do not overlap.
pub proof fn lemma_touching_is_no_overlap(a: Rect, b: Rect)
    requires
        touching(a, b),
    ensures
        !overlaps(a, b),
{
}

/// There is at most one first hit.
pub proof fn lemma_first_hit_is(subject: Rect, obstacles: Seq<Rect>, i: int)
    requires
        is_first_hit(subject, obstacles, i),
    ensures
        first_hit(subject, obstacles) == Some(i),
{
    let k = choose|k: int| is_first_hit(subject, obstacles, k);
    if k < i {
        assert(!overlaps(subject, obstacles[k]));
    } else if i < k {
        assert(!overlaps(subject, obstacles[i]));
    }
}

/// Whether two bodies overlap.
pub fn collides<A: Bounds, B: Bounds>(a: &A, b: &B) -> (r: bool)
    ensures
        r == overlaps(a.rect(), b.rect()),
{
    let ax: i128 = a.x() as i128;
    let ay: i128 = a.y() as i128;
    let aw: i128 = a.w() as i128;
    let ah: i128 = a.h() as i128;
    let bx: i128 = b.x() as i128;
    let by: i128 = b.y() as i128;
    let bw: i128 = b.w() as i128;
    let bh: i128 = b.h() as i128;
    ax < bx + bw && ax + aw > bx && ay < by + bh && ay + ah > by
}

/// The first obstacle that `subject` overlaps.
fn find<'a, B: Bounds>(subject: &[i64; 4], obstacles: &'a [B]) -> (r: Option<&'a B>)
    ensures
        names(r, first_hit(subject.rect(), rects(obstacles@)), obstacles@),
{
    let mut i: usize = 0;
    while i < obstacles.len()
        invariant
            i <= obstacles.len(),
            forall|j: int| 0 <= j < i
                ==> !overlaps(subject.rect(), #[trigger] rects(obstacles@)[j]),
        decreases obstacles.len() - i,
    {
        if collides(subject, &obstacles[i]) {
            proof {
                lemma_first_hit_is(subject.rect(), rects(obstacles@), i as int);
            }
            return Some(&obstacles[i]);
        }
        i += 1;
    }
    None
}

/// Tests the displacement of `entity` over `dt` microseconds against
/// `obstacles` and classifies the collision. For each sweep the first
/// overlapping obstacle in iteration order is the one reported.
pub fn check<'a, E: Bounds + Speed, B: Bounds>(entity: &E, obstacles: &'a [B], dt: u32) -> (r:
    Option<Collision<'a, B>>)
    ensures
        reports(
            r,
            contact(
                entity.rect(),
                entity.velocity().0,
                entity.velocity().1,
                rects(obstacles@),
                dt as int,
            ),
            obstacles@,
        ),
{
    let new_x = advance(entity.x(), entity.dx(), dt);
    let new_y = advance(entity.y(), entity.dy(), dt);

    let moved_x = [new_x, entity.y(), entity.w(), entity.h()];
    let collides_x = find(&moved_x, obstacles);

    let moved_y = [entity.x(), new_y, entity.w(), entity.h()];
    let collides_y = find(&moved_y, obstacles);

    assert(moved_x.rect() == swept(entity.rect(), entity.velocity().0, 0, dt as int));
    assert(moved_y.rect() == swept(entity.rect(), 0, entity.velocity().1, dt as int));
    if collides_x.is_some() || collides_y.is_some() {
        Some(Collision::Side { x: collides_x, y: collides_y })
    } else {
        let moved_xy = [new_x, new_y, entity.w(), entity.h()];
        assert(moved_xy.rect() == swept(
            entity.rect(),
            entity.velocity().0,
            entity.velocity().1,
            dt as int,
        ));
        match find(&moved_xy, obstacles) {
            Some(cell) => Some(Collision::Corner { cell }),
            None => None,
        }
    }
}

} // verus!
