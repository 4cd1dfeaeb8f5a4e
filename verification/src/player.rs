use vstd::prelude::*;
use crate::block::type_is_solid;
use crate::chunk::CHUNK_HEIGHT;
use crate::world::{World, clamp_height};

verus! {

/// Which ways the player wants to move, as set by the keys held.
#[derive(Debug, Clone, Copy, PartialEq, Eq, Structural)]
pub struct PlayerMovementIntention {
    pub forward: bool,
    pub backward: bool,
    pub left: bool,
    pub right: bool,
    pub jump: bool,
}

/// The keys the game reacts to, grouped by what they do.
#[derive(Debug, Clone, Copy, PartialEq, Eq, Structural)]
pub enum GameKey {
    /// W or the up arrow.
    Forward,
    /// S or the down arrow.
    Backward,
    /// A or the left arrow.
    Left,
    /// D or the right arrow.
    Right,
    /// The space bar.
    Jump,
    /// Either shift key.
    Shift,
    Escape,
    /// F3, which shows or hides the debug overlay.
    ToggleDebug,
    /// Any other key.
    Other,
}

/// What a key event does to the movement intention: the matching flag
/// follows the key.  The result is the new intention, whether the event was
/// handled, and whether the debug overlay is to be toggled.
pub open spec fn key_effect(m: PlayerMovementIntention, key: GameKey, pressed: bool) -> (
    PlayerMovementIntention,
    bool,
    bool,
) {
    match key {
        GameKey::Forward => (PlayerMovementIntention { forward: pressed, ..m }, true, false),
        GameKey::Backward => (PlayerMovementIntention { backward: pressed, ..m }, true, false),
        GameKey::Left => (PlayerMovementIntention { left: pressed, ..m }, true, false),
        GameKey::Right => (PlayerMovementIntention { right: pressed, ..m }, true, false),
        GameKey::Jump => (PlayerMovementIntention { jump: pressed, ..m }, true, false),
        GameKey::ToggleDebug => (m, true, pressed),
        _ => (m, false, false),
    }
}

impl PlayerMovementIntention {
    /// No movement wanted.
    pub fn new() -> (m: Self)
        ensures
            m == (PlayerMovementIntention { forward: false, backward: false, left: false, right: false, jump: false }),
    {
        PlayerMovementIntention { forward: false, backward: false, left: false, right: false, jump: false }
    }

    /// Applies a key press (`pressed`) or release.  Returns whether the
    /// event was handled here and whether the debug overlay is to be
    /// toggled.
    pub fn apply_key(&mut self, key: GameKey, pressed: bool) -> (r: (bool, bool))
        ensures
            (*final(self), r.0, r.1) == key_effect(*old(self), key, pressed),
            final(self).forward == if key == GameKey::Forward {
                pressed
            } else {
                old(self).forward
            },
            final(self).backward == if key == GameKey::Backward {
                pressed
            } else {
                old(self).backward
            },
            final(self).left == if key == GameKey::Left {
                pressed
            } else {
                old(self).left
            },
            final(self).right == if key == GameKey::Right {
                pressed
            } else {
                old(self).right
            },
            final(self).jump == if key == GameKey::Jump {
                pressed
            } else {
                old(self).jump
            },
            r.0 <==> (key == GameKey::Forward || key == GameKey::Backward || key == GameKey::Left || key
                == GameKey::Right || key == GameKey::Jump || key == GameKey::ToggleDebug),
            r.1 <==> (key == GameKey::ToggleDebug && pressed),
    {
        match key {
            GameKey::Forward => {
                self.forward = pressed;
                (true, false)
            },
            GameKey::Backward => {
                self.backward = pressed;
                (true, false)
            },
            GameKey::Left => {
                self.left = pressed;
                (true, false)
            },
            GameKey::Right => {
                self.right = pressed;
                (true, false)
            },
            GameKey::Jump => {
                self.jump = pressed;
                (true, false)
            },
            GameKey::ToggleDebug => (true, pressed),
            _ => (false, false),
        }
    }
}

/// Each movement key sets the flag of its own direction to whether it is
/// held and leaves every other flag alone; F3 only toggles the overlay (on
/// a press), and other keys are not handled and change nothing.
pub proof fn law_each_key_moves_its_own_way(m: PlayerMovementIntention, key: GameKey, pressed: bool)
    ensures
        key_effect(m, key, pressed).0.forward == (if key == GameKey::Forward { pressed } else { m.forward }),
        key_effect(m, key, pressed).0.backward == (if key == GameKey::Backward { pressed } else { m.backward }),
        key_effect(m, key, pressed).0.left == (if key == GameKey::Left { pressed } else { m.left }),
        key_effect(m, key, pressed).0.right == (if key == GameKey::Right { pressed } else { m.right }),
        key_effect(m, key, pressed).0.jump == (if key == GameKey::Jump { pressed } else { m.jump }),
        key_effect(m, key, pressed).1 <==> (key == GameKey::Forward || key == GameKey::Backward || key == GameKey::Left
            || key == GameKey::Right || key == GameKey::Jump || key == GameKey::ToggleDebug),
        key_effect(m, key, pressed).2 <==> (key == GameKey::ToggleDebug && pressed),
{
}

/// Pressing a movement key and releasing it again leaves the intention as
/// it was before the press, when that key was not held.
pub proof fn law_press_then_release_restores(m: PlayerMovementIntention, key: GameKey)
    requires
        key == GameKey::Forward ==> !m.forward,
        key == GameKey::Backward ==> !m.backward,
        key == GameKey::Left ==> !m.left,
        key == GameKey::Right ==> !m.right,
        key == GameKey::Jump ==> !m.jump,
    ensures
        key_effect(key_effect(m, key, true).0, key, false).0 == m,
{
}

/// The block at world position (x, y, z) is loaded, inside the world's
/// height, and stops the player.
pub open spec fn solid_at(w: World, x: int, y: int, z: int) -> bool {
    &&& 0 <= y < CHUNK_HEIGHT
    &&& w.block_at(x, y, z) matches Some(b) && type_is_solid(b.block_type)
}

/// Position `a` comes before position `b`: by x, then y, then z.
pub open spec fn lex_before(a: (i32, i32, i32), b: (i32, i32, i32)) -> bool {
    a.0 < b.0 || (a.0 == b.0 && (a.1 < b.1 || (a.1 == b.1 && a.2 < b.2)))
}

/// Position `p` lies in the box from `lo` (included) to `hi` (excluded).
pub open spec fn in_box(p: (i32, i32, i32), lo: (i32, i32, i32), hi: (i32, i32, i32)) -> bool {
    lo.0 <= p.0 < hi.0 && lo.1 <= p.1 < hi.1 && lo.2 <= p.2 < hi.2
}

impl World {
    /// The solid blocks whose positions lie in the box from `lo` (included)
    /// to `hi` (excluded), ordered by x, then y, then z: the blocks the
    /// player may collide with.
    pub fn solid_blocks_in(&self, lo: (i32, i32, i32), hi: (i32, i32, i32)) -> (r: Vec<(i32, i32, i32)>)
        requires
            self.wf(),
        ensures
            forall|j: int|
                0 <= j < r.len() ==> in_box(#[trigger] r@[j], lo, hi) && solid_at(
                    *self,
                    r@[j].0 as int,
                    r@[j].1 as int,
                    r@[j].2 as int,
                ),
            forall|j: int, k: int| 0 <= j < k < r.len() ==> lex_before(#[trigger] r@[j], #[trigger] r@[k]),
            forall|p: (i32, i32, i32)|
                in_box(p, lo, hi) && #[trigger] solid_at(*self, p.0 as int, p.1 as int, p.2 as int) ==> r@.contains(p),
    {
        let mut r: Vec<(i32, i32, i32)> = Vec::new();
        let mut x = lo.0;
        while x < hi.0
            invariant
                self.wf(),
                lo.0 <= x,
                x <= hi.0 || x == lo.0,
                forall|j: int|
                    0 <= j < r.len() ==> in_box(#[trigger] r@[j], lo, hi) && solid_at(
                        *self,
                        r@[j].0 as int,
                        r@[j].1 as int,
                        r@[j].2 as int,
                    ) && r@[j].0 < x,
                forall|j: int, k: int| 0 <= j < k < r.len() ==> lex_before(#[trigger] r@[j], #[trigger] r@[k]),
                forall|p: (i32, i32, i32)|
                    in_box(p, lo, hi) && p.0 < x && #[trigger] solid_at(*self, p.0 as int, p.1 as int, p.2 as int)
                        ==> r@.contains(p),
            decreases hi.0 - x,
        {
            let mut y = lo.1;
            while y < hi.1
                invariant
                    self.wf(),
                    lo.0 <= x < hi.0,
                    lo.1 <= y,
                    y <= hi.1 || y == lo.1,
                    forall|j: int|
                        0 <= j < r.len() ==> in_box(#[trigger] r@[j], lo, hi) && solid_at(
                            *self,
                            r@[j].0 as int,
                            r@[j].1 as int,
                            r@[j].2 as int,
                        ) && (r@[j].0 < x || (r@[j].0 == x && r@[j].1 < y)),
                    forall|j: int, k: int| 0 <= j < k < r.len() ==> lex_before(#[trigger] r@[j], #[trigger] r@[k]),
                    forall|p: (i32, i32, i32)|
                        in_box(p, lo, hi) && (p.0 < x || (p.0 == x && p.1 < y)) && #[trigger] solid_at(
                            *self,
                            p.0 as int,
                            p.1 as int,
                            p.2 as int,
                        ) ==> r@.contains(p),
                decreases hi.1 - y,
            {
                let mut z = lo.2;
                while z < hi.2
                    invariant
                        self.wf(),
                        lo.0 <= x < hi.0,
                        lo.1 <= y < hi.1,
                        lo.2 <= z,
                        z <= hi.2 || z == lo.2,
                        forall|j: int|
                            0 <= j < r.len() ==> in_box(#[trigger] r@[j], lo, hi) && solid_at(
                                *self,
                                r@[j].0 as int,
                                r@[j].1 as int,
                                r@[j].2 as int,
                            ) && lex_before(r@[j], (x, y, z)),
                        forall|j: int, k: int| 0 <= j < k < r.len() ==> lex_before(#[trigger] r@[j], #[trigger] r@[k]),
                        forall|p: (i32, i32, i32)|
                            in_box(p, lo, hi) && lex_before(p, (x, y, z)) && #[trigger] solid_at(
                                *self,
                                p.0 as int,
                                p.1 as int,
                                p.2 as int,
                            ) ==> r@.contains(p),
                    decreases hi.2 - z,
                {
                    if y >= 0 && y < CHUNK_HEIGHT as i32 {
                        proof {
                            assert(clamp_height(y as int) == y as int);
                        }
                        if let Some(block) = self.get_block_at_world(x, y, z) {
                            if block.is_solid() {
                                let ghost r0 = r@;
                                r.push((x, y, z));
                                proof {
                                    assert(r@[r0.len() as int] == (x, y, z));
                                    assert forall|p: (i32, i32, i32)|
                                        in_box(p, lo, hi) && lex_before(p, (x, y, (z + 1) as i32)) && #[trigger] solid_at(
                                            *self,
                                            p.0 as int,
                                            p.1 as int,
                                            p.2 as int,
                                        ) implies r@.contains(p) by {
                                        if p == (x, y, z) {
                                            assert(r@[r0.len() as int] == p);
                                        } else {
                                            let j = choose|j: int| 0 <= j < r0.len() && r0[j] == p;
                                            assert(r@[j] == p);
                                        }
                                    }
                                }
                            }
                        }
                    }
                    z = z + 1;
                }
                y = y + 1;
            }
            x = x + 1;
        }
        r
    }
}

} // verus!
