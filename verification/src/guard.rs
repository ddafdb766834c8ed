//! A guard pacing a field of obstacles: walk forward, turn right on a
//! block, and watch for a repeated position and heading.

use vstd::prelude::*;

use crate::field::Field;

verus! {

/// Side length of the guard's field.
pub const FIELD_SIZE: usize = 130;

/// More steps than distinct position-and-heading states exist, so a walk
/// that outlasts the budget has necessarily revisited a state.
pub const WALK_BUDGET: u32 = 16 * 130 * 130 + 8;

/// The four headings, clockwise from up, as column and row deltas.
pub open spec fn spec_dir_delta(index: usize) -> (i32, i32) {
    if index == 0 {
        (0i32, -1i32)
    } else if index == 1 {
        (1i32, 0i32)
    } else if index == 2 {
        (0i32, 1i32)
    } else {
        (-1i32, 0i32)
    }
}

pub fn dir_delta(index: usize) -> (r: (i32, i32))
    requires
        index < 4,
    ensures
        r == spec_dir_delta(index),
        -1 <= r.0 <= 1,
        -1 <= r.1 <= 1,
{
    match index {
        0 => (0, -1),
        1 => (1, 0),
        2 => (0, 1),
        _ => (-1, 0),
    }
}

/// Whether a position lies on the field.
pub open spec fn on_field(pos: (i32, i32)) -> bool {
    0 <= pos.0 < FIELD_SIZE && 0 <= pos.1 < FIELD_SIZE
}

/// The guard's walk leaves the field within `fuel` turns and moves: the
/// guard stands off the field, is about to step off it, or gets there
/// after a turn or a move.
pub open spec fn spec_walk_exits(
    ob: Field<FIELD_SIZE, FIELD_SIZE, bool>,
    pos: (i32, i32),
    dir: usize,
    fuel: nat,
) -> bool
    decreases fuel,
{
    if !on_field(pos) {
        true
    } else {
        let d = spec_dir_delta(dir);
        let next = (pos.0 + d.0, pos.1 + d.1);
        if !(0 <= next.0 < FIELD_SIZE && 0 <= next.1 < FIELD_SIZE) {
            true
        } else if fuel == 0 {
            false
        } else if ob.at(next.1 as int, next.0 as int) {
            spec_walk_exits(ob, pos, ((dir + 1) % 4) as usize, (fuel - 1) as nat)
        } else {
            spec_walk_exits(ob, (next.0 as i32, next.1 as i32), dir, (fuel - 1) as nat)
        }
    }
}

/// Whether the guard, walking from `guard_pos` with heading
/// `guard_dir_index`, never leaves the field.
///
/// A `false` verdict is certified: the walk provably leaves the field
/// within some number of steps. A `true` verdict comes from seeing a
/// cell revisited under its earlier heading, or from the walk outlasting
/// [`WALK_BUDGET`] steps — more than the distinct position-and-heading
/// states — both of which pin the deterministic walk in a cycle, though
/// only the exit direction is stated here.
#[verifier::loop_isolation(false)]
pub fn loops(
    obstacles: &Field<FIELD_SIZE, FIELD_SIZE, bool>,
    guard_pos: (i32, i32),
    guard_dir_index: usize,
) -> (r: bool)
    requires
        obstacles.wf(),
        guard_dir_index < 4,
    ensures
        !r ==> exists|fuel: nat| spec_walk_exits(*obstacles, guard_pos, guard_dir_index, fuel),
{
    let mut directions = Field::<FIELD_SIZE, FIELD_SIZE, Option<usize>>::new();
    let mut pos = guard_pos;
    let mut dir_index = guard_dir_index;
    let mut fuel: u32 = WALK_BUDGET;
    let ghost mut steps: nat = 0;
    let size = FIELD_SIZE as i32;
    loop
        invariant
            directions.wf(),
            dir_index < 4,
            forall|m: nat|
                spec_walk_exits(*obstacles, pos, dir_index, m) ==> spec_walk_exits(
                    *obstacles,
                    guard_pos,
                    guard_dir_index,
                    m + steps,
                ),
        decreases fuel,
    {
        if fuel == 0 {
            return true;
        }
        fuel -= 1;
        if !(pos.0 >= 0 && pos.0 < size && pos.1 >= 0 && pos.1 < size) {
            proof {
                assert(spec_walk_exits(*obstacles, pos, dir_index, 0));
            }
            return false;
        }
        let delta = dir_delta(dir_index);
        let next = (pos.0 + delta.0, pos.1 + delta.1);
        if next.0 < 0 || next.0 >= size || next.1 < 0 || next.1 >= size {
            // the guard is about to leave the field
            proof {
                assert(spec_walk_exits(*obstacles, pos, dir_index, 0));
            }
            return false;
        }
        let ghost pos0 = pos;
        let ghost dir0 = dir_index;
        if obstacles.get(next.1, next.0) {
            dir_index = (dir_index + 1) % 4;
        } else {
            match directions.get(pos.1, pos.0) {
                Some(seen) => {
                    if seen == dir_index {
                        // same cell, same heading: the walk repeats
                        return true;
                    }
                },
                None => {},
            }
            directions.set(pos.1, pos.0, Some(dir_index));
            pos = next;
        }
        proof {
            assert forall|m: nat|
                spec_walk_exits(*obstacles, pos, dir_index, m) implies spec_walk_exits(
                *obstacles,
                guard_pos,
                guard_dir_index,
                m + (steps + 1),
            ) by {
                assert(spec_walk_exits(*obstacles, pos0, dir0, m + 1));
            }
            steps = steps + 1;
        }
    }
}

} // verus!
