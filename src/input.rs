//! What the held keys do to the camera, in steps of a tenth of a unit along
//! the camera's right, up and viewing directions.
use vstd::prelude::*;

verus! {

/// The keys that steer the camera.
#[derive(Clone, Copy, Debug, PartialEq, Eq, Structural)]
pub enum Key {
    A,
    D,
    W,
    S,
    R,
    F,
    Q,
    E,
    Up,
    Down,
    Left,
    Right,
    H,
    P,
}

/// Displacements of the camera's origin and target, in tenths of a unit
/// along its right, up and viewing directions.
#[derive(Clone, Copy, Debug, PartialEq, Eq, Structural)]
pub struct Motion {
    pub origin_right: i32,
    pub origin_up: i32,
    pub origin_forward: i32,
    pub target_right: i32,
    pub target_up: i32,
    pub target_forward: i32,
}

/// The camera's response to the keys held during a frame.
#[derive(Clone, Copy, Debug, PartialEq, Eq, Structural)]
pub struct InputResponse {
    pub motion: Motion,
    /// The bounce budget after the frame.
    pub depth: u32,
    /// Whether the view changed, so that the accumulated samples are stale.
    pub moved: bool,
    /// Whether the camera's position is to be printed.
    pub print: bool,
}

/// 1 when `k` is held, else 0.
pub open spec fn held(keys: Seq<Key>, k: Key) -> int {
    if keys.contains(k) {
        1
    } else {
        0
    }
}

/// The motion that the held keys ask for: A and D pan left and right, R and
/// F up and down (origin and target together); W and S move the origin
/// forward and back; E and Q jump ten units forward and back; the arrows
/// turn the target alone (Up lowers it, Down raises it).
pub open spec fn motion_of(keys: Seq<Key>) -> Motion {
    let pan_right = held(keys, Key::D) - held(keys, Key::A);
    let pan_up = held(keys, Key::R) - held(keys, Key::F);
    let jump = 100 * (held(keys, Key::E) - held(keys, Key::Q));
    Motion {
        origin_right: pan_right as i32,
        origin_up: pan_up as i32,
        origin_forward: (held(keys, Key::W) - held(keys, Key::S) + jump) as i32,
        target_right: (pan_right + held(keys, Key::Right) - held(keys, Key::Left)) as i32,
        target_up: (pan_up + held(keys, Key::Down) - held(keys, Key::Up)) as i32,
        target_forward: jump as i32,
    }
}

/// Whether one of the keys that change the view is held.
pub open spec fn moves(keys: Seq<Key>) -> bool {
    exists|k: Key| keys.contains(k) && k != Key::P
}

/// Whether `k` is among `keys`.
pub fn holds(keys: &Vec<Key>, k: Key) -> (r: bool)
    ensures
        r == keys@.contains(k),
{
    let mut i: usize = 0;
    while i < keys.len()
        invariant
            i <= keys@.len(),
            forall|j: int| 0 <= j < i ==> keys@[j] != k,
        decreases keys.len() - i,
    {
        if keys[i] == k {
            return true;
        }
        i = i + 1;
    }
    false
}

fn step(keys: &Vec<Key>, k: Key) -> (r: i32)
    ensures
        r == held(keys@, k),
{
    if holds(keys, k) {
        1
    } else {
        0
    }
}

/// The camera's response to the keys held during a frame, with bounce
/// budget `depth`: the motion, the budget (H toggles it between 512 and 2),
/// whether the view changed (any held key but P), and whether to print the
/// camera's position (P).
pub fn handle_input(keys: &Vec<Key>, depth: u32) -> (r: InputResponse)
    ensures
        r.motion == motion_of(keys@),
        r.depth == if keys@.contains(Key::H) {
            if depth == 512 {
                2
            } else {
                512
            }
        } else {
            depth
        },
        r.moved == moves(keys@),
        r.print == keys@.contains(Key::P),
{
    let pan_right = step(keys, Key::D) - step(keys, Key::A);
    let pan_up = step(keys, Key::R) - step(keys, Key::F);
    let jump = 100 * (step(keys, Key::E) - step(keys, Key::Q));
    let motion = Motion {
        origin_right: pan_right,
        origin_up: pan_up,
        origin_forward: step(keys, Key::W) - step(keys, Key::S) + jump,
        target_right: pan_right + step(keys, Key::Right) - step(keys, Key::Left),
        target_up: pan_up + step(keys, Key::Down) - step(keys, Key::Up),
        target_forward: jump,
    };
    let toggle = holds(keys, Key::H);
    let new_depth = if toggle {
        if depth == 512 {
            2
        } else {
            512
        }
    } else {
        depth
    };
    let mut moved = false;
    let mut i: usize = 0;
    while i < keys.len()
        invariant
            i <= keys@.len(),
            moved <==> exists|j: int| 0 <= j < i && keys@[j] != Key::P,
        decreases keys.len() - i,
    {
        if keys[i] != Key::P {
            moved = true;
        }
        i = i + 1;
    }
    proof {
        if moved {
            let j = choose|j: int| 0 <= j < i && keys@[j] != Key::P;
            assert(keys@.contains(keys@[j]));
        }
        if moves(keys@) {
            let k = choose|k: Key| keys@.contains(k) && k != Key::P;
            let j = choose|j: int| 0 <= j < keys@.len() && keys@[j] == k;
            assert(keys@[j] != Key::P);
        }
    }
    InputResponse { motion, depth: new_depth, moved, print: holds(keys, Key::P) }
}

} // verus!
