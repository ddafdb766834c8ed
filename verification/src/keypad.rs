//! Shortest key sequences for chained numeric and directional keypads.

use vstd::prelude::*;

verus! {

/// A two-dimensional key position, bottom-left origin.
#[derive(Debug, Clone, Copy, PartialEq, Eq, Structural)]
pub struct Vector {
    pub x: i32,
    pub y: i32,
}

/// A move of the remote arm, one key in a cardinal direction.
///
/// The variant order matters: cheaper-to-reach moves order later, and
/// sequences are compared lexicographically by this order.
#[derive(Clone, Copy, PartialEq, Eq, PartialOrd, Ord, Structural, Debug)]
pub enum Direction {
    Left,
    Down,
    Up,
    Right,
}

impl Direction {
    /// The position of each variant in the declared order.
    pub open spec fn spec_rank(self) -> int {
        match self {
            Direction::Left => 0,
            Direction::Down => 1,
            Direction::Up => 2,
            Direction::Right => 3,
        }
    }

    pub fn rank(self) -> (r: u8)
        ensures
            r == self.spec_rank(),
    {
        match self {
            Direction::Left => 0,
            Direction::Down => 1,
            Direction::Up => 2,
            Direction::Right => 3,
        }
    }
}

/// Lexicographic order on move sequences, by the declared variant order.
pub open spec fn spec_lex_le(a: Seq<Direction>, b: Seq<Direction>) -> bool
    decreases a.len(),
{
    if a.len() == 0 {
        true
    } else if b.len() == 0 {
        false
    } else if a.first().spec_rank() < b.first().spec_rank() {
        true
    } else if a.first().spec_rank() > b.first().spec_rank() {
        false
    } else {
        spec_lex_le(a.drop_first(), b.drop_first())
    }
}

/// Compares two move sequences lexicographically.
pub fn lex_le(a: &Vec<Direction>, b: &Vec<Direction>) -> (r: bool)
    ensures
        r == spec_lex_le(a@, b@),
{
    let mut i: usize = 0;
    proof {
        assert(a@.skip(0) =~= a@);
        assert(b@.skip(0) =~= b@);
    }
    loop
        invariant
            i <= a.len(),
            i <= b.len(),
            spec_lex_le(a@, b@) == spec_lex_le(a@.skip(i as int), b@.skip(i as int)),
        decreases a@.len() - i,
    {
        if i == a.len() {
            assert(a@.skip(i as int).len() == 0);
            return true;
        }
        if i == b.len() {
            assert(b@.skip(i as int).len() == 0);
            return false;
        }
        let ra = a[i].rank();
        let rb = b[i].rank();
        assert(a@.skip(i as int).first() == a@[i as int] && b@.skip(i as int).first() == b@[i
            as int]);
        if ra < rb {
            return true;
        }
        if ra > rb {
            return false;
        }
        proof {
            assert(a@.skip(i as int).drop_first() =~= a@.skip(i as int + 1));
            assert(b@.skip(i as int).drop_first() =~= b@.skip(i as int + 1));
        }
        i += 1;
    }
}

/// A sequence of `n` copies of one move.
pub open spec fn spec_repeat(d: Direction, n: nat) -> Seq<Direction> {
    Seq::new(n, |i: int| d)
}

/// Builds a run of `n` copies of one move.
pub fn repeat_dir(d: Direction, n: usize) -> (r: Vec<Direction>)
    ensures
        r@ == spec_repeat(d, n as nat),
{
    let mut r: Vec<Direction> = Vec::new();
    for i in 0..n
        invariant
            r@.len() == i,
            forall|j: int| 0 <= j < i ==> r@[j] == d,
    {
        r.push(d);
    }
    proof {
        assert(r@ =~= spec_repeat(d, n as nat));
    }
    r
}

/// The keys of the numeric pad.
#[derive(Clone, Copy, PartialEq, Eq, Structural, Debug)]
pub enum NumpadKey {
    N0,
    N1,
    N2,
    N3,
    N4,
    N5,
    N6,
    N7,
    N8,
    N9,
    A,
}

impl NumpadKey {
    pub open spec fn spec_position(self) -> Vector {
        match self {
            NumpadKey::N0 => Vector { x: 1, y: 0 },
            NumpadKey::A => Vector { x: 2, y: 0 },
            NumpadKey::N1 => Vector { x: 0, y: 1 },
            NumpadKey::N2 => Vector { x: 1, y: 1 },
            NumpadKey::N3 => Vector { x: 2, y: 1 },
            NumpadKey::N4 => Vector { x: 0, y: 2 },
            NumpadKey::N5 => Vector { x: 1, y: 2 },
            NumpadKey::N6 => Vector { x: 2, y: 2 },
            NumpadKey::N7 => Vector { x: 0, y: 3 },
            NumpadKey::N8 => Vector { x: 1, y: 3 },
            NumpadKey::N9 => Vector { x: 2, y: 3 },
        }
    }

    /// Where this key sits on the pad.
    pub fn position(&self) -> (r: Vector)
        ensures
            r == self.spec_position(),
    {
        match self {
            NumpadKey::N0 => Vector { x: 1, y: 0 },
            NumpadKey::A => Vector { x: 2, y: 0 },
            NumpadKey::N1 => Vector { x: 0, y: 1 },
            NumpadKey::N2 => Vector { x: 1, y: 1 },
            NumpadKey::N3 => Vector { x: 2, y: 1 },
            NumpadKey::N4 => Vector { x: 0, y: 2 },
            NumpadKey::N5 => Vector { x: 1, y: 2 },
            NumpadKey::N6 => Vector { x: 2, y: 2 },
            NumpadKey::N7 => Vector { x: 0, y: 3 },
            NumpadKey::N8 => Vector { x: 1, y: 3 },
            NumpadKey::N9 => Vector { x: 2, y: 3 },
        }
    }

    /// The key a digit or `A` names, if any.
    pub fn from_char(c: char) -> (r: Option<NumpadKey>)
        ensures
            r is Some <==> (c == '0' || c == '1' || c == '2' || c == '3' || c == '4' || c == '5'
                || c == '6' || c == '7' || c == '8' || c == '9' || c == 'A'),
    {
        match c {
            '0' => Some(NumpadKey::N0),
            '1' => Some(NumpadKey::N1),
            '2' => Some(NumpadKey::N2),
            '3' => Some(NumpadKey::N3),
            '4' => Some(NumpadKey::N4),
            '5' => Some(NumpadKey::N5),
            '6' => Some(NumpadKey::N6),
            '7' => Some(NumpadKey::N7),
            '8' => Some(NumpadKey::N8),
            '9' => Some(NumpadKey::N9),
            'A' => Some(NumpadKey::A),
            _ => None,
        }
    }
}

/// The keys of the directional pad.
#[derive(Debug, Clone, Copy, PartialEq, Eq, Structural)]
pub enum DirpadKey {
    Up,
    Left,
    Down,
    Right,
    A,
}

impl DirpadKey {
    pub open spec fn spec_position(self) -> Vector {
        match self {
            DirpadKey::Up => Vector { x: 1, y: 1 },
            DirpadKey::A => Vector { x: 2, y: 1 },
            DirpadKey::Left => Vector { x: 0, y: 0 },
            DirpadKey::Down => Vector { x: 1, y: 0 },
            DirpadKey::Right => Vector { x: 2, y: 0 },
        }
    }

    /// Where this key sits on the pad.
    pub fn position(&self) -> (r: Vector)
        ensures
            r == self.spec_position(),
    {
        match self {
            DirpadKey::Up => Vector { x: 1, y: 1 },
            DirpadKey::A => Vector { x: 2, y: 1 },
            DirpadKey::Left => Vector { x: 0, y: 0 },
            DirpadKey::Down => Vector { x: 1, y: 0 },
            DirpadKey::Right => Vector { x: 2, y: 0 },
        }
    }

    /// A distinct small index for each key.
    pub open spec fn spec_rank(self) -> int {
        match self {
            DirpadKey::Up => 0,
            DirpadKey::Left => 1,
            DirpadKey::Down => 2,
            DirpadKey::Right => 3,
            DirpadKey::A => 4,
        }
    }

    pub fn rank(self) -> (r: u64)
        ensures
            r == self.spec_rank(),
            r < 5,
    {
        match self {
            DirpadKey::Up => 0,
            DirpadKey::Left => 1,
            DirpadKey::Down => 2,
            DirpadKey::Right => 3,
            DirpadKey::A => 4,
        }
    }
}

/// Whether a straight-then-straight move sequence between two numeric-pad
/// keys avoids the pad's blank corner, judged by its first and last move.
pub open spec fn spec_numpad_safe(
    start: NumpadKey,
    end: NumpadKey,
    first: Direction,
    last: Direction,
) -> bool {
    if start == NumpadKey::N0 {
        first == Direction::Up || first == Direction::Right
    } else if end == NumpadKey::N0 {
        last == Direction::Down || last == Direction::Left
    } else if start == NumpadKey::A && (end == NumpadKey::N1 || end == NumpadKey::N4 || end
        == NumpadKey::N7) {
        first == Direction::Up
    } else if (start == NumpadKey::N1 || start == NumpadKey::N4 || start == NumpadKey::N7) && end
        == NumpadKey::A {
        last == Direction::Down
    } else {
        true
    }
}

/// Whether a move sequence between two directional-pad keys avoids the
/// pad's blank corner, judged by its first and last move.
pub open spec fn spec_dirpad_safe(
    start: DirpadKey,
    end: DirpadKey,
    first: Direction,
    last: Direction,
) -> bool {
    if start == DirpadKey::Left {
        first == Direction::Right
    } else if end == DirpadKey::Left {
        last == Direction::Left
    } else {
        true
    }
}

/// The numeric pad.
pub struct Numpad {}

/// The directional pad.
pub struct Dirpad {}

impl Numpad {
    /// The key the remote arm rests on at first.
    pub fn start_key() -> (r: NumpadKey)
        ensures
            r == NumpadKey::A,
    {
        NumpadKey::A
    }

    /// Whether `moves` keeps the arm away from the pad's blank corner.
    pub fn are_moves_safe(start: NumpadKey, end: NumpadKey, moves: &Vec<Direction>) -> (r: bool)
        ensures
            r == (moves@.len() == 0 || spec_numpad_safe(start, end, moves@.first(), moves@.last())),
    {
        if moves.len() == 0 {
            return true;
        }
        let first_move = moves[0];
        let last_move = moves[moves.len() - 1];
        match (start, end) {
            (NumpadKey::N0, _) => match first_move {
                Direction::Up | Direction::Right => true,
                _ => false,
            },
            (_, NumpadKey::N0) => match last_move {
                Direction::Down | Direction::Left => true,
                _ => false,
            },
            (NumpadKey::A, NumpadKey::N1 | NumpadKey::N4 | NumpadKey::N7) => first_move
                == Direction::Up,
            (NumpadKey::N1 | NumpadKey::N4 | NumpadKey::N7, NumpadKey::A) => last_move
                == Direction::Down,
            _ => true,
        }
    }

    /// The cheapest safe straight-then-straight move run from `start` to
    /// `end`.
    pub fn get_cheapest_moves(start: NumpadKey, end: NumpadKey) -> (r: Vec<Direction>)
        ensures
            r@ == spec_cheapest_numpad(start, end),
            cheapest_ok(
                start.spec_position(),
                end.spec_position(),
                spec_numpad_safe(start, end, first_of(r@), last_of(r@)),
                r@,
            ),
    {
        let sp = start.position();
        let ep = end.position();
        let ghost dx = end.spec_position().x - start.spec_position().x;
        let ghost dy = end.spec_position().y - start.spec_position().y;
        let (first, second, lone) = candidate_runs(sp, ep);
        match lone {
            Some(only) => {
                proof {
                    if dx == 0 {
                        assert(only@ =~= spec_repeat(y_dir(dy), abs_of(dy) as nat));
                    } else {
                        assert(only@ =~= spec_repeat(x_dir(dx), abs_of(dx) as nat));
                    }
                }
                only
            },
            None => {
                let safe1 = Numpad::are_moves_safe(start, end, &first);
                let safe2 = Numpad::are_moves_safe(start, end, &second);
                if safe1 && safe2 {
                    if lex_le(&first, &second) {
                        first
                    } else {
                        second
                    }
                } else if safe1 {
                    first
                } else {
                    assert(safe2);
                    second
                }
            },
        }
    }

    /// The move runs that visit `keys` in order, the arm starting on `A`.
    pub fn move_sequence(keys: &Vec<NumpadKey>) -> (r: Vec<Vec<Direction>>)
        ensures
            r@.len() == keys@.len(),
            forall|i: int|
                0 <= i < keys@.len() ==> (#[trigger] r@[i])@ == spec_cheapest_numpad(
                    if i == 0 {
                        NumpadKey::A
                    } else {
                        keys@[i - 1]
                    },
                    keys@[i],
                ),
    {
        let mut r: Vec<Vec<Direction>> = Vec::new();
        let mut prev = Numpad::start_key();
        let mut i: usize = 0;
        while i < keys.len()
            invariant
                i <= keys@.len(),
                r@.len() == i,
                prev == if i == 0 {
                    NumpadKey::A
                } else {
                    keys@[i - 1]
                },
                forall|j: int|
                    0 <= j < i ==> (#[trigger] r@[j])@ == spec_cheapest_numpad(
                        if j == 0 {
                            NumpadKey::A
                        } else {
                            keys@[j - 1]
                        },
                        keys@[j],
                    ),
            decreases keys@.len() - i,
        {
            r.push(Numpad::get_cheapest_moves(prev, keys[i]));
            prev = keys[i];
            i += 1;
        }
        r
    }
}

impl Dirpad {
    /// The key the remote arm rests on at first.
    pub fn start_key() -> (r: DirpadKey)
        ensures
            r == DirpadKey::A,
    {
        DirpadKey::A
    }

    /// Whether `moves` keeps the arm away from the pad's blank corner.
    pub fn are_moves_safe(start: DirpadKey, end: DirpadKey, moves: &Vec<Direction>) -> (r: bool)
        ensures
            r == (moves@.len() == 0 || spec_dirpad_safe(start, end, moves@.first(), moves@.last())),
    {
        if moves.len() == 0 {
            return true;
        }
        let first_move = moves[0];
        let last_move = moves[moves.len() - 1];
        if matches!(start, DirpadKey::Left) {
            return first_move == Direction::Right;
        }
        if matches!(end, DirpadKey::Left) {
            return last_move == Direction::Left;
        }
        true
    }

    /// The cheapest safe straight-then-straight move run from `start` to
    /// `end`.
    pub fn get_cheapest_moves(start: DirpadKey, end: DirpadKey) -> (r: Vec<Direction>)
        ensures
            r@ == spec_cheapest_dirpad(start, end),
            cheapest_ok(
                start.spec_position(),
                end.spec_position(),
                spec_dirpad_safe(start, end, first_of(r@), last_of(r@)),
                r@,
            ),
    {
        let sp = start.position();
        let ep = end.position();
        let ghost dx = end.spec_position().x - start.spec_position().x;
        let ghost dy = end.spec_position().y - start.spec_position().y;
        let (first, second, lone) = candidate_runs(sp, ep);
        match lone {
            Some(only) => {
                proof {
                    if dx == 0 {
                        assert(only@ =~= spec_repeat(y_dir(dy), abs_of(dy) as nat));
                    } else {
                        assert(only@ =~= spec_repeat(x_dir(dx), abs_of(dx) as nat));
                    }
                }
                only
            },
            None => {
                let safe1 = Dirpad::are_moves_safe(start, end, &first);
                let safe2 = Dirpad::are_moves_safe(start, end, &second);
                if safe1 && safe2 {
                    if lex_le(&first, &second) {
                        first
                    } else {
                        second
                    }
                } else if safe1 {
                    first
                } else {
                    assert(safe2);
                    second
                }
            },
        }
    }

    /// The move runs that visit `keys` in order, the arm starting on `A`.
    pub fn move_sequence(keys: &Vec<DirpadKey>) -> (r: Vec<Vec<Direction>>)
        ensures
            r@.len() == keys@.len(),
            forall|i: int|
                0 <= i < keys@.len() ==> (#[trigger] r@[i])@ == spec_cheapest_dirpad(
                    if i == 0 {
                        DirpadKey::A
                    } else {
                        keys@[i - 1]
                    },
                    keys@[i],
                ),
    {
        let mut r: Vec<Vec<Direction>> = Vec::new();
        let mut prev = Dirpad::start_key();
        let mut i: usize = 0;
        while i < keys.len()
            invariant
                i <= keys@.len(),
                r@.len() == i,
                prev == if i == 0 {
                    DirpadKey::A
                } else {
                    keys@[i - 1]
                },
                forall|j: int|
                    0 <= j < i ==> (#[trigger] r@[j])@ == spec_cheapest_dirpad(
                        if j == 0 {
                            DirpadKey::A
                        } else {
                            keys@[j - 1]
                        },
                        keys@[j],
                    ),
            decreases keys@.len() - i,
        {
            r.push(Dirpad::get_cheapest_moves(prev, keys[i]));
            prev = keys[i];
            i += 1;
        }
        r
    }

    /// The keys a move run presses, ending with the confirming `A`.
    pub fn keys_from_moves(moves: &Vec<Direction>) -> (r: Vec<DirpadKey>)
        ensures
            r@.len() == moves@.len() + 1,
            r@.last() == DirpadKey::A,
            forall|i: int|
                0 <= i < moves@.len() ==> r@[i] == dir_key(#[trigger] moves@[i]),
    {
        let mut r: Vec<DirpadKey> = Vec::new();
        let mut i: usize = 0;
        while i < moves.len()
            invariant
                i <= moves@.len(),
                r@.len() == i,
                forall|j: int| 0 <= j < i ==> r@[j] == dir_key(#[trigger] moves@[j]),
            decreases moves@.len() - i,
        {
            r.push(match moves[i] {
                Direction::Up => DirpadKey::Up,
                Direction::Left => DirpadKey::Left,
                Direction::Down => DirpadKey::Down,
                Direction::Right => DirpadKey::Right,
            });
            i += 1;
        }
        r.push(DirpadKey::A);
        r
    }
}

/// The directional-pad key that performs a move.
pub open spec fn dir_key(d: Direction) -> DirpadKey {
    match d {
        Direction::Up => DirpadKey::Up,
        Direction::Left => DirpadKey::Left,
        Direction::Down => DirpadKey::Down,
        Direction::Right => DirpadKey::Right,
    }
}

/// The first move of a run, or `Left` for an empty one.
pub open spec fn first_of(s: Seq<Direction>) -> Direction {
    if s.len() == 0 {
        Direction::Left
    } else {
        s.first()
    }
}

/// The last move of a run, or `Left` for an empty one.
pub open spec fn last_of(s: Seq<Direction>) -> Direction {
    if s.len() == 0 {
        Direction::Left
    } else {
        s.last()
    }
}

/// The run the cheapest-move choice produces, given the displacement and
/// whether the x-first and y-first orderings are safe: a single straight
/// run along one axis, else the lexicographically smaller of the two safe
/// orderings, else whichever ordering is safe.
pub open spec fn spec_pick_run(dx: int, dy: int, safe_xy: bool, safe_yx: bool) -> Seq<Direction> {
    let mx = spec_repeat(x_dir(dx), abs_of(dx) as nat);
    let my = spec_repeat(y_dir(dy), abs_of(dy) as nat);
    if dx == 0 {
        my
    } else if dy == 0 {
        mx
    } else if safe_xy && safe_yx {
        if spec_lex_le(mx.add(my), my.add(mx)) {
            mx.add(my)
        } else {
            my.add(mx)
        }
    } else if safe_xy {
        mx.add(my)
    } else {
        my.add(mx)
    }
}

/// The exact run `Numpad::get_cheapest_moves` returns.
pub open spec fn spec_cheapest_numpad(start: NumpadKey, end: NumpadKey) -> Seq<Direction> {
    let sp = start.spec_position();
    let ep = end.spec_position();
    let dx = ep.x - sp.x;
    let dy = ep.y - sp.y;
    spec_pick_run(
        dx,
        dy,
        spec_numpad_safe(start, end, x_dir(dx), y_dir(dy)),
        spec_numpad_safe(start, end, y_dir(dy), x_dir(dx)),
    )
}

/// The exact run `Dirpad::get_cheapest_moves` returns.
pub open spec fn spec_cheapest_dirpad(start: DirpadKey, end: DirpadKey) -> Seq<Direction> {
    let sp = start.spec_position();
    let ep = end.spec_position();
    let dx = ep.x - sp.x;
    let dy = ep.y - sp.y;
    spec_pick_run(
        dx,
        dy,
        spec_dirpad_safe(start, end, x_dir(dx), y_dir(dy)),
        spec_dirpad_safe(start, end, y_dir(dy), x_dir(dx)),
    )
}

/// What a cheapest-move run guarantees: it is as long as the taxicab
/// distance, every move is the right horizontal or vertical unit move,
/// and (when it is nonempty) it is safe on its pad.
pub open spec fn cheapest_ok(sp: Vector, ep: Vector, safe: bool, r: Seq<Direction>) -> bool {
    let dx = ep.x - sp.x;
    let dy = ep.y - sp.y;
    &&& r.len() == abs_of(dx) + abs_of(dy)
    &&& forall|i: int| 0 <= i < r.len() ==> ((#[trigger] r[i]) == x_dir(dx) || r[i] == y_dir(dy))
    &&& r.len() > 0 ==> safe
}

pub open spec fn abs_of(v: int) -> int {
    if v >= 0 {
        v
    } else {
        -v
    }
}

/// The horizontal move toward a displacement.
pub open spec fn x_dir(dx: int) -> Direction {
    if dx > 0 {
        Direction::Right
    } else {
        Direction::Left
    }
}

/// The vertical move toward a displacement.
pub open spec fn y_dir(dy: int) -> Direction {
    if dy > 0 {
        Direction::Up
    } else {
        Direction::Down
    }
}

/// Builds the two straight-then-straight candidate runs between two pad
/// positions. When the displacement is along a single axis there is only
/// one candidate, returned as the third component.
#[verifier::loop_isolation(false)]
fn candidate_runs(sp: Vector, ep: Vector) -> (r: (Vec<Direction>, Vec<Direction>, Option<
    Vec<Direction>,
>))
    requires
        -16 <= sp.x <= 16,
        -16 <= sp.y <= 16,
        -16 <= ep.x <= 16,
        -16 <= ep.y <= 16,
    ensures
        ({
            let dx = ep.x - sp.x;
            let dy = ep.y - sp.y;
            match r.2 {
                Some(only) => {
                    &&& (dx == 0 || dy == 0)
                    &&& only@.len() == abs_of(dx) + abs_of(dy)
                    &&& dx != 0 ==> forall|i: int|
                        0 <= i < only@.len() ==> (#[trigger] only@[i]) == x_dir(dx)
                    &&& dx == 0 ==> forall|i: int|
                        0 <= i < only@.len() ==> (#[trigger] only@[i]) == y_dir(dy)
                },
                None => {
                    &&& dx != 0 && dy != 0
                    &&& r.0@ == spec_repeat(x_dir(dx), abs_of(dx) as nat).add(
                        spec_repeat(y_dir(dy), abs_of(dy) as nat),
                    )
                    &&& r.1@ == spec_repeat(y_dir(dy), abs_of(dy) as nat).add(
                        spec_repeat(x_dir(dx), abs_of(dx) as nat),
                    )
                    &&& r.0@.len() == abs_of(dx) + abs_of(dy)
                    &&& r.1@.len() == abs_of(dx) + abs_of(dy)
                    &&& r.0@.first() == x_dir(dx) && r.0@.last() == y_dir(dy)
                    &&& r.1@.first() == y_dir(dy) && r.1@.last() == x_dir(dx)
                    &&& forall|i: int|
                        0 <= i < r.0@.len() ==> ((#[trigger] r.0@[i]) == x_dir(dx) || r.0@[i]
                            == y_dir(dy))
                    &&& forall|i: int|
                        0 <= i < r.1@.len() ==> ((#[trigger] r.1@[i]) == x_dir(dx) || r.1@[i]
                            == y_dir(dy))
                },
            }
        }),
{
    let dx = ep.x - sp.x;
    let dy = ep.y - sp.y;
    let nx = (if dx >= 0 {
        dx
    } else {
        -dx
    }) as usize;
    let ny = (if dy >= 0 {
        dy
    } else {
        -dy
    }) as usize;
    let xd = if dx > 0 {
        Direction::Right
    } else {
        Direction::Left
    };
    let yd = if dy > 0 {
        Direction::Up
    } else {
        Direction::Down
    };
    if dx == 0 || dy == 0 {
        let mut only = repeat_dir(xd, nx);
        let mut tail = repeat_dir(yd, ny);
        only.append(&mut tail);
        return (Vec::new(), Vec::new(), Some(only));
    }
    let mut first = repeat_dir(xd, nx);
    let mut t1 = repeat_dir(yd, ny);
    first.append(&mut t1);
    let mut second = repeat_dir(yd, ny);
    let mut t2 = repeat_dir(xd, nx);
    second.append(&mut t2);
    proof {
        assert(first@.first() == x_dir(dx as int) && second@.first() == y_dir(dy as int));
        assert(first@.last() == y_dir(dy as int) && second@.last() == x_dir(dx as int));
    }
    (first, second, None)
}

/// A memo table for move counts, keyed by a packed
/// (previous key, key, depth) triple.
///
/// The table itself comes from the `rustc-hash` crate: a `HashMap` with
/// the fast Fx hasher. Verus sees it only through the contracts below.
#[verifier::external_body]
pub struct MoveCountCache {
    map: rustc_hash::FxHashMap<u64, u64>,
}

/// The entries the cache currently holds.
pub uninterp spec fn cache_entries(c: MoveCountCache) -> Map<u64, u64>;

impl MoveCountCache {
    /// Relies on `HashMap::default` of `rustc_hash::FxHashMap`: a fresh
    /// map holds nothing.
    #[verifier::external_body]
    pub fn new() -> (r: MoveCountCache)
        ensures
            forall|k: u64| !cache_entries(r).contains_key(k),
    {
        let map = rustc_hash::FxHashMap::default();
        MoveCountCache { map }
    }
}

/// Relies on `HashMap::get` of `rustc_hash::FxHashMap`: returns what is
/// stored under `k`, if anything.
#[verifier::external_body]
fn cache_get(c: &MoveCountCache, k: u64) -> (r: Option<u64>)
    ensures
        r == if cache_entries(*c).contains_key(k) {
            Some(cache_entries(*c)[k])
        } else {
            None::<u64>
        },
{
    c.map.get(&k).copied()
}

/// Relies on `HashMap::insert` of `rustc_hash::FxHashMap`: stores `v`
/// under `k`, replacing any previous entry.
#[verifier::external_body]
fn cache_insert(c: &mut MoveCountCache, k: u64, v: u64)
    ensures
        cache_entries(*final(c)) == cache_entries(*old(c)).insert(k, v),
{
    c.map.insert(k, v);
}

/// The keys a move run presses, as `keys_from_moves` builds them.
pub open spec fn spec_keys_from(moves: Seq<Direction>) -> Seq<DirpadKey> {
    moves.map_values(|d: Direction| dir_key(d)).push(DirpadKey::A)
}

/// The key the arm rests on before pressing `keys[i]`.
pub open spec fn spec_prev_of(keys: Seq<DirpadKey>) -> DirpadKey {
    if keys.len() >= 2 {
        keys[keys.len() - 2]
    } else {
        DirpadKey::A
    }
}

/// How many base-level presses a key sequence costs through `depth`
/// robot-driven directional pads: at depth zero each key is one press;
/// deeper, each key costs its cheapest safe move run from the previous
/// key, confirmed with `A` and priced one level lower.
pub open spec fn spec_count_keys(keys: Seq<DirpadKey>, depth: nat) -> int
    decreases depth, 1int, keys.len(),
{
    if depth == 0 {
        keys.len() as int
    } else if keys.len() == 0 {
        0
    } else {
        spec_count_keys(keys.drop_last(), depth) + spec_count_pair(
            spec_prev_of(keys),
            keys.last(),
            depth,
        )
    }
}

/// What one key costs at `depth`, coming from `p`.
pub open spec fn spec_count_pair(p: DirpadKey, k: DirpadKey, depth: nat) -> int
    decreases depth, 0int, 0int,
{
    if depth == 0 {
        1
    } else {
        spec_count_keys(spec_keys_from(spec_cheapest_dirpad(p, k)), (depth - 1) as nat)
    }
}

/// A key count, clipped to what a `u64` can report.
pub open spec fn sat64(v: int) -> int {
    if v <= u64::MAX {
        v
    } else {
        u64::MAX as int
    }
}

pub proof fn lemma_count_keys_nonneg(keys: Seq<DirpadKey>, depth: nat)
    ensures
        spec_count_keys(keys, depth) >= 0,
    decreases depth, 1int, keys.len(),
{
    if depth > 0 && keys.len() > 0 {
        lemma_count_keys_nonneg(keys.drop_last(), depth);
        lemma_count_pair_nonneg(spec_prev_of(keys), keys.last(), depth);
    }
}

pub proof fn lemma_count_pair_nonneg(p: DirpadKey, k: DirpadKey, depth: nat)
    ensures
        spec_count_pair(p, k, depth) >= 0,
    decreases depth, 0int, 0int,
{
    if depth > 0 {
        lemma_count_keys_nonneg(spec_keys_from(spec_cheapest_dirpad(p, k)), (depth - 1) as nat);
    }
}

/// The packed cache key of a (previous key, key, depth) triple.
pub open spec fn spec_cache_key(p: DirpadKey, k: DirpadKey, depth: u64) -> int {
    p.spec_rank() + 5 * k.spec_rank() + 32 * depth
}

/// Distinct triples pack to distinct cache keys.
pub proof fn lemma_cache_key_injective(
    p1: DirpadKey,
    k1: DirpadKey,
    d1: u64,
    p2: DirpadKey,
    k2: DirpadKey,
    d2: u64,
)
    requires
        spec_cache_key(p1, k1, d1) == spec_cache_key(p2, k2, d2),
    ensures
        p1 == p2 && k1 == k2 && d1 == d2,
{
    assert(0 <= p1.spec_rank() + 5 * k1.spec_rank() < 32);
    assert(0 <= p2.spec_rank() + 5 * k2.spec_rank() < 32);
    assert(d1 == d2 && p1.spec_rank() + 5 * k1.spec_rank() == p2.spec_rank() + 5 * k2.spec_rank())
        by (nonlinear_arith)
        requires
            0 <= p1.spec_rank() + 5 * k1.spec_rank() < 32,
            0 <= p2.spec_rank() + 5 * k2.spec_rank() < 32,
            p1.spec_rank() + 5 * k1.spec_rank() + 32 * d1 == p2.spec_rank() + 5 * k2.spec_rank()
                + 32 * d2,
    ;
}

/// Every entry the cache holds is a clipped pair count for its packed
/// triple.
pub open spec fn cache_ok(c: MoveCountCache) -> bool {
    forall|p: DirpadKey, k: DirpadKey, d: u64|
        d < 0x0100_0000_0000_0000u64 && cache_entries(c).contains_key(
            #[trigger] spec_cache_key(p, k, d) as u64,
        ) ==> cache_entries(c)[spec_cache_key(p, k, d) as u64] == sat64(
            spec_count_pair(p, k, d as nat),
        )
}

/// How many base-level presses the `keys` sequence costs when `depth`
/// robot-driven directional pads stand between it and the base keypad.
///
/// The result is exactly [`spec_count_keys`], clipped to `u64::MAX` if
/// the true count is larger; intermediate pair counts are memoized in
/// `cache`, which must hold only (and afterwards holds only) correct
/// clipped counts.
#[verifier::loop_isolation(false)]
#[verifier::rlimit(100)]
pub fn count_keys(cache: &mut MoveCountCache, keys: &Vec<DirpadKey>, depth: u64) -> (r: u64)
    requires
        cache_ok(*old(cache)),
        depth < 0x0100_0000_0000_0000u64,
    ensures
        cache_ok(*final(cache)),
        r == sat64(spec_count_keys(keys@, depth as nat)),
    decreases depth, 2int, 0int,
{
    if depth == 0 {
        return keys.len() as u64;
    }
    let mut total: u64 = 0;
    let mut i: usize = 0;
    proof {
        assert(keys@.take(0) =~= Seq::<DirpadKey>::empty());
    }
    while i < keys.len()
        invariant
            i <= keys@.len(),
            cache_ok(*cache),
            total == sat64(spec_count_keys(keys@.take(i as int), depth as nat)),
        decreases 0int, 1int, keys@.len() - i,
    {
        let key = keys[i];
        let prev_key = if i > 0 {
            keys[i - 1]
        } else {
            Dirpad::start_key()
        };
        let cache_key = prev_key.rank() + 5 * key.rank() + 32 * depth;
        assert(cache_key == spec_cache_key(prev_key, key, depth));
        let count = match cache_get(cache, cache_key) {
            Some(c) => {
                proof {
                    assert(cache_entries(*cache).contains_key(cache_key));
                }
                c
            },
            None => {
                let moves = Dirpad::get_cheapest_moves(prev_key, key);
                let expanded = Dirpad::keys_from_moves(&moves);
                proof {
                    assert(expanded@ =~= spec_keys_from(spec_cheapest_dirpad(prev_key, key)));
                }
                let c = count_keys(cache, &expanded, depth - 1);
                let ghost pre = *cache;
                cache_insert(cache, cache_key, c);
                proof {
                    assert forall|p2: DirpadKey, k2: DirpadKey, d2: u64|
                        d2 < 0x0100_0000_0000_0000u64 && cache_entries(*cache).contains_key(
                            #[trigger] spec_cache_key(p2, k2, d2) as u64,
                        ) implies cache_entries(*cache)[spec_cache_key(p2, k2, d2) as u64]
                        == sat64(spec_count_pair(p2, k2, d2 as nat)) by {
                        if spec_cache_key(p2, k2, d2) as u64 == cache_key {
                            lemma_cache_key_injective(p2, k2, d2, prev_key, key, depth);
                        }
                    }
                }
                c
            },
        };
        assert(count == sat64(spec_count_pair(prev_key, key, depth as nat)));
        proof {
            assert(keys@.take(i as int + 1).drop_last() =~= keys@.take(i as int));
            assert(keys@.take(i as int + 1).last() == keys@[i as int]);
            assert(spec_prev_of(keys@.take(i as int + 1)) == prev_key);
            lemma_count_keys_nonneg(keys@.take(i as int), depth as nat);
            lemma_count_pair_nonneg(prev_key, key, depth as nat);
        }
        total = match total.checked_add(count) {
            Some(t) => t,
            None => u64::MAX,
        };
        i += 1;
    }
    proof {
        assert(keys@.take(keys@.len() as int) =~= keys@);
    }
    total
}

} // verus!