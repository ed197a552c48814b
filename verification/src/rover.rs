//! A rover on a 5x5 wrapping grid: it turns left or right and moves forward,
//! refusing to enter cells that hold an obstacle.
use vstd::prelude::*;

verus! {

#[derive(PartialEq, Eq, Structural, Debug, Clone, Copy)]
pub enum Direction {
    North,
    East,
    South,
    West,
}

#[derive(PartialEq, Eq, Structural, Debug, Clone, Copy)]
pub struct Position {
    pub x: u8,
    pub y: u8,
}

#[derive(PartialEq, Eq, Structural, Debug)]
pub struct Rover {
    pub position: Position,
    pub direction: Direction,
}

pub open spec fn spec_rotate_right(d: Direction) -> Direction {
    match d {
        Direction::North => Direction::East,
        Direction::East => Direction::South,
        Direction::South => Direction::West,
        Direction::West => Direction::North,
    }
}

pub open spec fn spec_rotate_left(d: Direction) -> Direction {
    match d {
        Direction::North => Direction::West,
        Direction::West => Direction::South,
        Direction::South => Direction::East,
        Direction::East => Direction::North,
    }
}

pub open spec fn spec_move_forward(d: Direction, p: Position) -> Position {
    match d {
        Direction::North => Position { x: p.x, y: ((p.y + 1) % 5) as u8 },
        Direction::West => Position { x: ((p.x + 4) % 5) as u8, y: p.y },
        Direction::South => Position { x: p.x, y: ((p.y + 4) % 5) as u8 },
        Direction::East => Position { x: ((p.x + 1) % 5) as u8, y: p.y },
    }
}

/// The position is on the 5x5 grid.
pub open spec fn on_grid(p: Position) -> bool {
    p.x < 5 && p.y < 5
}

/// One command applied to a rover state: `M` moves forward unless an obstacle
/// blocks the target cell, `R` and `L` rotate in place.
pub open spec fn spec_step(r: Rover, command: char, obstacles: Seq<Position>) -> Rover {
    if command == 'M' {
        let target = spec_move_forward(r.direction, r.position);
        if obstacles.contains(target) {
            r
        } else {
            Rover { position: target, direction: r.direction }
        }
    } else if command == 'R' {
        Rover { position: r.position, direction: spec_rotate_right(r.direction) }
    } else {
        Rover { position: r.position, direction: spec_rotate_left(r.direction) }
    }
}

/// The rover state after running `commands` from the origin, facing north.
pub open spec fn spec_rover(commands: Seq<char>, obstacles: Seq<Position>) -> Rover
    decreases commands.len(),
{
    if commands.len() == 0 {
        Rover { position: Position { x: 0, y: 0 }, direction: Direction::North }
    } else {
        spec_step(spec_rover(commands.drop_last(), obstacles), commands.last(), obstacles)
    }
}

/// Every command is one of `M`, `R`, `L`.
pub open spec fn valid_commands(commands: Seq<char>) -> bool {
    forall|i: int|
        0 <= i < commands.len() ==> (#[trigger] commands[i] == 'M' || commands[i] == 'R'
            || commands[i] == 'L')
}

fn rotate_right(x: Direction) -> (r: Direction)
    ensures
        r == spec_rotate_right(x),
{
    match x {
        Direction::North => Direction::East,
        Direction::East => Direction::South,
        Direction::South => Direction::West,
        Direction::West => Direction::North,
    }
}

fn rotate_left(x: Direction) -> (r: Direction)
    ensures
        r == spec_rotate_left(x),
{
    match x {
        Direction::North => Direction::West,
        Direction::West => Direction::South,
        Direction::South => Direction::East,
        Direction::East => Direction::North,
    }
}

fn move_forward(direction: Direction, position: Position) -> (r: Position)
    requires
        on_grid(position),
    ensures
        r == spec_move_forward(direction, position),
        on_grid(r),
{
    match direction {
        Direction::North => Position { x: position.x, y: (position.y + 1) % 5 },
        Direction::West => Position { x: (position.x + 4) % 5, y: position.y },
        Direction::South => Position { x: position.x, y: (position.y + 4) % 5 },
        Direction::East => Position { x: (position.x + 1) % 5, y: position.y },
    }
}

fn contains_position(v: &Vec<Position>, p: Position) -> (r: bool)
    ensures
        r == v@.contains(p),
{
    let mut i: usize = 0;
    while i < v.len()
        invariant
            0 <= i <= v@.len(),
            forall|j: int| 0 <= j < i ==> v@[j] != p,
        decreases v@.len() - i,
    {
        if v[i] == p {
            return true;
        }
        i = i + 1;
    }
    false
}

/// Runs the commands on an obstacle-free grid.
pub fn rover(commands: &str) -> (r: Rover)
    requires
        valid_commands(commands@),
    ensures
        r == spec_rover(commands@, Seq::<Position>::empty()),
{
    let no_obstacles: Vec<Position> = Vec::new();
    roverWithObstacles(commands, &no_obstacles)
}

/// Runs the commands from the origin, facing north, around the obstacles.
#[allow(non_snake_case)]
pub fn roverWithObstacles(commands: &str, obstacles: &Vec<Position>) -> (r: Rover)
    requires
        valid_commands(commands@),
    ensures
        r == spec_rover(commands@, obstacles@),
{
    let n = commands.unicode_len();
    let mut acc = Rover { position: Position { x: 0, y: 0 }, direction: Direction::North };
    let mut i: usize = 0;
    while i < n
        invariant
            0 <= i <= n,
            n == commands@.len(),
            valid_commands(commands@),
            acc == spec_rover(commands@.take(i as int), obstacles@),
            on_grid(acc.position),
        decreases n - i,
    {
        let command = commands.get_char(i);
        let next = match command {
            'M' => {
                let target = move_forward(acc.direction, acc.position);
                if contains_position(obstacles, target) {
                    Rover { position: acc.position, direction: acc.direction }
                } else {
                    Rover { position: target, direction: acc.direction }
                }
            },
            'R' => Rover { position: acc.position, direction: rotate_right(acc.direction) },
            _ => Rover { position: acc.position, direction: rotate_left(acc.direction) },
        };
        proof {
            assert(commands@.take(i + 1).drop_last() =~= commands@.take(i as int));
            assert(commands@.take(i + 1).last() == commands@[i as int]);
        }
        acc = next;
        i = i + 1;
    }
    proof {
        assert(commands@.take(n as int) =~= commands@);
    }
    acc
}

} // verus!
