#![allow(non_snake_case)]
use minikv::rover::{rover, roverWithObstacles, Direction, Position, Rover};

#[test]
fn no_commands_should_be_at_00N() {
    assert_eq!(rover(""), Rover { position: Position { x: 0, y: 0 }, direction: Direction::North });
}

#[test]
fn M_should_be_at_01N() {
    assert_eq!(rover("M"), Rover { position: Position { x: 0, y: 1 }, direction: Direction::North });
}

#[test]
fn MM_should_be_at_02N() {
    assert_eq!(rover("MM"), Rover { position: Position { x: 0, y: 2 }, direction: Direction::North });
}

#[test]
fn MMMMM_should_be_at_00N() {
    assert_eq!(rover("MMMMM"), Rover { position: Position { x: 0, y: 0 }, direction: Direction::North });
}

#[test]
fn R_should_be_at_00E() {
    assert_eq!(rover("R"), Rover { position: Position { x: 0, y: 0 }, direction: Direction::East });
}

#[test]
fn L_should_be_at_00W() {
    assert_eq!(rover("L"), Rover { position: Position { x: 0, y: 0 }, direction: Direction::West });
}

#[test]
fn RR_should_be_at_00S() {
    assert_eq!(rover("RR"), Rover { position: Position { x: 0, y: 0 }, direction: Direction::South });
}

#[test]
fn LL_should_be_at_00S() {
    assert_eq!(rover("LL"), Rover { position: Position { x: 0, y: 0 }, direction: Direction::South });
}

#[test]
fn LLMM_should_be_at_03S() {
    assert_eq!(rover("LLMM"), Rover { position: Position { x: 0, y: 3 }, direction: Direction::South });
}

#[test]
fn LMM_should_be_at_30W() {
    assert_eq!(rover("LMM"), Rover { position: Position { x: 3, y: 0 }, direction: Direction::West });
}

#[test]
fn RMM_should_be_at_20E() {
    assert_eq!(rover("RMM"), Rover { position: Position { x: 2, y: 0 }, direction: Direction::East });
}

#[test]
fn MRMLM_with_obstacle_11_should_be_at_20N() {
    assert_eq!(
        roverWithObstacles("MRMLM", &vec![Position { x: 1, y: 1 }]),
        Rover { position: Position { x: 0, y: 2 }, direction: Direction::North }
    );
}
