use generative::maze::dice::Dice;
use generative::maze::djikstra::{Solver, Weight};
use generative::maze::path::{direction, try_direction, Direction};
use generative::maze::session::{AnyGenerator, GeneratorKind};
use generative::maze::solver::a_star::AStar;
use generative::maze::solver::backtracker::Backtracker;
use generative::maze::solver::dead_end_filling::DeadEndFilling;
use generative::maze::solver::Pathfinder;
use generative::maze::{Board, Cell, Generator, MazeError, State};
use std::collections::VecDeque;

fn open_board(size: i32) -> Board {
    let mut board = Board::new(0, size, 10);
    let n = size as usize;
    for i in 0..n * n {
        if (board.cells[i].y as usize) < n - 1 {
            board.remove_wall(i, i + 1);
        }
        if (board.cells[i].x as usize) < n - 1 {
            board.remove_wall(i, i + n);
        }
    }
    board
}

fn generated(kind: GeneratorKind, size: i32, seed: u64) -> Board {
    let mut board = Board::new(0, size, 10);
    let mut generator = AnyGenerator::new(kind, &mut board, Dice::seeded(seed));
    while generator.step(&mut board) != State::GenerationDone {}
    board
}

fn linked(board: &Board, a: usize, b: usize) -> bool {
    let n = board.board_size as usize;
    let cell = &board.cells[a];
    if b == a + 1 && (cell.y as usize) < n - 1 {
        !cell.walls.bottom
    } else if a == b + 1 && cell.y > 0 {
        !cell.walls.top
    } else if b == a + n {
        !cell.walls.right
    } else if a == b + n {
        !cell.walls.left
    } else {
        false
    }
}

/// Distances by a breadth-first search of its own.
fn distances(board: &Board, from: usize) -> Vec<Option<usize>> {
    let n = board.board_size as usize;
    let mut found = vec![None; n * n];
    found[from] = Some(0);
    let mut queue = VecDeque::new();
    queue.push_back(from);
    while let Some(cell) = queue.pop_front() {
        for next in 0..n * n {
            if linked(board, cell, next) && found[next].is_none() {
                found[next] = Some(found[cell].unwrap() + 1);
                queue.push_back(next);
            }
        }
    }
    found
}

fn solve(solver: &mut Solver, board: &Board) -> usize {
    let mut steps = 0;
    loop {
        steps += 1;
        assert!(steps < 100_000);
        match solver.advance(board) {
            Ok(State::Done) => return steps,
            Ok(State::Solve) => {}
            other => panic!("the solver answered {:?}", other),
        }
    }
}

fn weight_of(solver: &Solver, cell: usize) -> usize {
    solver.weights[cell].unwrap().weight
}

#[test]
fn weight_default_is_nought() {
    let weight = Weight::default();
    assert_eq!((weight.x, weight.y, weight.weight), (0, 0, 0));
}

#[test]
fn solver_new_weighs_the_start_alone() {
    let solver = Solver::new((1, 2), (3, 3), 4);
    assert_eq!(solver.positions, vec![6]);
    assert_eq!(solver.layer, 1);
    assert_eq!(solver.weights.len(), 16);
    for (i, weight) in solver.weights.iter().enumerate() {
        match weight {
            Some(w) => {
                assert_eq!(i, 6);
                assert_eq!((w.x, w.y, w.weight), (1, 2, 1));
            }
            None => assert_ne!(i, 6),
        }
    }
    assert!(solver.path.is_empty());
    assert!(!solver.reached_end && !solver.solved);
}

#[test]
fn solver_new_on_the_end_is_solved() {
    let solver = Solver::new((2, 1), (2, 1), 3);
    assert!(solver.reached_end && solver.solved);
    assert_eq!(solver.path, vec![7]);
}

#[test]
fn solver_neighbours_are_top_bottom_left_right() {
    let board = Board::new(0, 3, 10);
    let solver = Solver::new((0, 0), (2, 2), 3);
    assert_eq!(solver.neighbours(&board, 4), vec![Some(3), Some(5), Some(1), Some(7)]);
    assert_eq!(solver.neighbours(&board, 0), vec![None, Some(1), None, Some(3)]);
    assert_eq!(solver.neighbours(&board, 8), vec![Some(7), None, Some(5), None]);
}

#[test]
fn solver_on_the_open_2x2() {
    let board = open_board(2);
    let mut solver = Solver::new((0, 0), (1, 1), 2);
    solver.step(&board);
    assert_eq!(solver.positions, vec![1, 2]);
    assert!(!solver.reached_end);
    solver.step(&board);
    assert!(solver.reached_end);
    assert_eq!(solver.path, vec![3]);
    // (0, 0) is cell 0, (0, 1) cell 1, (1, 0) cell 2 and (1, 1) cell 3.
    assert_eq!(weight_of(&solver, 0), 1);
    assert_eq!(weight_of(&solver, 2), 2);
    assert_eq!(weight_of(&solver, 1), 2);
    assert_eq!(weight_of(&solver, 3), 3);
    for cell in 0..4 {
        let weight = solver.weights[cell].unwrap();
        assert_eq!(weight.x, board.cells[cell].x as usize);
        assert_eq!(weight.y, board.cells[cell].y as usize);
    }
    assert_eq!(solver.path(&board), Ok(()));
    assert!(!solver.solved);
    assert_eq!(solver.path(&board), Ok(()));
    assert!(solver.solved);
    assert_eq!(solver.path.len(), 3);
    // Of the two neighbours of equal weight the upper one comes first.
    assert_eq!(solver.path, vec![3, 2, 0]);
}

#[test]
fn solver_weights_are_shortest_distances() {
    for seed in 0..10 {
        let board = generated(GeneratorKind::Kruskal, 5, seed);
        let mut solver = Solver::new((0, 0), (4, 4), 5);
        solve(&mut solver, &board);
        let expected = distances(&board, 0);
        assert_eq!(weight_of(&solver, 24), expected[24].unwrap() + 1);
        for cell in 0..25 {
            if let Some(weight) = solver.weights[cell] {
                assert_eq!(weight.weight, expected[cell].unwrap() + 1);
            }
        }
    }
}

#[test]
fn solver_path_descends_from_end_to_start() {
    for kind in [GeneratorKind::Backtracking, GeneratorKind::Prim, GeneratorKind::Wilson] {
        for seed in 0..5 {
            let board = generated(kind, 5, seed);
            let mut solver = Solver::new((0, 0), (4, 4), 5);
            solve(&mut solver, &board);
            assert!(solver.solved && solver.reached_end);
            assert_eq!(solver.path[0], 24);
            assert_eq!(*solver.path.last().unwrap(), 0);
            assert_eq!(solver.path.len(), weight_of(&solver, 24));
            for pair in solver.path.windows(2) {
                assert!(linked(&board, pair[0], pair[1]));
                assert_eq!(weight_of(&solver, pair[0]), weight_of(&solver, pair[1]) + 1);
            }
        }
    }
}

#[test]
fn solver_searches_from_any_start() {
    let board = generated(GeneratorKind::Eller, 6, 3);
    let mut solver = Solver::new((4, 1), (0, 5), 6);
    solve(&mut solver, &board);
    let expected = distances(&board, 25);
    assert_eq!(weight_of(&solver, 5), expected[5].unwrap() + 1);
    assert_eq!(solver.path[0], 5);
    assert_eq!(*solver.path.last().unwrap(), 25);
}

#[test]
fn solver_finds_the_shortest_way_among_many() {
    let board = open_board(4);
    let mut solver = Solver::new((0, 0), (3, 3), 4);
    solve(&mut solver, &board);
    assert_eq!(weight_of(&solver, 15), 7);
    assert_eq!(solver.path.len(), 7);
    for cell in 0..16 {
        let sum = (board.cells[cell].x + board.cells[cell].y) as usize;
        assert_eq!(weight_of(&solver, cell), sum + 1);
    }
}

#[test]
fn solver_reports_unreachable_behind_walls() {
    let board = Board::new(0, 3, 10);
    let mut solver = Solver::new((0, 0), (2, 2), 3);
    assert_eq!(solver.advance(&board), Ok(State::Solve));
    assert!(solver.positions.is_empty());
    assert_eq!(solver.advance(&board), Err(MazeError::Unreachable));
    assert_eq!(solver.advance(&board), Err(MazeError::Unreachable));
    assert!(!solver.reached_end && !solver.solved);
}

#[test]
fn solver_reports_unreachable_for_an_end_off_the_grid() {
    let board = open_board(2);
    let mut solver = Solver::new((0, 0), (5, 5), 2);
    let mut outcome = solver.advance(&board);
    let mut steps = 0;
    while outcome == Ok(State::Solve) {
        steps += 1;
        assert!(steps < 10);
        outcome = solver.advance(&board);
    }
    assert_eq!(outcome, Err(MazeError::Unreachable));
}

#[test]
fn solver_path_with_no_eligible_neighbour_is_unreachable() {
    let board = Board::new(0, 2, 10);
    let mut solver = Solver::new((0, 0), (1, 1), 2);
    solver.path = vec![3];
    assert_eq!(solver.path(&board), Err(MazeError::Unreachable));
    assert_eq!(solver.path, vec![3]);
    assert!(!solver.solved);
    let weights: Vec<Option<usize>> = solver.weights.iter().map(|w| w.map(|w| w.weight)).collect();
    assert_eq!(weights, vec![Some(1), None, None, None]);
}

#[test]
fn solver_path_from_a_cell_without_a_weight_goes_by_its_neighbours() {
    let board = open_board(2);
    let mut solver = Solver::new((0, 0), (1, 1), 2);
    solver.path = vec![1];
    assert_eq!(solver.path(&board), Ok(()));
    assert_eq!(solver.path, vec![1, 0]);
    assert!(solver.solved);
}

#[test]
fn solver_path_before_the_end_is_unreachable() {
    let board = open_board(3);
    let mut solver = Solver::new((0, 0), (2, 2), 3);
    assert_eq!(solver.path(&board), Err(MazeError::Unreachable));
    assert!(solver.path.is_empty());
    solver.step(&board);
    assert_eq!(solver.path(&board), Err(MazeError::Unreachable));
}

#[test]
fn solver_stays_solved() {
    let board = generated(GeneratorKind::BinaryTree, 4, 2);
    let mut solver = Solver::new((0, 0), (3, 3), 4);
    solve(&mut solver, &board);
    let path = solver.path.clone();
    let positions = solver.positions.clone();
    let layer = solver.layer;
    for _ in 0..3 {
        assert_eq!(solver.advance(&board), Ok(State::Done));
        assert_eq!(solver.path(&board), Ok(()));
        solver.step(&board);
        assert_eq!(solver.path, path);
        assert_eq!(solver.positions, positions);
        assert_eq!(solver.layer, layer);
        assert!(solver.solved);
    }
}

#[test]
fn solver_step_with_an_empty_frontier_changes_nothing() {
    let board = Board::new(0, 2, 10);
    let mut solver = Solver::new((0, 0), (1, 1), 2);
    solver.step(&board);
    assert!(solver.positions.is_empty());
    assert_eq!(solver.layer, 2);
    solver.step(&board);
    assert_eq!(solver.layer, 2);
}

#[test]
fn solver_on_path_knows_the_path() {
    let board = open_board(2);
    let mut solver = Solver::new((0, 0), (1, 1), 2);
    solve(&mut solver, &board);
    assert!(solver.on_path(3) && solver.on_path(2) && solver.on_path(0));
    assert!(!solver.on_path(1));
}

fn at(x: i32, y: i32) -> Cell {
    Cell::new(x, y)
}

#[test]
fn direction_runs_straight() {
    assert_eq!(direction(&at(1, 1), Some(&at(1, 0)), Some(&at(1, 2))), Direction::Vertical);
    assert_eq!(direction(&at(1, 1), Some(&at(0, 1)), Some(&at(2, 1))), Direction::Horizontal);
}

#[test]
fn direction_bends() {
    assert_eq!(direction(&at(1, 1), Some(&at(1, 2)), Some(&at(2, 1))), Direction::DownRight);
    assert_eq!(direction(&at(1, 1), Some(&at(2, 1)), Some(&at(1, 2))), Direction::DownRight);
    assert_eq!(direction(&at(1, 1), Some(&at(1, 2)), Some(&at(0, 1))), Direction::DownLeft);
    assert_eq!(direction(&at(1, 1), Some(&at(0, 1)), Some(&at(1, 2))), Direction::DownLeft);
    assert_eq!(direction(&at(1, 1), Some(&at(1, 0)), Some(&at(2, 1))), Direction::UpRight);
    assert_eq!(direction(&at(1, 1), Some(&at(2, 1)), Some(&at(1, 0))), Direction::UpRight);
    assert_eq!(direction(&at(1, 1), Some(&at(1, 0)), Some(&at(0, 1))), Direction::UpLeft);
    assert_eq!(direction(&at(1, 1), Some(&at(0, 1)), Some(&at(1, 0))), Direction::UpLeft);
}

#[test]
fn direction_at_the_ends_of_the_path() {
    assert_eq!(direction(&at(1, 1), None, Some(&at(2, 1))), Direction::EndRight);
    assert_eq!(direction(&at(1, 1), None, Some(&at(0, 1))), Direction::EndLeft);
    assert_eq!(direction(&at(1, 1), None, Some(&at(1, 2))), Direction::EndDown);
    assert_eq!(direction(&at(1, 1), None, Some(&at(1, 0))), Direction::EndUp);
    assert_eq!(direction(&at(1, 1), Some(&at(2, 1)), None), Direction::StartRight);
    assert_eq!(direction(&at(1, 1), Some(&at(0, 1)), None), Direction::StartLeft);
    assert_eq!(direction(&at(1, 1), Some(&at(1, 2)), None), Direction::StartDown);
    assert_eq!(direction(&at(1, 1), Some(&at(1, 0)), None), Direction::StartUp);
}

#[test]
fn direction_is_none_where_nothing_fits() {
    assert_eq!(try_direction(&at(1, 1), None, None), None);
    assert_eq!(try_direction(&at(1, 1), None, Some(&at(1, 1))), None);
    assert_eq!(try_direction(&at(1, 1), Some(&at(1, 1)), None), None);
    assert_eq!(try_direction(&at(1, 1), Some(&at(0, 0)), Some(&at(2, 2))), None);
}

#[test]
fn try_direction_agrees_with_direction_where_the_cells_fit() {
    assert_eq!(
        try_direction(&at(1, 1), Some(&at(1, 0)), Some(&at(1, 2))),
        Some(direction(&at(1, 1), Some(&at(1, 0)), Some(&at(1, 2))))
    );
    assert_eq!(try_direction(&at(1, 1), None, Some(&at(2, 1))), Some(Direction::EndRight));
    assert_eq!(try_direction(&at(1, 1), Some(&at(1, 2)), None), Some(Direction::StartDown));
    assert_eq!(try_direction(&at(1, 1), Some(&at(1, 2)), Some(&at(0, 1))), Some(Direction::DownLeft));
}

#[test]
fn direction_along_a_solved_path() {
    let board = open_board(2);
    let mut solver = Solver::new((0, 0), (1, 1), 2);
    solve(&mut solver, &board);
    let cells: Vec<&Cell> = solver.path.iter().map(|&i| &board.cells[i]).collect();
    assert_eq!(direction(cells[0], None, Some(cells[1])), Direction::EndUp);
    assert_eq!(direction(cells[1], Some(cells[0]), Some(cells[2])), Direction::DownLeft);
    assert_eq!(direction(cells[2], Some(cells[1]), None), Direction::StartRight);
}

fn walled_in_exit(size: i32) -> Board {
    let mut board = generated(GeneratorKind::Prim, size, 4);
    let n = size as usize;
    let last = n * n - 1;
    board.add_wall(last, last - 1);
    board.add_wall(last, last - n);
    board
}

fn assert_route(board: &Board, route: &[usize], from: usize, to: usize) {
    assert_eq!(route[0], to);
    assert_eq!(*route.last().unwrap(), from);
    for pair in route.windows(2) {
        assert!(linked(board, pair[0], pair[1]));
    }
}

fn run<P: Pathfinder>(solver: &mut P, board: &Board) -> Result<usize, MazeError> {
    let mut steps = 0;
    loop {
        steps += 1;
        assert!(steps < 1_000_000);
        match solver.advance(board) {
            Ok(State::Done) => return Ok(steps),
            Ok(State::Solve) => {}
            Ok(other) => panic!("the solver answered {:?}", other),
            Err(e) => return Err(e),
        }
    }
}

#[test]
fn djikstra_offers_the_common_steps() {
    let board = generated(GeneratorKind::Sidewinder, 5, 1);
    let mut solver = Solver::new((0, 0), (4, 4), 5);
    assert!(!solver.is_solved());
    assert!(run(&mut solver, &board).is_ok());
    assert!(solver.is_solved());
    assert_route(&board, solver.get_path(), 0, 24);
    let blocked = walled_in_exit(5);
    let mut solver = Solver::new((0, 0), (4, 4), 5);
    assert_eq!(run(&mut solver, &blocked), Err(MazeError::Unreachable));
}

#[test]
fn backtracker_walks_to_the_end() {
    for seed in 0..10 {
        let board = generated(GeneratorKind::Kruskal, 6, seed);
        let mut solver = Backtracker::new((0, 0), (5, 5), 6);
        assert!(run(&mut solver, &board).is_ok());
        assert!(solver.is_solved());
        assert_route(&board, solver.get_path(), 0, 35);
        // In a perfect maze there is one way only.
        assert_eq!(solver.get_path().len(), distances(&board, 0)[35].unwrap() + 1);
    }
}

#[test]
fn backtracker_takes_the_first_way_on_and_backs_out() {
    let mut board = Board::new(0, 2, 10);
    board.remove_wall(0, 1);
    board.remove_wall(0, 2);
    board.remove_wall(2, 3);
    let mut solver = Backtracker::new((0, 0), (1, 1), 2);
    assert_eq!(solver.stack, vec![0]);
    assert_eq!(solver.first_way_on(&board), Some(1));
    assert_eq!(solver.advance(&board), Ok(State::Solve));
    assert_eq!(solver.stack, vec![0, 1]);
    assert_eq!(solver.first_way_on(&board), None);
    assert_eq!(solver.advance(&board), Ok(State::Solve));
    assert_eq!(solver.stack, vec![0]);
    assert_eq!(solver.first_way_on(&board), Some(3));
    assert_eq!(solver.advance(&board), Ok(State::Solve));
    assert_eq!(solver.advance(&board), Ok(State::Solve));
    assert_eq!(solver.stack, vec![0, 2, 3]);
    assert!(solver.visited.iter().all(|&seen| seen));
    assert_eq!(solver.advance(&board), Ok(State::Done));
    assert_eq!(solver.path, vec![3, 2, 0]);
    assert_eq!(solver.advance(&board), Ok(State::Done));
    assert_eq!(solver.path, vec![3, 2, 0]);
}

#[test]
fn backtracker_reports_unreachable() {
    let board = walled_in_exit(4);
    let mut solver = Backtracker::new((0, 0), (3, 3), 4);
    assert_eq!(run(&mut solver, &board), Err(MazeError::Unreachable));
    assert!(solver.stack.is_empty());
    assert!(!solver.visited[15]);
    assert_eq!(solver.visited.iter().filter(|&&seen| seen).count(), 15);
    assert_eq!(solver.advance(&board), Err(MazeError::Unreachable));
}

#[test]
fn backtracker_on_the_start_is_done_at_once() {
    let board = Board::new(0, 3, 10);
    let mut solver = Backtracker::new((1, 1), (1, 1), 3);
    assert_eq!(solver.advance(&board), Ok(State::Done));
    assert_eq!(solver.path, vec![4]);
}

#[test]
fn a_star_finds_the_way() {
    for seed in 0..10 {
        let board = generated(GeneratorKind::HuntAndKill, 6, seed);
        let mut solver = AStar::new((0, 0), (5, 5), 6);
        assert!(run(&mut solver, &board).is_ok());
        assert_route(&board, solver.get_path(), 0, 35);
        assert_eq!(solver.get_path().len(), distances(&board, 0)[35].unwrap() + 1);
        assert_eq!(solver.costs[35], Some(solver.get_path().len() - 1));
    }
}

#[test]
fn a_star_goes_straight_across_an_open_floor() {
    let board = open_board(6);
    let mut solver = AStar::new((0, 0), (5, 0), 6);
    let steps = run(&mut solver, &board).unwrap();
    assert_eq!(*solver.get_path(), vec![30, 24, 18, 12, 6, 0]);
    // Only the cells on the straight way promise no more than five steps:
    // they alone are searched, where a search layer by layer would have
    // looked at most of the floor.
    let searched = solver.closed.iter().filter(|&&closed| closed).count();
    assert_eq!(searched, 6);
    assert_eq!(steps, 6 + 5);
}

#[test]
fn a_star_searches_the_most_promising_cell_first() {
    let board = open_board(3);
    let mut solver = AStar::new((0, 0), (2, 0), 3);
    assert_eq!(solver.best(&board), 0);
    solver.search(&board, 0);
    // Below and to the right of the start; the end lies to the right.
    assert_eq!(solver.open, vec![1, 3]);
    assert_eq!(solver.costs[1], Some(1));
    assert_eq!(solver.costs[3], Some(1));
    assert_eq!(solver.parents[3], Some(0));
    assert!(solver.closed[0]);
    assert_eq!(solver.best(&board), 1);
    solver.search(&board, 1);
    assert_eq!(solver.open, vec![1, 4, 6]);
    assert_eq!(solver.best(&board), 2);
    assert!(!solver.reached_end);
    solver.search(&board, 2);
    assert!(solver.reached_end);
    assert_eq!(solver.path, vec![6]);
    solver.trace(&board);
    assert_eq!(solver.path, vec![6, 3]);
    assert!(!solver.solved);
    solver.trace(&board);
    assert_eq!(solver.path, vec![6, 3, 0]);
    assert!(solver.solved);
}

#[test]
fn a_star_reports_unreachable() {
    let board = walled_in_exit(4);
    let mut solver = AStar::new((0, 0), (3, 3), 4);
    assert_eq!(run(&mut solver, &board), Err(MazeError::Unreachable));
    assert!(solver.open.is_empty());
    assert_eq!(solver.costs[15], None);
}

#[test]
fn dead_end_filling_leaves_the_way_alone() {
    for seed in 0..10 {
        let board = generated(GeneratorKind::Backtracking, 6, seed);
        let mut solver = DeadEndFilling::new(&board, (0, 0), (5, 5));
        assert!(run(&mut solver, &board).is_ok());
        assert_route(&board, solver.get_path(), 0, 35);
        // In a perfect maze all that is not filled is the way itself.
        let left = solver.filled.iter().filter(|&&filled| !filled).count();
        assert_eq!(left, solver.get_path().len());
        for cell in solver.get_path() {
            assert!(!solver.filled[*cell]);
        }
    }
}

#[test]
fn dead_end_filling_fills_the_first_dead_end_first() {
    let mut board = Board::new(0, 3, 10);
    // A corridor from the entrance down and along the bottom to the exit,
    // with a side arm of two cells in the middle.
    for (a, b) in [(0, 1), (1, 2), (2, 5), (5, 8), (1, 4), (4, 7)] {
        board.remove_wall(a, b);
    }
    let mut solver = DeadEndFilling::new(&board, (0, 0), (2, 2));
    assert_eq!(solver.find_dead_end(&board), Some((7, 4)));
    assert_eq!(solver.single_way(4), None);
    assert_eq!(solver.single_way(7), Some(4));
    assert_eq!(solver.single_way(3), None);
    assert_eq!(solver.advance(&board), Ok(State::Solve));
    assert!(solver.filled[7]);
    assert_eq!(solver.find_dead_end(&board), Some((4, 1)));
    assert_eq!(solver.advance(&board), Ok(State::Solve));
    assert!(solver.filled[4]);
    assert_eq!(solver.find_dead_end(&board), None);
    assert!(solver.filling);
    assert_eq!(solver.advance(&board), Ok(State::Solve));
    assert!(!solver.filling);
    assert!(run(&mut solver, &board).is_ok());
    assert_eq!(*solver.get_path(), vec![8, 5, 2, 1, 0]);
    // The board itself has not been touched.
    assert!(!board.cells[4].walls.right && !board.cells[1].walls.right);
}

#[test]
fn dead_end_filling_finds_a_shortest_way_round_a_cycle() {
    let board = open_board(5);
    let mut solver = DeadEndFilling::new(&board, (0, 0), (4, 4));
    assert!(run(&mut solver, &board).is_ok());
    assert_eq!(solver.get_path().len(), 9);
    assert_route(&board, solver.get_path(), 0, 24);
    assert!(solver.filled.iter().all(|&filled| !filled));
}

#[test]
fn dead_end_filling_reports_unreachable() {
    let board = walled_in_exit(4);
    let mut solver = DeadEndFilling::new(&board, (0, 0), (3, 3));
    assert_eq!(run(&mut solver, &board), Err(MazeError::Unreachable));
    assert!(!solver.is_solved());
}

#[test]
fn every_solver_stays_solved() {
    let board = generated(GeneratorKind::Eller, 5, 6);
    let mut backtracker = Backtracker::new((0, 0), (4, 4), 5);
    let mut a_star = AStar::new((0, 0), (4, 4), 5);
    let mut filling = DeadEndFilling::new(&board, (0, 0), (4, 4));
    run(&mut backtracker, &board).unwrap();
    run(&mut a_star, &board).unwrap();
    run(&mut filling, &board).unwrap();
    let routes =
        (backtracker.path.clone(), a_star.path.clone(), filling.get_path().clone());
    for _ in 0..3 {
        assert_eq!(backtracker.advance(&board), Ok(State::Done));
        assert_eq!(a_star.advance(&board), Ok(State::Done));
        assert_eq!(filling.advance(&board), Ok(State::Done));
    }
    assert_eq!(routes, (backtracker.path, a_star.path, filling.get_path().clone()));
}

#[test]
fn board_duplicate_is_a_board_of_its_own() {
    let board = generated(GeneratorKind::Prim, 4, 1);
    let mut copy = board.duplicate();
    assert_eq!(copy, board);
    copy.add_wall(0, if board.cells[0].walls.bottom { 4 } else { 1 });
    assert_ne!(copy, board);
}
