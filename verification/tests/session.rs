use generative::maze::generator::recursive_division::RecursiveDivision;
use generative::maze::session::{AnyGenerator, AnySolver, GeneratorKind, Session, SolverKind};
use generative::maze::solver::Pathfinder;
use generative::maze::State;

#[test]
fn generator_kinds_are_numbered_as_on_the_list() {
    assert_eq!(GeneratorKind::from_index(0), Some(GeneratorKind::Backtracking));
    assert_eq!(GeneratorKind::from_index(1), Some(GeneratorKind::Kruskal));
    assert_eq!(GeneratorKind::from_index(2), Some(GeneratorKind::Eller));
    assert_eq!(GeneratorKind::from_index(3), Some(GeneratorKind::Prim));
    assert_eq!(GeneratorKind::from_index(4), Some(GeneratorKind::RecursiveDivision));
    assert_eq!(GeneratorKind::from_index(5), Some(GeneratorKind::AldousBroder));
    assert_eq!(GeneratorKind::from_index(6), Some(GeneratorKind::Wilson));
    assert_eq!(GeneratorKind::from_index(7), Some(GeneratorKind::HuntAndKill));
    assert_eq!(GeneratorKind::from_index(8), Some(GeneratorKind::GrowingTree));
    assert_eq!(GeneratorKind::from_index(9), Some(GeneratorKind::BinaryTree));
    assert_eq!(GeneratorKind::from_index(10), Some(GeneratorKind::Sidewinder));
    assert_eq!(GeneratorKind::from_index(11), None);
    assert_eq!(GeneratorKind::from_index(-1), None);
}

#[test]
fn session_waits_until_started() {
    let mut session = Session::new(GeneratorKind::Prim, 5, 4, 20, Some(1));
    assert_eq!(session.state(), State::Wait);
    assert_eq!(session.steps(), 0);
    assert_eq!((session.board().x, session.board().y, session.board().cell_size), (5, 5, 20));
    let board = session.board().clone();
    assert_eq!(session.tick(), State::Wait);
    assert_eq!(session.run(100), State::Wait);
    assert_eq!(session.board().clone(), board);
    assert_eq!(session.steps(), 0);
    session.solve();
    assert_eq!(session.state(), State::Wait);
}

#[test]
fn session_goes_through_the_whole_cycle() {
    for index in 0..11 {
        let kind = GeneratorKind::from_index(index).unwrap();
        let mut session = Session::new(kind, 0, 5, 10, Some(42));
        session.start();
        assert_eq!(session.state(), State::Generate);
        let mut ticks = 0;
        while session.tick() == State::Generate {
            ticks += 1;
            assert!(ticks < 1_000_000);
        }
        assert_eq!(session.state(), State::GenerationDone);
        assert_eq!(session.steps(), ticks + 1);
        assert!(session.board().finish);
        assert_eq!(session.tick(), State::GenerationDone);
        assert_eq!(session.steps(), ticks + 1);
        session.start();
        assert_eq!(session.state(), State::GenerationDone);
        session.solve();
        assert_eq!(session.state(), State::Solve);
        assert_eq!(session.steps(), 0);
        let mut steps = 0;
        while session.tick() == State::Solve {
            steps += 1;
            assert!(steps < 10_000);
        }
        assert_eq!(session.state(), State::Done);
            assert!(session.solver().is_solved());
        assert_eq!(session.solver().get_path()[0], 24);
        assert_eq!(*session.solver().get_path().last().unwrap(), 0);
        let solved = session.solver().get_path().clone();
        assert_eq!(session.tick(), State::Done);
        assert_eq!(*session.solver().get_path(), solved);
    }
}

#[test]
fn session_run_stops_where_the_phase_ends() {
    let mut session = Session::new(GeneratorKind::Kruskal, 0, 4, 10, Some(3));
    session.start();
    assert_eq!(session.run(5), State::Generate);
    assert_eq!(session.steps(), 5);
    assert_eq!(session.run(1_000), State::GenerationDone);
    assert_eq!(session.steps(), 25);
    assert_eq!(session.run(1_000), State::GenerationDone);
    session.solve();
    assert_eq!(session.run(1_000), State::Done);
    assert!(session.solver().is_solved());
    assert_eq!(session.run(0), State::Done);
}

#[test]
fn session_can_solve_again() {
    let mut session = Session::new(GeneratorKind::Sidewinder, 0, 4, 10, Some(3));
    session.start();
    session.run(10_000);
    session.solve();
    session.run(10_000);
    let path = session.solver().get_path().clone();
    session.solve();
    assert_eq!(session.state(), State::Solve);
    assert!(session.solver().get_path().is_empty());
    session.run(10_000);
    assert_eq!(*session.solver().get_path(), path);
}

#[test]
fn session_of_one_cell_is_solved_at_once() {
    let mut session = Session::new(GeneratorKind::Backtracking, 0, 1, 10, None);
    session.start();
    assert_eq!(session.tick(), State::GenerationDone);
    session.solve();
    assert_eq!(session.state(), State::Done);
    assert_eq!(*session.solver().get_path(), vec![0]);
}

#[test]
fn session_with_equal_seeds_replays() {
    for index in 0..11 {
        let kind = GeneratorKind::from_index(index).unwrap();
        let mut first = Session::new(kind, 0, 6, 10, Some(7));
        let mut second = Session::new(kind, 0, 6, 10, Some(7));
        first.start();
        second.start();
        first.run(1_000_000);
        second.run(1_000_000);
        assert_eq!(first.state(), State::GenerationDone);
        assert_eq!(first.board(), second.board());
        assert_eq!(first.steps(), second.steps());
    }
}

#[test]
fn session_always_finds_the_exit() {
    for index in 0..11 {
        let kind = GeneratorKind::from_index(index).unwrap();
        for seed in 0..5 {
            let mut session = Session::new(kind, 0, 7, 10, Some(seed));
            session.start();
            assert_eq!(session.run(10_000_000), State::GenerationDone);
            session.solve();
            assert_eq!(session.run(10_000), State::Done);
            assert!(session.solver().is_solved());
            assert_eq!(session.solver().get_path()[0], 48);
            assert_eq!(*session.solver().get_path().last().unwrap(), 0);
        }
    }
}

#[test]
fn session_holds_a_generator_of_the_kind_asked_for() {
    let session = Session::new(GeneratorKind::RecursiveDivision, 0, 4, 10, Some(7));
    match session.generator() {
        AnyGenerator::RecursiveDivision(RecursiveDivision { limit, .. }) => {
            assert_eq!(*limit, None)
        }
        _ => panic!("another kind of generator"),
    }
    let session = Session::new(GeneratorKind::Wilson, 0, 4, 10, None);
    assert!(matches!(session.generator(), AnyGenerator::Wilson(_)));
}

#[test]
fn solver_kinds_are_numbered_as_on_the_list() {
    assert_eq!(SolverKind::from_index(0), Some(SolverKind::Djikstra));
    assert_eq!(SolverKind::from_index(1), Some(SolverKind::Backtracker));
    assert_eq!(SolverKind::from_index(2), Some(SolverKind::AStar));
    assert_eq!(SolverKind::from_index(3), Some(SolverKind::DeadEndFilling));
    assert_eq!(SolverKind::from_index(4), None);
    assert_eq!(SolverKind::from_index(-1), None);
}

#[test]
fn session_solves_with_every_solver() {
    for solver in 0..4 {
        let kind = SolverKind::from_index(solver).unwrap();
        for generator in 0..11 {
            let mut session =
                Session::new(GeneratorKind::from_index(generator).unwrap(), 0, 6, 10, Some(5));
            session.select_solver(kind);
            assert_eq!(session.solver().which(), kind);
            assert_eq!(session.state(), State::Wait);
            session.start();
            assert_eq!(session.run(10_000_000), State::GenerationDone);
            session.solve();
            assert_eq!(session.solver().which(), kind);
            assert_eq!(session.run(100_000), State::Done);
            let path = session.solver().get_path();
            assert_eq!(path[0], 35);
            assert_eq!(*path.last().unwrap(), 0);
        }
    }
}

#[test]
fn every_solver_finds_the_same_route_in_a_perfect_maze() {
    let mut routes: Vec<Vec<usize>> = Vec::new();
    for solver in 0..4 {
        let mut session = Session::new(GeneratorKind::Wilson, 0, 8, 10, Some(9));
        session.select_solver(SolverKind::from_index(solver).unwrap());
        session.start();
        session.run(10_000_000);
        session.solve();
        assert_eq!(session.run(100_000), State::Done);
        routes.push(session.solver().get_path().clone());
    }
    assert_eq!(routes[0], routes[1]);
    assert_eq!(routes[0], routes[2]);
    assert_eq!(routes[0], routes[3]);
}

#[test]
fn selecting_a_solver_asks_for_the_maze_to_be_solved_again() {
    let mut session = Session::new(GeneratorKind::Prim, 0, 4, 10, Some(2));
    session.start();
    session.run(1_000);
    session.solve();
    session.run(1_000);
    assert_eq!(session.state(), State::Done);
    let steps = session.steps();
    session.select_solver(SolverKind::AStar);
    assert_eq!(session.state(), State::GenerationDone);
    assert_eq!(session.steps(), steps);
    assert!(matches!(session.solver(), AnySolver::AStar(_)));
    assert!(session.solver().get_path().is_empty());
    session.solve();
    assert_eq!(session.state(), State::Solve);
    assert_eq!(session.steps(), 0);
}

#[test]
fn solving_again_midway_drops_what_the_search_had_found() {
    let mut session = Session::new(GeneratorKind::Backtracking, 0, 4, 10, Some(5));
    session.start();
    session.run(10_000);
    session.solve();
    session.run(3);
    assert_eq!(session.steps(), 3);
    session.solve();
    assert_eq!(session.steps(), 0);
    assert_eq!(session.state(), State::Solve);
    match session.solver() {
        AnySolver::Djikstra(solver) => {
            assert_eq!(solver.positions, vec![0]);
            assert_eq!(solver.layer, 1);
            assert_eq!(solver.weights.iter().filter(|w| w.is_some()).count(), 1);
            assert!(solver.path.is_empty());
            assert!(!solver.reached_end && !solver.solved);
        }
        _ => panic!("the first solver on the list is expected"),
    }
}

#[test]
fn session_run_takes_as_many_steps_as_it_is_given() {
    let mut session = Session::new(GeneratorKind::AldousBroder, 0, 5, 10, Some(8));
    session.start();
    let mut other = Session::new(GeneratorKind::AldousBroder, 0, 5, 10, Some(8));
    other.start();
    assert_eq!(session.run(7), State::Generate);
    for _ in 0..7 {
        assert_eq!(other.tick(), State::Generate);
    }
    assert_eq!(session.steps(), 7);
    assert_eq!(other.steps(), 7);
    assert_eq!(session.board().clone(), other.board().clone());
}
