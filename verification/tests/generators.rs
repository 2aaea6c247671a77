use generative::maze::dice::Dice;
use generative::maze::generator::aldous_broder::AldousBroder;
use generative::maze::generator::backtracking::Backtracking;
use generative::maze::generator::binary_tree::BinaryTree;
use generative::maze::generator::eller::{Eller, Stage};
use generative::maze::generator::growing_tree::GrowingTree;
use generative::maze::generator::hunt_and_kill::{HuntAndKill, Phase};
use generative::maze::generator::kruskal::{Edge, Kruskal, Side};
use generative::maze::generator::prim::Prim;
use generative::maze::generator::recursive_division::{Area, Cut, RecursiveDivision};
use generative::maze::generator::sidewinder::Sidewinder;
use generative::maze::generator::wilson::Wilson;
use generative::maze::generator::Growth;
use generative::maze::session::{AnyGenerator, GeneratorKind};
use generative::maze::{Board, Generator, State};

const KINDS: [GeneratorKind; 11] = [
    GeneratorKind::Backtracking,
    GeneratorKind::Kruskal,
    GeneratorKind::Eller,
    GeneratorKind::Prim,
    GeneratorKind::RecursiveDivision,
    GeneratorKind::AldousBroder,
    GeneratorKind::Wilson,
    GeneratorKind::HuntAndKill,
    GeneratorKind::GrowingTree,
    GeneratorKind::BinaryTree,
    GeneratorKind::Sidewinder,
];

const STEP_LIMIT: usize = 2_000_000;

/// The passages of a board, read off the walls of the left or upper cell of
/// each pair.
fn passages(board: &Board) -> Vec<(usize, usize)> {
    let n = board.board_size as usize;
    let mut found = Vec::new();
    for i in 0..n * n {
        let cell = &board.cells[i];
        if (cell.y as usize) < n - 1 && !cell.walls.bottom {
            found.push((i, i + 1));
        }
        if (cell.x as usize) < n - 1 && !cell.walls.right {
            found.push((i, i + n));
        }
    }
    found
}

/// Whether every wall between two cells stands on both sides or on neither.
fn walls_are_paired(board: &Board) -> bool {
    let n = board.board_size as usize;
    for i in 0..n * n {
        let cell = &board.cells[i];
        if (cell.y as usize) < n - 1 && cell.walls.bottom != board.cells[i + 1].walls.top {
            return false;
        }
        if (cell.x as usize) < n - 1 && cell.walls.right != board.cells[i + n].walls.left {
            return false;
        }
    }
    true
}

fn root(parents: &mut Vec<usize>, mut i: usize) -> usize {
    while parents[i] != i {
        parents[i] = parents[parents[i]];
        i = parents[i];
    }
    i
}

/// Counts the cycles closed and the pieces left by the passages of a board,
/// with a union-find of its own.
fn cycles_and_pieces(board: &Board) -> (usize, usize) {
    let n = board.board_size as usize;
    let mut parents: Vec<usize> = (0..n * n).collect();
    let mut cycles = 0;
    let mut pieces = n * n;
    for (a, b) in passages(board) {
        let ra = root(&mut parents, a);
        let rb = root(&mut parents, b);
        if ra == rb {
            cycles += 1;
        } else {
            parents[ra] = rb;
            pieces -= 1;
        }
    }
    (cycles, pieces)
}

fn assert_spanning_tree(board: &Board) {
    let n = board.board_size as usize;
    assert!(walls_are_paired(board));
    assert_eq!(passages(board).len(), n * n - 1);
    assert_eq!(cycles_and_pieces(board), (0, 1));
}

fn run_to_the_end(kind: GeneratorKind, size: i32, seed: u64) -> (Board, AnyGenerator, usize) {
    let mut board = Board::new(0, size, 10);
    let mut generator = AnyGenerator::new(kind, &mut board, Dice::seeded(seed));
    let mut steps = 0;
    loop {
        steps += 1;
        assert!(steps < STEP_LIMIT);
        match generator.step(&mut board) {
            State::GenerationDone => break,
            State::Generate => {}
            other => panic!("a generator answered {:?}", other),
        }
    }
    (board, generator, steps)
}

#[test]
fn every_generator_makes_a_spanning_tree_of_2() {
    for kind in KINDS {
        for seed in 0..20 {
            let (board, _, _) = run_to_the_end(kind, 2, seed);
            assert_spanning_tree(&board);
        }
    }
}

#[test]
fn every_generator_makes_a_spanning_tree_of_3() {
    for kind in KINDS {
        for seed in 0..20 {
            let (board, _, _) = run_to_the_end(kind, 3, seed);
            assert_spanning_tree(&board);
        }
    }
}

#[test]
fn every_generator_makes_a_spanning_tree_of_5() {
    for kind in KINDS {
        for seed in 0..10 {
            let (board, _, _) = run_to_the_end(kind, 5, seed);
            assert_spanning_tree(&board);
        }
    }
}

#[test]
fn every_generator_makes_a_spanning_tree_of_10() {
    for kind in KINDS {
        for seed in 0..3 {
            let (board, _, _) = run_to_the_end(kind, 10, seed);
            assert_spanning_tree(&board);
        }
    }
}

#[test]
fn every_generator_finishes_a_board_of_one_cell() {
    for kind in KINDS {
        let (board, _, steps) = run_to_the_end(kind, 1, 4);
        assert!(steps <= 2);
        assert!(board.finish);
        assert_eq!(passages(&board).len(), 0);
    }
}

#[test]
fn every_generator_sets_finish_with_its_last_step() {
    for kind in KINDS {
        let mut board = Board::new(0, 4, 10);
        let mut generator = AnyGenerator::new(kind, &mut board, Dice::seeded(8));
        loop {
            assert!(!board.finish);
            if generator.step(&mut board) == State::GenerationDone {
                break;
            }
        }
        assert!(board.finish);
    }
}

#[test]
fn walls_stay_paired_after_every_step() {
    for kind in KINDS {
        let mut board = Board::new(0, 5, 10);
        let mut generator = AnyGenerator::new(kind, &mut board, Dice::seeded(21));
        assert!(walls_are_paired(&board));
        let mut steps = 0;
        loop {
            steps += 1;
            assert!(steps < STEP_LIMIT);
            let state = generator.step(&mut board);
            assert!(walls_are_paired(&board));
            if state == State::GenerationDone {
                break;
            }
        }
    }
}

#[test]
fn passages_never_close_a_cycle_on_the_way() {
    for kind in KINDS {
        if kind == GeneratorKind::RecursiveDivision {
            continue;
        }
        let mut board = Board::new(0, 4, 10);
        let mut generator = AnyGenerator::new(kind, &mut board, Dice::seeded(13));
        loop {
            let state = generator.step(&mut board);
            assert_eq!(cycles_and_pieces(&board).0, 0);
            if state == State::GenerationDone {
                break;
            }
        }
    }
}

#[test]
fn steps_after_the_end_change_nothing() {
    for kind in KINDS {
        let (mut board, mut generator, _) = run_to_the_end(kind, 4, 17);
        let finished = board.clone();
        for _ in 0..5 {
            assert_eq!(generator.step(&mut board), State::GenerationDone);
            assert_eq!(board, finished);
        }
    }
}

#[test]
fn equal_seeds_give_equal_mazes() {
    for kind in KINDS {
        for size in [2, 5, 8] {
            let (first, _, steps_first) = run_to_the_end(kind, size, 31337);
            let (second, _, steps_second) = run_to_the_end(kind, size, 31337);
            assert_eq!(first, second);
            assert_eq!(steps_first, steps_second);
        }
    }
}

#[test]
fn different_seeds_give_different_mazes() {
    for kind in KINDS {
        let (first, _, _) = run_to_the_end(kind, 8, 1);
        let mut differs = false;
        for seed in 2..8 {
            let (other, _, _) = run_to_the_end(kind, 8, seed);
            if other.cells != first.cells {
                differs = true;
            }
        }
        assert!(differs);
    }
}

#[test]
fn backtracking_on_3x3() {
    let mut board = Board::new(0, 3, 10);
    let mut generator = Backtracking::with_dice(Dice::seeded(5));
    assert_eq!(generator.current, 0);
    let mut steps = 0;
    while generator.step(&mut board) != State::GenerationDone {
        steps += 1;
        assert!(steps < 1000);
    }
    assert_eq!(passages(&board).len(), 8);
    assert_eq!(cycles_and_pieces(&board), (0, 1));
    assert!(board.finish);
    assert!(board.path.is_empty());
    assert!(board.cells.iter().all(|cell| cell.visited));
}

#[test]
fn backtracking_takes_two_steps_per_passage() {
    // One step to carve each of the 8 passages, one to leave each of the 9
    // cells again.
    let mut board = Board::new(0, 3, 10);
    let mut generator = Backtracking::new();
    let mut steps = 1;
    while generator.step(&mut board) != State::GenerationDone {
        steps += 1;
    }
    assert_eq!(steps, 17);
}

#[test]
fn backtracking_advance_carves_and_pushes() {
    let mut board = Board::new(0, 3, 10);
    let mut generator = Backtracking::with_dice(Dice::seeded(1));
    assert_eq!(generator.advance(&mut board, Some(3)), State::Generate);
    assert_eq!(generator.current, 3);
    assert_eq!(board.path, vec![0, 3]);
    assert!(!board.cells[0].walls.right && !board.cells[3].walls.left);
    assert!(board.cells[3].visited);
}

#[test]
fn backtracking_advance_backs_out_of_a_dead_end() {
    let mut board = Board::new(0, 2, 10);
    let mut generator = Backtracking::with_dice(Dice::seeded(1));
    generator.advance(&mut board, Some(1));
    generator.advance(&mut board, Some(3));
    generator.advance(&mut board, Some(2));
    assert_eq!(board.path, vec![0, 1, 3, 2]);
    assert_eq!(generator.advance(&mut board, None), State::Generate);
    assert_eq!((generator.current, board.path.clone()), (3, vec![0, 1, 3]));
    assert_eq!(generator.advance(&mut board, None), State::Generate);
    assert_eq!(generator.advance(&mut board, None), State::Generate);
    assert_eq!((generator.current, board.path.clone()), (0, vec![0]));
    assert_eq!(generator.advance(&mut board, None), State::GenerationDone);
    assert!(generator.done && board.finish && board.path.is_empty());
}

#[test]
fn kruskal_on_4x4() {
    let mut board = Board::new(0, 4, 10);
    let mut generator = Kruskal::with_dice(&board, &mut Dice::seeded(9));
    assert!(!generator.all_joined());
    while generator.step(&mut board) != State::GenerationDone {}
    assert!(generator.all_joined());
    assert_eq!(generator.merged.count(), 16);
    for cell in 0..16 {
        assert!(generator.merged.same(0, cell));
    }
    assert_spanning_tree(&board);
    assert!(generator.edges.is_empty());
}

#[test]
fn kruskal_lists_every_inner_wall_once() {
    let board = Board::new(0, 3, 10);
    let edges = Kruskal::all_edges(&board);
    assert_eq!(edges.len(), 12);
    assert_eq!(edges[0], Edge { x: 1, y: 0, direction: Side::West });
    assert_eq!(edges[2], Edge { x: 0, y: 1, direction: Side::North });
    assert_eq!(edges[3], Edge { x: 1, y: 1, direction: Side::North });
    assert_eq!(edges[4], Edge { x: 1, y: 1, direction: Side::West });
    for (i, a) in edges.iter().enumerate() {
        for b in &edges[i + 1..] {
            assert_ne!(a, b);
        }
    }
}

#[test]
fn kruskal_shuffles_the_walls() {
    let board = Board::new(0, 6, 10);
    let listed = Kruskal::all_edges(&board);
    let generator = Kruskal::with_dice(&board, &mut Dice::seeded(77));
    assert_ne!(generator.edges, listed);
    assert_eq!(generator.edges.len(), listed.len());
    for edge in &listed {
        assert!(generator.edges.contains(edge));
    }
}

#[test]
fn kruskal_takes_one_step_per_wall_and_one_more() {
    let mut board = Board::new(0, 4, 10);
    let mut generator = Kruskal::new(&board);
    let mut steps = 1;
    while generator.step(&mut board) != State::GenerationDone {
        steps += 1;
    }
    assert_eq!(steps, 2 * 4 * 3 + 1);
}

#[test]
fn kruskal_opens_a_wall_only_between_classes() {
    let mut board = Board::new(0, 2, 10);
    // Taken from the back: north of (0, 1), west of (1, 0), north of
    // (1, 1), and last west of (1, 1), which would close the cycle.
    let order = vec![
        Edge { x: 1, y: 1, direction: Side::West },
        Edge { x: 1, y: 1, direction: Side::North },
        Edge { x: 1, y: 0, direction: Side::West },
        Edge { x: 0, y: 1, direction: Side::North },
    ];
    let mut generator = Kruskal::with_order(&board, order);
    for _ in 0..3 {
        assert_eq!(generator.step(&mut board), State::Generate);
    }
    assert_eq!(passages(&board), vec![(0, 1), (0, 2), (2, 3)]);
    assert_eq!(generator.step(&mut board), State::Generate);
    assert_eq!(passages(&board), vec![(0, 1), (0, 2), (2, 3)]);
    assert!(board.cells[1].walls.right && board.cells[3].walls.left);
    assert_eq!(generator.step(&mut board), State::GenerationDone);
}

#[test]
fn eller_walks_through_its_stages() {
    let mut board = Board::new(0, 3, 10);
    let mut generator = Eller::with_dice(&board, Dice::seeded(1));
    assert_eq!((generator.x, generator.y, generator.state), (0, 0, Stage::Merge));
    generator.merge(&mut board, true);
    assert_eq!((generator.x, generator.y, generator.state), (1, 0, Stage::Merge));
    assert!(!board.cells[0].walls.right && !board.cells[3].walls.left);
    generator.merge(&mut board, false);
    assert_eq!((generator.x, generator.y, generator.state), (0, 0, Stage::Bottom));
    assert!(board.cells[3].walls.right);
    generator.descend(&mut board, false);
    generator.descend(&mut board, false);
    generator.descend(&mut board, true);
    assert_eq!((generator.x, generator.y, generator.state), (0, 0, Stage::Close));
    assert!(!board.cells[6].walls.bottom && !board.cells[7].walls.top);
    // The class of the first two cells has no way down yet.
    assert_eq!(generator.orphans(&board), vec![0, 3]);
    generator.close(&mut board, Some(3));
    assert!(!board.cells[3].walls.bottom && !board.cells[4].walls.top);
    assert_eq!(generator.orphans(&board), Vec::<usize>::new());
    generator.close(&mut board, None);
    assert_eq!(generator.orphans(&board), Vec::<usize>::new());
    generator.close(&mut board, None);
    assert_eq!((generator.x, generator.y, generator.state), (0, 1, Stage::Merge));
}

#[test]
fn eller_joins_the_last_row_whatever_the_coin() {
    let mut board = Board::new(0, 2, 10);
    let mut generator = Eller::with_dice(&board, Dice::seeded(1));
    generator.merge(&mut board, false);
    generator.descend(&mut board, false);
    generator.descend(&mut board, false);
    generator.close(&mut board, Some(0));
    generator.close(&mut board, Some(2));
    assert_eq!((generator.x, generator.y, generator.state), (0, 1, Stage::Merge));
    assert_eq!(generator.merge(&mut board, false), State::GenerationDone);
    assert!(!board.cells[1].walls.right && !board.cells[3].walls.left);
    assert_spanning_tree(&board);
}

#[test]
fn prim_starts_with_the_neighbours_of_its_first_cell() {
    let board = Board::new(0, 3, 10);
    let generator = Prim::with_dice(&board, Dice::seeded(2));
    let start = generator.visited.root;
    let around: Vec<usize> = board.neighbors_of(start);
    let listed: Vec<usize> = generator.cells.iter().map(|free| free.index).collect();
    assert_eq!(listed, around);
    assert!(generator.cells.iter().all(|free| free.neighbor == start));
    assert!(generator.contains(&start));
    assert!(generator.contains(&around[0]));
}

#[test]
fn prim_grow_takes_a_frontier_cell_into_the_maze() {
    let mut board = Board::new(0, 3, 10);
    let mut generator = Prim::with_dice(&board, Dice::seeded(2));
    let item = generator.cells[0];
    let before = generator.cells.len();
    assert_eq!(generator.grow(&mut board, 0), State::Generate);
    assert!(generator.visited.contains(item.index));
    assert_eq!(passages(&board).len(), 1);
    assert!(generator.cells.iter().all(|free| free.index != item.index));
    assert!(generator.cells.len() >= before - 1);
    assert_eq!(generator.visited.left, 7);
}

#[test]
fn prim_takes_one_step_per_cell_but_the_first() {
    let mut board = Board::new(0, 5, 10);
    let mut generator = Prim::new(&board);
    let mut steps = 1;
    while generator.step(&mut board) != State::GenerationDone {
        steps += 1;
    }
    assert_eq!(steps, 24);
}

#[test]
fn recursive_division_clears_the_floor_first() {
    let mut board = Board::new(0, 3, 10);
    let generator = RecursiveDivision::new(&mut board);
    assert_eq!(passages(&board).len(), 12);
    assert!(board.cells.iter().all(|cell| cell.visited));
    assert!(!board.cells[0].walls.left);
    assert!(board.cells[1].walls.left && board.cells[0].walls.top);
    assert!(!board.cells[8].walls.right && board.cells[8].walls.bottom);
    assert_eq!(generator.areas.len(), 1);
    assert_eq!(generator.areas[0].start, (0, 0));
    assert_eq!(generator.areas[0].end, (3, 3));
    assert_eq!(generator.step, 0);
}

#[test]
fn recursive_division_divide_leaves_one_gap() {
    let mut board = Board::new(0, 3, 10);
    let _ = RecursiveDivision::new(&mut board);
    let whole = Area { start: (0, 0), end: (3, 3) };
    RecursiveDivision::divide(&mut board, whole, Cut { horizontal: true, at: 0, gap: 1 });
    assert!(board.cells[0].walls.bottom && board.cells[1].walls.top);
    assert!(!board.cells[3].walls.bottom && !board.cells[4].walls.top);
    assert!(board.cells[6].walls.bottom && board.cells[7].walls.top);
    assert_eq!(passages(&board).len(), 10);
    RecursiveDivision::divide(
        &mut board,
        Area { start: (0, 1), end: (3, 3) },
        Cut { horizontal: false, at: 1, gap: 2 },
    );
    assert!(board.cells[4].walls.right && board.cells[7].walls.left);
    assert!(!board.cells[5].walls.right && !board.cells[8].walls.left);
    assert!(!board.cells[3].walls.right);
    assert_eq!(passages(&board).len(), 9);
    assert!(walls_are_paired(&board));
}

#[test]
fn recursive_division_keeps_rooms_and_drops_corridors() {
    let whole = Area { start: (0, 0), end: (4, 4) };
    let mut rooms: Vec<Area> = Vec::new();
    RecursiveDivision::keep_parts(&mut rooms, whole, Cut { horizontal: true, at: 0, gap: 2 });
    assert_eq!(rooms.len(), 1);
    assert_eq!((rooms[0].start, rooms[0].end), ((0, 1), (4, 4)));
    RecursiveDivision::keep_parts(&mut rooms, whole, Cut { horizontal: false, at: 1, gap: 0 });
    assert_eq!(rooms.len(), 3);
    assert_eq!((rooms[1].start, rooms[1].end), ((0, 0), (2, 4)));
    assert_eq!((rooms[2].start, rooms[2].end), ((2, 0), (4, 4)));
    let pair = Area { start: (0, 0), end: (2, 2) };
    RecursiveDivision::keep_parts(&mut rooms, pair, Cut { horizontal: true, at: 0, gap: 0 });
    assert_eq!(rooms.len(), 3);
}

#[test]
fn recursive_division_stays_connected_all_the_way() {
    let mut board = Board::new(0, 6, 10);
    let mut generator = RecursiveDivision::with_dice(&mut board, Dice::seeded(6), None);
    loop {
        let state = generator.step(&mut board);
        assert_eq!(cycles_and_pieces(&board).1, 1);
        if state == State::GenerationDone {
            break;
        }
    }
    assert!(generator.areas.is_empty());
    assert_spanning_tree(&board);
}

#[test]
fn recursive_division_with_a_limit_stops_after_it() {
    let mut board = Board::new(0, 30, 10);
    let mut generator = RecursiveDivision::with_dice(&mut board, Dice::seeded(6), Some(1));
    assert_eq!(generator.step(&mut board), State::Generate);
    assert_eq!(generator.step(&mut board), State::GenerationDone);
    assert_eq!(generator.step, 2);
    assert!(!generator.areas.is_empty());
    assert!(board.finish);
    // Rooms are left, and with them cycles.
    assert!(cycles_and_pieces(&board).0 > 0);
    assert_eq!(cycles_and_pieces(&board).1, 1);
}

#[test]
fn recursive_division_with_the_old_limit_of_ten() {
    let mut board = Board::new(0, 5, 10);
    let mut generator = RecursiveDivision::with_dice(&mut board, Dice::seeded(3), Some(10));
    let mut steps = 1;
    while generator.step(&mut board) != State::GenerationDone {
        steps += 1;
    }
    assert!(steps <= 11);
    assert_spanning_tree(&board);
}

#[test]
fn aldous_broder_walk_to_carves_only_new_ground() {
    let mut board = Board::new(0, 3, 10);
    let mut generator = AldousBroder::with_dice(&board, Dice::seeded(1));
    let start = generator.current_cell;
    let next = board.neighbors_of(start)[0];
    assert_eq!(generator.walk_to(&mut board, next), State::Generate);
    assert_eq!(generator.current_cell, next);
    assert_eq!(passages(&board).len(), 1);
    assert_eq!(generator.visited.left, 7);
    assert_eq!(generator.walk_to(&mut board, start), State::Generate);
    assert_eq!(generator.current_cell, start);
    assert_eq!(passages(&board).len(), 1);
    assert_eq!(generator.visited.left, 7);
    assert!(generator.contains(&next) && generator.contains(&start));
}

#[test]
fn wilson_erases_loops_and_carves_the_walk() {
    let mut board = Board::new(0, 3, 10);
    let mut generator = Wilson::with_dice(&board, Dice::seeded(1));
    let root = generator.visited.root;
    // The first cell outside the maze.
    let first = if root == 0 { 1 } else { 0 };
    assert_eq!(generator.nth_outside(0), first);
    assert_eq!(generator.begin_walk(&board, 0), State::Generate);
    assert_eq!(generator.walk, vec![first]);
    assert_eq!(passages(&board).len(), 0);
    // Walk until the maze is met; whatever the way, nothing is carved
    // before and the whole walk is carved then.
    let mut dice = Dice::seeded(44);
    let mut steps = 0;
    loop {
        steps += 1;
        assert!(steps < 10_000);
        let around = board.neighbors_of(generator.current_cell);
        let next = dice.pick(&around).unwrap();
        let length = generator.walk.len();
        let met = generator.contains(&next);
        let at = generator.position(next);
        generator.wander(&mut board, next);
        if met {
            assert_eq!(passages(&board).len(), length);
            assert!(generator.walk.is_empty());
            assert_eq!(generator.visited.left, 8 - length);
            break;
        }
        assert_eq!(passages(&board).len(), 0);
        match at {
            Some(p) => assert_eq!(generator.walk.len(), p + 1),
            None => assert_eq!(generator.walk.len(), length + 1),
        }
        assert_eq!(*generator.walk.last().unwrap(), next);
    }
    assert_eq!(cycles_and_pieces(&board).0, 0);
}

#[test]
fn wilson_nth_outside_counts_the_cells_outside() {
    let board = Board::new(0, 2, 10);
    let generator = Wilson::with_dice(&board, Dice::seeded(10));
    let root = generator.visited.root;
    let outside: Vec<usize> = (0..4).filter(|&cell| cell != root).collect();
    for nth in 0..3 {
        assert_eq!(generator.nth_outside(nth), outside[nth]);
    }
}

#[test]
fn hunt_and_kill_turns_to_the_hunt_at_a_dead_end() {
    let mut board = Board::new(0, 2, 10);
    let mut generator = HuntAndKill::with_dice(&board, Dice::seeded(1));
    let start = generator.current_cell;
    assert_eq!(generator.state, Phase::Kill);
    // The hunt scans row by row: the cells 0 and 2 of the upper row, then
    // 1 and 3.
    let around = board.neighbors_of(start);
    let first = [0usize, 2, 1, 3].into_iter().find(|cell| around.contains(cell));
    assert_eq!(generator.seek(&board), first);
    let mut steps = 0;
    let mut hunted = false;
    loop {
        steps += 1;
        assert!(steps < 100);
        let was = (generator.state, generator.visited.left);
        let state = generator.step(&mut board);
        if generator.state == Phase::Hunt && was.0 == Phase::Kill {
            hunted = true;
            assert_eq!(generator.visited.left, was.1);
        }
        if state == State::GenerationDone {
            break;
        }
    }
    assert!(hunted || generator.visited.left == 0);
    assert_spanning_tree(&board);
}

#[test]
fn hunt_and_kill_seeks_row_by_row() {
    let mut board = Board::new(0, 3, 10);
    let mut generator = HuntAndKill::with_dice(&board, Dice::seeded(1));
    // Put the maze on the middle cell alone.
    generator.visited = Growth::plant(&board, 4);
    generator.current_cell = 4;
    // Row 0 holds the cells 0, 3 and 6; only 3 borders the middle.
    assert_eq!(generator.seek(&board), Some(3));
    generator.kill(&mut board, 3);
    assert_eq!(generator.seek(&board), Some(0));
    generator.state = Phase::Hunt;
    generator.hunt(&mut board, 0, 3);
    assert_eq!((generator.current_cell, generator.state), (0, Phase::Kill));
    assert_eq!(passages(&board), vec![(0, 3), (3, 4)]);
    assert_eq!(generator.seek(&board), Some(6));
}

#[test]
fn growing_tree_from_the_newest_walks_like_a_backtracker() {
    let mut board = Board::new(0, 4, 10);
    let mut generator = GrowingTree::with_dice(&board, Dice::seeded(12), true);
    assert_eq!(generator.active.len(), 1);
    let mut steps = 1;
    while generator.step(&mut board) != State::GenerationDone {
        steps += 1;
        assert!(steps < 1000);
    }
    // One step to carve each of the 15 passages, one to retire each cell.
    assert_eq!(steps, 31);
    assert!(generator.active.is_empty());
    assert_spanning_tree(&board);
}

#[test]
fn growing_tree_grow_adds_or_retires() {
    let mut board = Board::new(0, 2, 10);
    let mut generator = GrowingTree::with_dice(&board, Dice::seeded(12), false);
    let start = generator.active[0];
    let next = board.neighbors_of(start)[0];
    assert_eq!(generator.grow(&mut board, 0, Some(next)), State::Generate);
    assert_eq!(generator.active, vec![start, next]);
    assert_eq!(passages(&board).len(), 1);
    let other = board.neighbors_of(start)[1];
    generator.grow(&mut board, 0, Some(other));
    assert_eq!(generator.active, vec![start, next, other]);
    assert_eq!(generator.grow(&mut board, 0, None), State::Generate);
    assert_eq!(generator.active, vec![next, other]);
}

#[test]
fn binary_tree_carves_east_or_south() {
    let mut board = Board::new(0, 3, 10);
    let mut generator = BinaryTree::with_dice(Dice::seeded(1));
    assert_eq!(generator.carve(&mut board, true), State::Generate);
    assert!(!board.cells[0].walls.right && !board.cells[3].walls.left);
    assert_eq!((generator.x, generator.y), (1, 0));
    assert_eq!(generator.carve(&mut board, false), State::Generate);
    assert!(!board.cells[3].walls.bottom && !board.cells[4].walls.top);
    assert_eq!((generator.x, generator.y), (2, 0));
    assert_eq!(generator.carve(&mut board, false), State::Generate);
    assert!(!board.cells[6].walls.bottom && !board.cells[7].walls.top);
    assert_eq!((generator.x, generator.y), (0, 1));
}

#[test]
fn binary_tree_opens_a_corridor_along_two_edges() {
    for seed in 0..10 {
        let mut board = Board::new(0, 5, 10);
        let mut generator = BinaryTree::with_dice(Dice::seeded(seed));
        let mut steps = 1;
        while generator.step(&mut board) != State::GenerationDone {
            steps += 1;
        }
        assert_eq!(steps, 25);
        for y in 0..4 {
            assert!(!board.cells[(4 * 5 + y) as usize].walls.bottom);
        }
        for x in 0..4 {
            assert!(!board.cells[(x * 5 + 4) as usize].walls.right);
        }
        assert_spanning_tree(&board);
    }
}

#[test]
fn sidewinder_extends_and_closes_runs() {
    let mut board = Board::new(0, 3, 10);
    let mut generator = Sidewinder::with_dice(Dice::seeded(1));
    assert_eq!(generator.extend(&mut board), State::Generate);
    assert!(!board.cells[0].walls.right && !board.cells[3].walls.left);
    assert_eq!((generator.x, generator.y, generator.run_start), (1, 0, 0));
    assert_eq!(generator.close(&mut board, 0), State::Generate);
    assert!(!board.cells[0].walls.bottom && !board.cells[1].walls.top);
    assert!(board.cells[3].walls.bottom);
    assert_eq!((generator.x, generator.y, generator.run_start), (2, 0, 2));
    assert_eq!(generator.close(&mut board, 2), State::Generate);
    assert!(!board.cells[6].walls.bottom && !board.cells[7].walls.top);
    assert_eq!((generator.x, generator.y, generator.run_start), (0, 1, 0));
}

#[test]
fn sidewinder_makes_the_last_row_one_run() {
    for seed in 0..10 {
        let mut board = Board::new(0, 5, 10);
        let mut generator = Sidewinder::with_dice(Dice::seeded(seed));
        while generator.step(&mut board) != State::GenerationDone {}
        for x in 0..4 {
            assert!(!board.cells[(x * 5 + 4) as usize].walls.right);
        }
        assert_spanning_tree(&board);
    }
}

#[test]
fn growth_counts_what_is_left() {
    let mut board = Board::new(0, 2, 10);
    let mut growth = Growth::plant(&board, 3);
    assert_eq!(growth.left, 3);
    assert!(growth.contains(3) && !growth.contains(0) && !growth.contains(4));
    assert!(!growth.is_complete());
    growth.attach(&mut board, 3, 1);
    growth.attach(&mut board, 1, 0);
    growth.attach(&mut board, 0, 2);
    assert!(growth.is_complete());
    assert_eq!(passages(&board), vec![(0, 1), (0, 2), (1, 3)]);
}

#[test]
fn draw_leaves_generator_and_board_alone() {
    let mut board = Board::new(0, 3, 10);
    let generator = AnyGenerator::new(GeneratorKind::Prim, &mut board, Dice::seeded(1));
    let before = board.clone();
    generator.draw(&board);
    assert_eq!(board, before);
}

fn finished<G: Generator>(mut generator: G, size: i32) -> Board {
    let mut board = Board::new(0, size, 10);
    let mut steps = 0;
    while generator.step(&mut board) != State::GenerationDone {
        steps += 1;
        assert!(steps < STEP_LIMIT);
    }
    board
}

#[test]
fn generators_made_with_dice_draw_from_those_dice() {
    // The same dice give the same maze, and among a few other dice some
    // give another: the generator draws from the dice it was handed.
    let backtracking = finished(Backtracking::with_dice(Dice::seeded(3)), 8);
    assert_eq!(backtracking, finished(Backtracking::with_dice(Dice::seeded(3)), 8));
    assert!((4..10).any(|seed| finished(Backtracking::with_dice(Dice::seeded(seed)), 8)
        != backtracking));
    let binary_tree = finished(BinaryTree::with_dice(Dice::seeded(3)), 8);
    assert_eq!(binary_tree, finished(BinaryTree::with_dice(Dice::seeded(3)), 8));
    assert!((4..10).any(|seed| finished(BinaryTree::with_dice(Dice::seeded(seed)), 8)
        != binary_tree));
    let sidewinder = finished(Sidewinder::with_dice(Dice::seeded(3)), 8);
    assert_eq!(sidewinder, finished(Sidewinder::with_dice(Dice::seeded(3)), 8));
    assert!((4..10).any(|seed| finished(Sidewinder::with_dice(Dice::seeded(seed)), 8)
        != sidewinder));
}

#[test]
fn equal_seeds_give_equal_boards_after_every_step() {
    for kind in KINDS {
        for seed in [0u64, 7, 99] {
            let mut board = Board::new(0, 6, 10);
            let mut other = Board::new(0, 6, 10);
            let mut generator = AnyGenerator::new(kind, &mut board, Dice::seeded(seed));
            let mut twin = AnyGenerator::new(kind, &mut other, Dice::seeded(seed));
            assert_eq!(board, other);
            let mut steps = 0;
            loop {
                let state = generator.step(&mut board);
                assert_eq!(twin.step(&mut other), state);
                assert_eq!(board, other);
                steps += 1;
                assert!(steps < 100_000);
                if state == State::GenerationDone {
                    break;
                }
            }
        }
    }
}
