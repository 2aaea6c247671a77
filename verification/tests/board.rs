use generative::maze::{Board, Cell, Direction, MazeError, State, Walls};

fn all_up() -> Walls {
    Walls { left: true, right: true, top: true, bottom: true }
}

#[test]
fn walls_default_are_all_up() {
    assert_eq!(Walls::default(), all_up());
}

#[test]
fn cell_new_is_unvisited_with_all_walls() {
    let cell = Cell::new(3, 4);
    assert_eq!(cell, Cell { x: 3, y: 4, visited: false, walls: all_up() });
}

#[test]
fn board_new_has_one_cell_per_square_in_column_order() {
    let board = Board::new(5, 3, 20);
    assert_eq!(board.cells.len(), 9);
    assert_eq!(board.board_size, 3);
    assert_eq!(board.cell_size, 20);
    assert_eq!(board.x, 5);
    assert_eq!(board.y, 5);
    assert!(!board.finish);
    assert_eq!(board.path, vec![0]);
    for x in 0..3 {
        for y in 0..3 {
            let cell = board.cells[(x * 3 + y) as usize];
            assert_eq!((cell.x, cell.y), (x, y));
        }
    }
}

#[test]
fn board_new_opens_entrance_and_exit_only() {
    let board = Board::new(0, 4, 10);
    for (i, cell) in board.cells.iter().enumerate() {
        assert_eq!(cell.visited, i == 0);
        assert_eq!(cell.walls.left, i != 0);
        assert_eq!(cell.walls.right, i != 15);
        assert!(cell.walls.top);
        assert!(cell.walls.bottom);
    }
}

#[test]
fn board_of_one_cell_is_entrance_and_exit_at_once() {
    let board = Board::new(0, 1, 10);
    assert_eq!(board.cells.len(), 1);
    assert!(!board.cells[0].walls.left);
    assert!(!board.cells[0].walls.right);
    assert!(board.cells[0].visited);
}

#[test]
fn get_index_maps_column_and_row() {
    let board = Board::new(0, 5, 10);
    assert_eq!(board.get_index(0, 0), 0);
    assert_eq!(board.get_index(0, 4), 4);
    assert_eq!(board.get_index(1, 0), 5);
    assert_eq!(board.get_index(3, 2), 17);
    assert_eq!(board.get_index(4, 4), 24);
}

#[test]
fn try_get_index_agrees_inside_the_grid() {
    let board = Board::new(0, 5, 10);
    assert_eq!(board.try_get_index(3, 2), Ok(17));
    assert_eq!(board.try_get_index(0, 0), Ok(0));
}

#[test]
fn try_get_index_reports_index_consistency() {
    let board = Board::new(0, 5, 10);
    assert_eq!(board.try_get_index(5, 0), Err(MazeError::IndexConsistency));
    assert_eq!(board.try_get_index(0, 5), Err(MazeError::IndexConsistency));
    assert_eq!(board.try_get_index(-1, 0), Err(MazeError::IndexConsistency));
    assert_eq!(board.try_get_index(0, -1), Err(MazeError::IndexConsistency));
    assert_eq!(board.try_get_index(i32::MAX, i32::MAX), Err(MazeError::IndexConsistency));
}

#[test]
fn try_get_index_checks_the_stored_coordinates() {
    let mut board = Board::new(0, 3, 10);
    board.cells[4].x = 2;
    assert_eq!(board.try_get_index(1, 1), Err(MazeError::IndexConsistency));
}

#[test]
fn neighbors_are_top_bottom_left_right() {
    let board = Board::new(0, 3, 10);
    assert_eq!(board.neighbors(4), vec![Some(3), Some(5), Some(1), Some(7)]);
}

#[test]
fn neighbors_are_none_at_the_edges() {
    let board = Board::new(0, 3, 10);
    assert_eq!(board.neighbors(0), vec![None, Some(1), None, Some(3)]);
    assert_eq!(board.neighbors(8), vec![Some(7), None, Some(5), None]);
    assert_eq!(board.neighbors(2), vec![Some(1), None, None, Some(5)]);
    assert_eq!(board.neighbors(6), vec![None, Some(7), Some(3), None]);
}

#[test]
fn neighbors_of_the_only_cell_are_none() {
    let board = Board::new(0, 1, 10);
    assert_eq!(board.neighbors(0), vec![None, None, None, None]);
}

#[test]
fn neighbors_of_lists_what_exists() {
    let board = Board::new(0, 3, 10);
    assert_eq!(board.neighbors_of(0), vec![1, 3]);
    assert_eq!(board.neighbors_of(4), vec![3, 5, 1, 7]);
}

#[test]
fn neighbors_visited_sorts_by_flag() {
    let mut board = Board::new(0, 3, 10);
    board.remove_wall(4, 5);
    assert_eq!(board.neighbors_visited(4, true), vec![5]);
    assert_eq!(board.neighbors_visited(4, false), vec![3, 1, 7]);
}

#[test]
fn direction_follows_the_coordinates() {
    let here = Cell::new(2, 2);
    assert_eq!(here.direction(&Cell::new(2, 3)), Direction::South);
    assert_eq!(here.direction(&Cell::new(2, 1)), Direction::North);
    assert_eq!(here.direction(&Cell::new(1, 2)), Direction::West);
    assert_eq!(here.direction(&Cell::new(3, 2)), Direction::East);
    assert_eq!(here.direction(&Cell::new(2, 9)), Direction::South);
}

#[test]
fn direction_to_is_none_off_the_lines() {
    let here = Cell::new(2, 2);
    assert_eq!(here.direction_to(&Cell::new(2, 3)), Some(Direction::South));
    assert_eq!(here.direction_to(&Cell::new(0, 2)), Some(Direction::West));
    assert_eq!(here.direction_to(&Cell::new(3, 3)), None);
    assert_eq!(here.direction_to(&Cell::new(2, 2)), None);
}

#[test]
fn remove_wall_clears_both_sides_and_marks_visited() {
    let mut board = Board::new(0, 3, 10);
    board.remove_wall(4, 5);
    assert!(!board.cells[4].walls.bottom);
    assert!(!board.cells[5].walls.top);
    assert!(board.cells[4].visited && board.cells[5].visited);
    assert!(board.cells[4].walls.top && board.cells[4].walls.left && board.cells[4].walls.right);
    assert!(board.cells[5].walls.bottom && board.cells[5].walls.left && board.cells[5].walls.right);
    board.remove_wall(4, 1);
    assert!(!board.cells[4].walls.left);
    assert!(!board.cells[1].walls.right);
    board.remove_wall(4, 7);
    assert!(!board.cells[4].walls.right);
    assert!(!board.cells[7].walls.left);
    board.remove_wall(4, 3);
    assert!(!board.cells[4].walls.top);
    assert!(!board.cells[3].walls.bottom);
}

#[test]
fn remove_wall_leaves_the_other_cells_alone() {
    let fresh = Board::new(0, 3, 10);
    let mut board = fresh.clone();
    board.remove_wall(0, 3);
    for i in 0..9 {
        if i != 0 && i != 3 {
            assert_eq!(board.cells[i], fresh.cells[i]);
        }
    }
    assert_eq!(board.path, fresh.path);
    assert_eq!(board.finish, fresh.finish);
}

#[test]
fn add_wall_undoes_remove_wall() {
    let fresh = Board::new(0, 3, 10);
    let mut board = fresh.clone();
    board.remove_wall(4, 7);
    board.add_wall(7, 4);
    assert_eq!(board.cells[4].walls, fresh.cells[4].walls);
    assert_eq!(board.cells[7].walls, fresh.cells[7].walls);
}

#[test]
fn try_remove_wall_reports_invalid_adjacency() {
    let fresh = Board::new(0, 3, 10);
    let mut board = fresh.clone();
    assert_eq!(board.try_remove_wall(0, 4), Err(MazeError::InvalidAdjacency));
    assert_eq!(board.try_remove_wall(0, 2), Err(MazeError::InvalidAdjacency));
    assert_eq!(board.try_remove_wall(2, 3), Err(MazeError::InvalidAdjacency));
    assert_eq!(board.try_remove_wall(0, 0), Err(MazeError::InvalidAdjacency));
    assert_eq!(board.try_remove_wall(0, 9), Err(MazeError::InvalidAdjacency));
    assert_eq!(board.try_remove_wall(12, 1), Err(MazeError::InvalidAdjacency));
    assert_eq!(board, fresh);
}

#[test]
fn try_remove_wall_carves_between_neighbours() {
    let mut board = Board::new(0, 3, 10);
    assert_eq!(board.try_remove_wall(0, 1), Ok(()));
    assert!(!board.cells[0].walls.bottom);
    assert!(!board.cells[1].walls.top);
}

#[test]
fn get_cell_hands_out_the_cell() {
    let mut board = Board::new(0, 3, 10);
    assert_eq!(*board.get_cell(4), Cell { x: 1, y: 1, visited: false, walls: all_up() });
    board.get_cell(4).visited = true;
    assert!(board.cells[4].visited);
}

#[test]
fn every_error_describes_itself() {
    assert_eq!(MazeError::InvalidAdjacency.describe(), "cells are not adjacent");
    assert_eq!(MazeError::IndexConsistency.describe(), "coordinates do not match the index");
    assert_eq!(MazeError::Unreachable.describe(), "no path found");
    assert_eq!(MazeError::EmptyFrontier.describe(), "no item selected");
}

#[test]
fn states_are_distinct() {
    let all = [State::Wait, State::Generate, State::GenerationDone, State::Solve, State::Done];
    for i in 0..5 {
        for j in 0..5 {
            assert_eq!(all[i] == all[j], i == j);
        }
    }
}
