use minesweeper::cell::{CellContent, CellStatus, CellVisibility, Coordinate, GameState};
use minesweeper::game::{Game, GameError};

fn at(x: usize, y: usize) -> Coordinate {
    Coordinate { x, y }
}

fn cell(g: &Game, x: usize, y: usize) -> CellStatus {
    g.get_cell(&at(x, y)).expect("on the board")
}

fn board(width: usize, height: usize, mines: usize, draws: Vec<usize>) -> Game {
    match Game::from_draws(width, height, mines, &draws) {
        Ok(g) => g,
        Err(e) => panic!("unexpected {:?}", e),
    }
}

fn snapshot(g: &Game) -> Vec<CellStatus> {
    let mut v = Vec::new();
    for y in 0..g.height() {
        for x in 0..g.width() {
            v.push(cell(g, x, y));
        }
    }
    v
}

fn mine_count(g: &Game) -> usize {
    snapshot(g).iter().filter(|c| c.content == CellContent::Mine).count()
}

fn true_count(g: &Game, x: usize, y: usize) -> usize {
    let mut n = 0;
    for dy in -1i64..=1 {
        for dx in -1i64..=1 {
            if dx == 0 && dy == 0 {
                continue;
            }
            let nx = x as i64 + dx;
            let ny = y as i64 + dy;
            if nx >= 0 && ny >= 0 && (nx as usize) < g.width() && (ny as usize) < g.height() {
                if cell(g, nx as usize, ny as usize).content == CellContent::Mine {
                    n += 1;
                }
            }
        }
    }
    n
}

fn check_fresh_board(g: &Game, width: usize, height: usize, mines: usize) {
    assert_eq!(g.width(), width);
    assert_eq!(g.height(), height);
    assert_eq!(g.state(), GameState::Playing);
    assert_eq!(mine_count(g), mines);
    for y in 0..height {
        for x in 0..width {
            let c = cell(g, x, y);
            assert_eq!(c.status, CellVisibility::Hidden);
            if let CellContent::Empty(n) = c.content {
                assert_eq!(n, true_count(g, x, y));
            }
        }
    }
}

#[test]
fn new_boards_have_exact_mines_and_counts() {
    for &(w, h, m) in &[(9, 9, 10), (16, 16, 40), (30, 16, 99), (1, 1, 0), (3, 2, 5), (4, 4, 0)] {
        let g = Game::new(w, h, m).expect("valid configuration");
        check_fresh_board(&g, w, h, m);
    }
}

#[test]
fn too_many_mines_is_rejected() {
    assert!(matches!(Game::new(2, 2, 4), Err(GameError::InvalidConfiguration)));
    assert!(matches!(Game::new(2, 2, 5), Err(GameError::InvalidConfiguration)));
    assert!(matches!(Game::new(1, 1, 1), Err(GameError::InvalidConfiguration)));
    assert!(matches!(Game::from_draws(3, 3, 9, &vec![0; 9]), Err(GameError::InvalidConfiguration)));
}

#[test]
fn zero_side_is_rejected() {
    assert!(matches!(Game::new(0, 3, 0), Err(GameError::InvalidConfiguration)));
    assert!(matches!(Game::new(3, 0, 0), Err(GameError::InvalidConfiguration)));
}

#[test]
fn random_placement_reaches_every_cell() {
    let mut seen = [false, false];
    for _ in 0..200 {
        let g = Game::new(2, 1, 1).expect("valid configuration");
        for x in 0..2 {
            if cell(&g, x, 0).content == CellContent::Mine {
                seen[x] = true;
            }
        }
    }
    assert!(seen[0] && seen[1]);
}

#[test]
fn draws_choose_mine_positions() {
    // Row-major positions of a 3 x 3 board; the first draw moves index 8 to the front.
    let g = board(3, 3, 1, vec![8]);
    assert_eq!(cell(&g, 2, 2).content, CellContent::Mine);
    assert_eq!(mine_count(&g), 1);
    assert_eq!(cell(&g, 1, 1).content, CellContent::Empty(1));
    assert_eq!(cell(&g, 0, 0).content, CellContent::Empty(0));
    // Draws are taken modulo the positions left: 17 % 9 == 8.
    let h = board(3, 3, 2, vec![17, 0]);
    assert_eq!(cell(&h, 2, 2).content, CellContent::Mine);
    assert_eq!(cell(&h, 1, 0).content, CellContent::Mine);
    assert_eq!(mine_count(&h), 2);
    check_fresh_board(&h, 3, 3, 2);
}

#[test]
fn single_cell_board_is_won_by_one_reveal() {
    let mut g = Game::new(1, 1, 0).expect("valid configuration");
    assert_eq!(cell(&g, 0, 0).content, CellContent::Empty(0));
    g.reveal_field_checked(at(0, 0));
    assert_eq!(cell(&g, 0, 0).status, CellVisibility::Revealed);
    assert_eq!(g.state(), GameState::Won);
}

#[test]
fn numbered_cell_does_not_cascade() {
    let mut g = board(2, 1, 1, vec![0]);
    assert_eq!(cell(&g, 0, 0).content, CellContent::Mine);
    assert_eq!(cell(&g, 1, 0).content, CellContent::Empty(1));
    g.reveal_field_checked(at(1, 0));
    assert_eq!(cell(&g, 1, 0).status, CellVisibility::Revealed);
    assert_eq!(cell(&g, 0, 0).status, CellVisibility::Hidden);
    assert_eq!(g.state(), GameState::Playing);
}

#[test]
fn blank_region_and_border_are_revealed() {
    let mut g = board(3, 3, 1, vec![8]);
    g.reveal_field_checked(at(0, 0));
    for y in 0..3 {
        for x in 0..3 {
            let expected = if (x, y) == (2, 2) { CellVisibility::Hidden } else { CellVisibility::Revealed };
            assert_eq!(cell(&g, x, y).status, expected);
        }
    }
    assert_eq!(g.state(), GameState::Playing);
}

#[test]
fn cascade_stops_at_numbered_cells() {
    // One row: blank, 1, mine, 1, blank.
    let mut g = board(5, 1, 1, vec![2]);
    assert_eq!(cell(&g, 2, 0).content, CellContent::Mine);
    assert_eq!(cell(&g, 4, 0).content, CellContent::Empty(0));
    g.reveal_field_checked(at(0, 0));
    assert_eq!(cell(&g, 0, 0).status, CellVisibility::Revealed);
    assert_eq!(cell(&g, 1, 0).status, CellVisibility::Revealed);
    assert_eq!(cell(&g, 2, 0).status, CellVisibility::Hidden);
    assert_eq!(cell(&g, 3, 0).status, CellVisibility::Hidden);
    assert_eq!(cell(&g, 4, 0).status, CellVisibility::Hidden);
    assert_eq!(g.state(), GameState::Playing);
}

#[test]
fn flags_block_the_cascade() {
    let mut g = board(3, 3, 1, vec![8]);
    g.toggle_flag_checked(at(0, 1));
    g.reveal_field_checked(at(0, 0));
    assert_eq!(cell(&g, 0, 1).status, CellVisibility::Flagged);
    // (0, 2) touches no revealed blank cell but the flagged one.
    assert_eq!(cell(&g, 0, 2).status, CellVisibility::Hidden);
    assert_eq!(cell(&g, 2, 0).status, CellVisibility::Revealed);
    assert_eq!(cell(&g, 2, 2).status, CellVisibility::Hidden);
}

#[test]
fn revealing_a_mine_loses_and_freezes() {
    let mut g = board(3, 3, 1, vec![8]);
    assert!(!g.is_lost());
    g.reveal_field_checked(at(2, 2));
    assert_eq!(g.state(), GameState::Lost);
    assert!(g.is_lost());
    let before = snapshot(&g);
    g.reveal_field_checked(at(0, 0));
    g.toggle_flag_checked(at(1, 1));
    assert_eq!(snapshot(&g), before);
    assert_eq!(g.state(), GameState::Lost);
}

#[test]
fn toggling_twice_restores_hidden() {
    let mut g = board(3, 3, 1, vec![8]);
    g.toggle_flag_checked(at(1, 1));
    assert_eq!(cell(&g, 1, 1).status, CellVisibility::Flagged);
    g.toggle_flag_checked(at(1, 1));
    assert_eq!(cell(&g, 1, 1).status, CellVisibility::Hidden);
    assert_eq!(g.state(), GameState::Playing);
}

#[test]
fn toggling_revealed_cell_is_noop() {
    let mut g = board(3, 3, 1, vec![8]);
    g.reveal_field_checked(at(1, 1));
    assert_eq!(cell(&g, 1, 1).status, CellVisibility::Revealed);
    let before = snapshot(&g);
    g.toggle_flag_checked(at(1, 1));
    assert_eq!(snapshot(&g), before);
}

#[test]
fn flagging_last_mine_wins() {
    let mut g = board(3, 3, 1, vec![8]);
    g.reveal_field_checked(at(0, 0));
    assert_eq!(g.state(), GameState::Playing);
    g.toggle_flag_checked(at(2, 2));
    assert_eq!(g.state(), GameState::Won);
    assert!(g.is_fully_revealed_and_marked());
    let before = snapshot(&g);
    g.toggle_flag_checked(at(2, 2));
    assert_eq!(snapshot(&g), before);
}

#[test]
fn revealing_last_safe_cell_wins() {
    let mut g = board(2, 1, 1, vec![0]);
    g.toggle_flag_checked(at(0, 0));
    assert_eq!(g.state(), GameState::Playing);
    assert!(!g.is_fully_revealed_and_marked());
    g.reveal_field_checked(at(1, 0));
    assert_eq!(g.state(), GameState::Won);
}

#[test]
fn flagging_a_safe_last_cell_does_not_win() {
    let mut g = board(2, 1, 1, vec![0]);
    g.toggle_flag_checked(at(0, 0));
    g.toggle_flag_checked(at(1, 0));
    assert!(g.is_fully_revealed_and_marked());
    assert_eq!(g.state(), GameState::Playing);
}

#[test]
fn out_of_bounds_actions_are_ignored() {
    let mut g = board(3, 3, 1, vec![8]);
    let before = snapshot(&g);
    g.reveal_field_checked(at(3, 0));
    g.reveal_field_checked(at(0, 7));
    g.toggle_flag_checked(at(usize::MAX, usize::MAX));
    assert_eq!(snapshot(&g), before);
    assert_eq!(g.state(), GameState::Playing);
    assert_eq!(g.get_cell(&at(3, 3)), None);
}

#[test]
fn neighbours_are_clipped_and_ordered() {
    let g = board(3, 3, 0, vec![]);
    let corner = g.get_neighbours(&at(0, 0));
    assert_eq!(corner, vec![at(0, 1), at(1, 0), at(1, 1)]);
    let centre = g.get_neighbours(&at(1, 1));
    assert_eq!(
        centre,
        vec![at(0, 0), at(0, 1), at(0, 2), at(1, 0), at(1, 2), at(2, 0), at(2, 1), at(2, 2)]
    );
    let edge = g.get_neighbours(&at(2, 1));
    assert_eq!(edge, vec![at(1, 0), at(1, 1), at(1, 2), at(2, 0), at(2, 2)]);
    let single = board(1, 1, 0, vec![]);
    assert!(single.get_neighbours(&at(0, 0)).is_empty());
}

#[test]
fn game_state_words() {
    assert_eq!(GameState::Playing.as_str(), "Playing");
    assert_eq!(GameState::Won.as_str(), "Won");
    assert_eq!(GameState::Lost.as_str(), "Lost");
    assert!(GameState::Playing.is_playing());
    assert!(!GameState::Won.is_playing());
}

#[test]
fn fresh_cell_is_hidden_blank() {
    let c = CellStatus::new();
    assert_eq!(c.content, CellContent::Empty(0));
    assert_eq!(c.status, CellVisibility::Hidden);
}
