use minesweeper::board::Board;
use minesweeper::cell::Cell;
use minesweeper::render::{braces, Glyph};

fn blank_board<const C: usize, const N: usize>() -> Board<C, N> {
    Board::new_from_rolls(&[0usize; N], 0, 1)
}

#[test]
fn no_chance_of_mines_lays_none() {
    let rolls: Vec<usize> = (0..20).collect();
    let b = Board::<5, 20>::new_from_rolls(&rolls, 0, 1);
    for cell in b.cells.iter() {
        assert!(!cell.mine());
        assert_eq!(cell.neighbours(), 0);
        assert!(cell.covered());
        assert!(!cell.flagged());
    }
    assert_eq!(b.cursor, 0);
    let mut rng = rand::thread_rng();
    let r = Board::<4, 16>::new_from_rng(&mut rng, 0, 8);
    for cell in r.cells.iter() {
        assert!(!cell.mine());
        assert_eq!(cell.neighbours(), 0);
    }
}

#[test]
fn certain_mines_fill_every_cell() {
    let mut rng = rand::thread_rng();
    let b = Board::<4, 12>::new_from_rng(&mut rng, 1, 1);
    for cell in b.cells.iter() {
        assert!(cell.mine());
        assert!(cell.covered());
    }
    // corners see three mines, edges five, the middle eight
    assert_eq!(b.cells[0].neighbours(), 3);
    assert_eq!(b.cells[1].neighbours(), 5);
    assert_eq!(b.cells[5].neighbours(), 8);
}

#[test]
fn centre_mine_counts_one_around() {
    let rolls = [8usize, 8, 8, 8, 0, 8, 8, 8, 8];
    let b = Board::<3, 9>::new_from_rolls(&rolls, 1, 9);
    assert!(b.cells[4].mine());
    for i in [0usize, 1, 2, 3, 5, 6, 7, 8] {
        assert!(!b.cells[i].mine());
        assert_eq!(b.cells[i].neighbours(), 1);
    }
    assert_eq!(b.cells[4].neighbours(), 0);
}

#[test]
fn rolls_below_the_ratio_lay_mines() {
    // 2x3 grid, ratio 1/2: a roll r lays a mine when r / 6 < 1 / 2, so r < 3
    let rolls = [0usize, 3, 5, 2, 4, 1];
    let b = Board::<3, 6>::new_from_rolls(&rolls, 1, 2);
    let mines: Vec<bool> = b.cells.iter().map(|c| c.mine()).collect();
    assert_eq!(mines, vec![true, false, false, true, false, true]);
    let counts: Vec<u8> = b.cells.iter().map(|c| c.neighbours()).collect();
    assert_eq!(counts, vec![1, 3, 1, 1, 3, 0]);
}

#[test]
fn fill_on_mine_free_grid_uncovers_everything() {
    let mut b: Board<5, 20> = blank_board();
    b.uncover_blank_neighbours(7);
    for cell in b.cells.iter() {
        assert!(!cell.covered());
    }
    let mut c: Board<1, 4> = blank_board();
    c.uncover_blank_neighbours(3);
    assert!(c.cells.iter().all(|x| !x.covered()));
}

#[test]
fn fill_stops_at_numbered_cells() {
    // 3x3, mine in the top right corner
    let rolls = [9usize, 9, 0, 9, 9, 9, 9, 9, 9];
    let mut b = Board::<3, 9>::new_from_rolls(&rolls, 1, 9);
    b.uncover_blank_neighbours(6);
    let covered: Vec<bool> = b.cells.iter().map(|c| c.covered()).collect();
    // 0, 3, 6, 7, 8 are blank; 1, 4, 5 are numbered; 2 is the mine.
    // 4 and 5 lie above blank 7 and 8 and are shown; 1 lies right of blank 0
    // and stays covered.
    assert_eq!(covered, vec![false, true, true, false, false, false, false, false, false]);
    assert!(b.cells[2].covered());
}

#[test]
fn fill_does_nothing_on_numbered_or_shown_cells() {
    let rolls = [9usize, 9, 0, 9, 9, 9, 9, 9, 9];
    let mut b = Board::<3, 9>::new_from_rolls(&rolls, 1, 9);
    let before = b;
    b.uncover_blank_neighbours(1);
    assert_eq!(b, before);
    b.uncover_blank_neighbours(2);
    assert_eq!(b, before);
    b.uncover_blank_neighbours(0);
    let after_once = b;
    b.uncover_blank_neighbours(0);
    assert_eq!(b, after_once);
}

#[test]
fn cursor_wraps_within_row_and_column() {
    let mut b: Board<5, 25> = blank_board();
    b.cursor = 10;
    b.move_left();
    assert_eq!(b.cursor, 14);
    b.move_right();
    assert_eq!(b.cursor, 10);
    b.cursor = 2;
    b.move_up();
    assert_eq!(b.cursor, 22);
    b.move_down();
    assert_eq!(b.cursor, 2);
    b.cursor = 24;
    b.move_right();
    assert_eq!(b.cursor, 20);
    b.move_down();
    assert_eq!(b.cursor, 0);
    b.move_left();
    assert_eq!(b.cursor, 4);
}

#[test]
fn uncovering_a_mine_changes_nothing() {
    let rolls = [8usize, 8, 8, 8, 0, 8, 8, 8, 8];
    let mut b = Board::<3, 9>::new_from_rolls(&rolls, 1, 9);
    b.cursor = 4;
    b.toggle_flag();
    let before = b;
    assert!(b.uncover_at_cursor());
    assert_eq!(b, before);
    assert!(b.cells[4].covered() && b.cells[4].flagged());
}

#[test]
fn uncovering_a_number_toggles_its_cover() {
    let rolls = [8usize, 8, 8, 8, 0, 8, 8, 8, 8];
    let mut b = Board::<3, 9>::new_from_rolls(&rolls, 1, 9);
    b.cursor = 1;
    assert!(!b.uncover_at_cursor());
    assert!(!b.cells[1].covered());
    assert!(b.cells.iter().enumerate().all(|(i, c)| i == 1 || c.covered()));
    assert!(!b.uncover_at_cursor());
    assert!(b.cells[1].covered());
}

#[test]
fn uncovering_a_blank_cell_spreads() {
    let mut b: Board<3, 6> = blank_board();
    b.cursor = 5;
    assert!(!b.uncover_at_cursor());
    assert!(b.cells.iter().all(|c| !c.covered()));
}

#[test]
fn flag_toggles_only_under_cursor() {
    let mut b: Board<2, 4> = blank_board();
    b.cursor = 3;
    b.toggle_flag();
    assert!(b.cells[3].flagged());
    assert!(!b.cells[0].flagged() && !b.cells[1].flagged() && !b.cells[2].flagged());
    b.toggle_flag();
    assert!(!b.cells[3].flagged());
}

#[test]
fn glyphs_and_braces() {
    assert_eq!(braces(true), ('[', ']'));
    assert_eq!(braces(false), (' ', ' '));
    let mut c = Cell::from_bits(Cell::COVERED);
    assert_eq!(c.glyph(), Glyph::Covered);
    c.toggle_flagged();
    assert_eq!(c.glyph(), Glyph::Flag);
    c.toggle_covered();
    assert_eq!(c.glyph(), Glyph::Blank);
    c.set_neighbours(3);
    assert_eq!(c.glyph(), Glyph::Count(3));
    c.toggle_mine();
    assert_eq!(c.glyph(), Glyph::Mine);
}
