use minesweeper::cell::Cell;

#[test]
fn using_the_high_5_bits_in_the_bitflags_actually_works() {
    let mut c = Cell::from_bits(Cell::MINE);
    let values: [u8; 32] = [
        0, 1, 2, 3, 4, 5, 6, 7, 8, 9, 10, 11, 12, 13, 14, 15, 16, 17, 18, 19, 20, 21, 22, 23, 24,
        25, 26, 27, 28, 29, 30, 31,
    ];
    for n in values {
        c.set_neighbours(n);
        assert_eq!(c.neighbours(), n);
    }
    for i in 0..2_u8.pow(5) {
        c.inc_neighbours();
        assert_eq!(c.neighbours(), i)
    }
}

#[test]
fn set_neighbours_keeps_every_flag_combination() {
    for bits in 0..8_u8 {
        let mut c = Cell::from_bits(bits);
        let (m, cov, f) = (c.mine(), c.covered(), c.flagged());
        for v in 0..=31_u8 {
            c.set_neighbours(v);
            assert_eq!(c.neighbours(), v);
            assert_eq!((c.mine(), c.covered(), c.flagged()), (m, cov, f));
        }
    }
}

#[test]
fn set_neighbours_drops_bits_above_five() {
    let mut c = Cell::from_bits(Cell::COVERED);
    c.set_neighbours(33);
    assert_eq!(c.neighbours(), 1);
    assert!(c.covered());
    assert!(!c.mine());
    assert!(!c.flagged());
}

#[test]
fn thirty_two_increments_wrap_to_zero() {
    let mut c = Cell::from_bits(Cell::COVERED | Cell::FLAGGED);
    assert_eq!(c.neighbours(), 0);
    for _ in 0..32 {
        c.inc_neighbours();
    }
    assert_eq!(c.neighbours(), 0);
    assert!(c.covered() && c.flagged() && !c.mine());
    c.set_neighbours(31);
    c.inc_neighbours();
    assert_eq!(c.neighbours(), 0);
}

#[test]
fn toggles_flip_one_flag_and_undo_twice() {
    let mut c = Cell::from_bits(Cell::MINE | Cell::COVERED);
    c.set_neighbours(5);
    let start = c;
    c.toggle_flagged();
    assert!(c.flagged() && c.covered() && c.mine());
    assert_eq!(c.neighbours(), 5);
    c.toggle_flagged();
    assert_eq!(c, start);
    c.toggle_covered();
    assert!(!c.covered() && !c.flagged() && c.mine());
    assert_eq!(c.neighbours(), 5);
    c.toggle_covered();
    assert_eq!(c, start);
}

#[test]
fn bits_round_trip() {
    let c = Cell::from_bits(0b1010_1101);
    assert!(c.mine());
    assert!(!c.covered());
    assert!(c.flagged());
    assert_eq!(c.neighbours(), 0b10101);
    assert_eq!(c.bits(), 0b1010_1101);
    let mut d = Cell::from_bits(0);
    d.toggle_mine();
    assert_eq!(d.bits(), Cell::MINE);
}
