use fluidsim::consts::{dispatch_groups, EMPTY};
use fluidsim::sp_hash::{cell_hash, cell_key, get_by_key, key_from_hash, neighbor_cell, neighbor_offset, rad1, Cell};

#[test]
fn cell_hash_of_small_cells() {
    assert_eq!(cell_hash(Cell { x: 0, y: 0 }), 0);
    assert_eq!(cell_hash(Cell { x: 2, y: 0 }), 34);
    assert_eq!(cell_hash(Cell { x: 0, y: 2 }), 62);
    assert_eq!(cell_hash(Cell { x: 2, y: 2 }), 96);
    assert_eq!(cell_hash(Cell { x: 1, y: 1 }), 48);
}

#[test]
fn cell_hash_wraps_negative_cells() {
    assert_eq!(cell_hash(Cell { x: -1, y: 0 }), 4294967279);
    assert_eq!(cell_hash(Cell { x: -1, y: -1 }), 4294967248);
    assert_eq!(cell_hash(Cell { x: 0, y: -1 }), (-31i32) as u32);
}

#[test]
fn cell_hash_wraps_on_overflow() {
    let c = Cell { x: i32::MAX, y: 0 };
    assert_eq!(cell_hash(c), 2147483631);
    let d = Cell { x: i32::MIN, y: i32::MIN };
    assert_eq!(cell_hash(d), (i32::MIN.wrapping_mul(17).wrapping_add(i32::MIN.wrapping_mul(31))) as u32);
}

#[test]
fn key_from_hash_is_remainder() {
    assert_eq!(key_from_hash(34, 4), 2);
    assert_eq!(key_from_hash(62, 4), 2);
    assert_eq!(key_from_hash(96, 4), 0);
    assert_eq!(key_from_hash(5, 1), 0);
    assert_eq!(key_from_hash(u32::MAX, 16384), 16383);
}

#[test]
fn cell_key_of_negative_cell() {
    // -17 mod 2^32 = 4294967279, and 4294967279 mod 4 = 3
    assert_eq!(cell_key(Cell { x: -1, y: 0 }, 4), 3);
    assert_eq!(cell_key(Cell { x: 2, y: 2 }, 7), 96 % 7);
}

#[test]
fn neighbor_offsets_in_order() {
    let expected = [(-1, -1), (-1, 0), (-1, 1), (0, -1), (0, 0), (0, 1), (1, -1), (1, 0), (1, 1)];
    for (k, (x, y)) in expected.iter().enumerate() {
        let o = neighbor_offset(k);
        assert_eq!((o.x, o.y), (*x, *y));
    }
    let c = neighbor_cell(Cell { x: 5, y: -3 }, 0);
    assert_eq!(c, Cell { x: 4, y: -4 });
    let c = neighbor_cell(Cell { x: 5, y: -3 }, 7);
    assert_eq!(c, Cell { x: 6, y: -3 });
}

#[test]
fn rad1_row_by_row() {
    let r = rad1((10, 20));
    assert_eq!(r[0], (9, 19));
    assert_eq!(r[1], (10, 19));
    assert_eq!(r[2], (11, 19));
    assert_eq!(r[3], (9, 20));
    assert_eq!(r[4], (10, 20));
    assert_eq!(r[5], (11, 20));
    assert_eq!(r[6], (9, 21));
    assert_eq!(r[7], (10, 21));
    assert_eq!(r[8], (11, 21));
}

#[test]
fn get_by_key_ranges() {
    let starts = vec![0, EMPTY, 2, EMPTY];
    assert_eq!(get_by_key(0, &starts, 4), (0, 2));
    assert_eq!(get_by_key(2, &starts, 4), (2, 4));
    assert_eq!(get_by_key(1, &starts, 4), (0, 0));
    assert_eq!(get_by_key(3, &starts, 4), (0, 0));
    assert_eq!(get_by_key(4, &starts, 4), (0, 0));
}

#[test]
fn get_by_key_rejects_stale_order() {
    // the next occupied bucket starts before this one: empty range
    let starts = vec![3, 1, EMPTY, EMPTY];
    assert_eq!(get_by_key(0, &starts, 4), (0, 0));
    assert_eq!(get_by_key(1, &starts, 4), (1, 4));
}

#[test]
fn dispatch_groups_round_up() {
    assert_eq!(dispatch_groups(0), 0);
    assert_eq!(dispatch_groups(1), 1);
    assert_eq!(dispatch_groups(256), 1);
    assert_eq!(dispatch_groups(257), 2);
    assert_eq!(dispatch_groups(16384), 64);
    assert_eq!(dispatch_groups(u32::MAX), 16777216);
}
