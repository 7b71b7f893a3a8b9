use fluidsim::consts::EMPTY;
use fluidsim::lookup::{bucket_walk, neighbor_candidates, post_sort, pre_sort, SpatialLookup};
use fluidsim::sort::sort_pairs;
use fluidsim::sp_hash::{cell_key, get_by_key, Cell};

fn cells_of(v: &[(i32, i32)]) -> Vec<Cell> {
    v.iter().map(|&(x, y)| Cell { x, y }).collect()
}

fn pseudo_cells(n: usize, seed: u64, span: i32) -> Vec<Cell> {
    let mut s = seed;
    let mut out = Vec::new();
    for _ in 0..n {
        s = s.wrapping_mul(6364136223846793005).wrapping_add(1442695040888963407);
        let x = ((s >> 33) % (2 * span as u64)) as i32 - span;
        s = s.wrapping_mul(6364136223846793005).wrapping_add(1442695040888963407);
        let y = ((s >> 33) % (2 * span as u64)) as i32 - span;
        out.push(Cell { x, y });
    }
    out
}

fn check_hashed(l: &SpatialLookup, cells: &[Cell]) {
    let n = cells.len();
    assert_eq!(l.num_particles as usize, n);
    for i in 1..n {
        assert!(l.keys[i - 1] <= l.keys[i]);
    }
    let mut seen = vec![false; n];
    for p in 0..n {
        let j = l.lookup[p] as usize;
        assert!(j < n);
        assert!(!seen[j]);
        seen[j] = true;
        assert_eq!(l.keys[p], cell_key(cells[j], n as u32));
    }
    for b in 0..n {
        match (0..n).find(|&p| l.keys[p] == b as u32) {
            Some(first) => assert_eq!(l.starts[b], first as u32),
            None => assert_eq!(l.starts[b], EMPTY),
        }
    }
}

#[test]
fn all_particles_in_one_cell() {
    let cells = cells_of(&[(0, 0), (0, 0), (0, 0), (0, 0)]);
    let mut l = SpatialLookup::new(16);
    l.update(&cells);
    assert_eq!(&l.keys[..4], &[0, 0, 0, 0]);
    assert_eq!(&l.lookup[..4], &[0, 1, 2, 3]);
    assert_eq!(l.starts[0], 0);
    assert_eq!(&l.starts[1..4], &[EMPTY, EMPTY, EMPTY]);
    assert_eq!(l.get_by_key(0).to_vec(), vec![0, 1, 2, 3]);
    assert_eq!(l.walk(0), vec![0, 1, 2, 3]);
}

#[test]
fn four_cells_share_two_buckets() {
    let cells = cells_of(&[(0, 0), (2, 0), (0, 2), (2, 2)]);
    let mut l = SpatialLookup::new(4);
    l.update(&cells);
    // hashes 0, 34, 62, 96 give keys 0, 2, 2, 0 among four buckets
    assert_eq!(l.keys, vec![0, 0, 2, 2]);
    assert_eq!(l.lookup, vec![0, 3, 1, 2]);
    assert_eq!(l.starts, vec![0, EMPTY, 2, EMPTY]);
    assert_eq!(l.get_by_key(0).to_vec(), vec![0, 3]);
    assert_eq!(l.get_by_key(2).to_vec(), vec![1, 2]);
    assert!(l.get_by_key(1).is_empty());
    assert!(l.get_by_key(9).is_empty());
    assert_eq!(l.walk(0), vec![0, 3]);
    assert_eq!(l.walk(2), vec![1, 2]);
    assert_eq!(l.walk(1), Vec::<u32>::new());
    check_hashed(&l, &cells);
}

#[test]
fn candidates_around_origin_cell() {
    let cells = cells_of(&[(0, 0), (2, 0), (0, 2), (2, 2)]);
    let mut l = SpatialLookup::new(4);
    l.update(&cells);
    // stencil keys around (0,0): 0, 3, 2, 1, 0, 3, 2, 1, 0
    assert_eq!(l.candidates(Cell { x: 0, y: 0 }), vec![0, 3, 1, 2, 0, 3, 1, 2, 0, 3]);
}

#[test]
fn hash_invariants_on_scattered_cells() {
    for (n, seed, span) in [(1, 1, 3), (7, 2, 2), (64, 3, 5), (300, 4, 40), (1024, 5, 8)] {
        let cells = pseudo_cells(n, seed, span);
        let mut l = SpatialLookup::new(n + 5);
        l.update(&cells);
        check_hashed(&l, &cells);
        // slots past the particles keep their sentinel
        for p in n..n + 5 {
            assert_eq!(l.keys[p], EMPTY);
            assert_eq!(l.lookup[p], EMPTY);
            assert_eq!(l.starts[p], EMPTY);
        }
    }
}

#[test]
fn rehash_after_particles_move() {
    let mut l = SpatialLookup::new(8);
    l.update(&pseudo_cells(8, 9, 4));
    let cells = pseudo_cells(8, 10, 4);
    l.update(&cells);
    check_hashed(&l, &cells);
}

#[test]
fn candidates_cover_adjacent_particles() {
    for (n, seed, span) in [(25, 11, 3), (200, 12, 6), (1024, 13, 10)] {
        let cells = pseudo_cells(n, seed, span);
        let mut l = SpatialLookup::new(n);
        l.update(&cells);
        for q in -span - 1..span + 1 {
            for r in -span - 1..span + 1 {
                let at = Cell { x: q, y: r };
                let found = l.candidates(at);
                for j in 0..n {
                    let c = cells[j];
                    if (c.x - q).abs() <= 1 && (c.y - r).abs() <= 1 {
                        assert!(found.contains(&(j as u32)));
                    }
                }
                for &j in &found {
                    assert!((j as usize) < n);
                }
            }
        }
    }
}

#[test]
fn uniform_grid_one_particle_per_cell() {
    let mut v = Vec::new();
    for i in 0..10 {
        for j in 0..10 {
            v.push((i, j));
        }
    }
    let cells = cells_of(&v);
    let mut l = SpatialLookup::new(100);
    l.update(&cells);
    let found = l.candidates(Cell { x: 4, y: 4 });
    for (j, c) in cells.iter().enumerate() {
        if (c.x - 4).abs() <= 1 && (c.y - 4).abs() <= 1 {
            assert!(found.contains(&(j as u32)));
        }
    }
}

#[test]
fn pre_sort_fills_active_prefix_only() {
    let cells = cells_of(&[(0, 0), (1, 0)]);
    let mut keys = vec![EMPTY; 4];
    let mut indices = vec![EMPTY; 4];
    let mut starts = vec![7; 4];
    pre_sort(&cells, &mut keys, &mut indices, &mut starts);
    assert_eq!(keys, vec![0, 1, EMPTY, EMPTY]);
    assert_eq!(indices, vec![0, 1, EMPTY, EMPTY]);
    assert_eq!(starts, vec![EMPTY, EMPTY, 7, 7]);
}

#[test]
fn post_sort_records_first_positions() {
    let keys = vec![0, 0, 2, 2];
    let mut starts = vec![7; 4];
    post_sort(&keys, &mut starts, 4);
    assert_eq!(starts, vec![0, 7, 2, 7]);
    let keys = vec![1, 1, 1, 3, 5, 5];
    let mut starts = vec![EMPTY; 6];
    post_sort(&keys, &mut starts, 6);
    assert_eq!(starts, vec![EMPTY, 0, EMPTY, 3, EMPTY, 4]);
}

#[test]
fn sort_pairs_is_stable() {
    let mut keys = vec![3, 1, 3, 0, 1];
    let mut indices = vec![0, 1, 2, 3, 4];
    sort_pairs(&mut keys, &mut indices, 5);
    assert_eq!(keys, vec![0, 1, 1, 3, 3]);
    assert_eq!(indices, vec![3, 1, 4, 0, 2]);
}

#[test]
fn sort_pairs_leaves_tail() {
    let mut keys = vec![2, 0, 1, 7];
    let mut indices = vec![0, 1, 2, 3];
    sort_pairs(&mut keys, &mut indices, 3);
    assert_eq!(keys, vec![0, 1, 2, 7]);
    assert_eq!(indices, vec![1, 2, 0, 3]);
    let mut keys: Vec<u32> = vec![];
    let mut indices: Vec<u32> = vec![];
    sort_pairs(&mut keys, &mut indices, 0);
    assert!(keys.is_empty());
}

#[test]
fn bucket_walk_stops_at_other_key() {
    let keys = vec![0, 0, 2, 2];
    let indices = vec![0, 3, 1, 2];
    let starts = vec![0, EMPTY, 2, EMPTY];
    assert_eq!(bucket_walk(&keys, &indices, &starts, 0, 4), vec![0, 3]);
    assert_eq!(bucket_walk(&keys, &indices, &starts, 2, 4), vec![1, 2]);
    assert_eq!(bucket_walk(&keys, &indices, &starts, 1, 4), Vec::<u32>::new());
    // only the first three positions are active
    assert_eq!(bucket_walk(&keys, &indices, &starts, 2, 3), vec![1]);
}

#[test]
fn neighbor_candidates_free_function() {
    let keys = vec![0, 0, 2, 2];
    let indices = vec![0, 3, 1, 2];
    let starts = vec![0, EMPTY, 2, EMPTY];
    let found = neighbor_candidates(Cell { x: 0, y: 0 }, &keys, &indices, &starts, 4);
    assert_eq!(found, vec![0, 3, 1, 2, 0, 3, 1, 2, 0, 3]);
}

#[test]
fn range_lookup_agrees_with_walk() {
    for (n, seed, span) in [(5, 21, 2), (100, 22, 6), (500, 23, 30)] {
        let cells = pseudo_cells(n, seed, span);
        let mut l = SpatialLookup::new(n);
        l.update(&cells);
        for key in 0..n as u32 {
            let (a, b) = get_by_key(key, &l.starts, n as u32);
            assert_eq!(l.lookup[a as usize..b as usize].to_vec(), l.walk(key));
            assert_eq!(l.get_by_key(key).to_vec(), l.walk(key));
        }
    }
}

#[test]
fn bucket_members_ascend() {
    let cells = pseudo_cells(400, 31, 5);
    let mut l = SpatialLookup::new(400);
    l.update(&cells);
    for p in 1..400 {
        if l.keys[p - 1] == l.keys[p] {
            assert!(l.lookup[p - 1] < l.lookup[p]);
        }
    }
}

#[test]
fn post_sort_on_unsorted_keys_keeps_last_run() {
    let keys = vec![2, 0, 2, 2, 0];
    let mut starts = vec![9; 3];
    post_sort(&keys, &mut starts, 5);
    assert_eq!(starts, vec![4, 9, 2]);
}

#[test]
fn reset_refills_sentinels() {
    let cells = pseudo_cells(10, 41, 3);
    let mut l = SpatialLookup::new(12);
    l.update(&cells);
    l.reset();
    assert_eq!(l.num_particles, 0);
    assert_eq!(l.keys, vec![EMPTY; 12]);
    assert_eq!(l.lookup, vec![EMPTY; 12]);
    assert_eq!(l.starts, vec![EMPTY; 12]);
    assert!(l.get_by_key(0).is_empty());
}

#[test]
fn sort_pairs_large_input() {
    let n = 16384usize;
    let mut keys: Vec<u32> = (0..n as u64).map(|i| ((i * 7919 + 13) % n as u64) as u32 / 3).collect();
    let mut indices: Vec<u32> = (0..n as u32).collect();
    let before = keys.clone();
    sort_pairs(&mut keys, &mut indices, n);
    for p in 1..n {
        assert!(keys[p - 1] <= keys[p]);
        if keys[p - 1] == keys[p] {
            assert!(indices[p - 1] < indices[p]);
        }
    }
    for p in 0..n {
        assert_eq!(before[indices[p] as usize], keys[p]);
    }
}
