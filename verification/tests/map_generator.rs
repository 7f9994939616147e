use twodbattle::map_generator::{
    all_linked, generate_map, jumpable, to_grid, valid_map, Wall, JUMP_REACH, MAX_CEILING,
    MAX_FALL, NUM_WALLS,
};

/// A room of `w` by `h` tiles with solid borders and the extra solid
/// tiles `extra`, column by column.
fn room(w: usize, h: usize, extra: &[(usize, usize)]) -> Vec<Vec<bool>> {
    let mut grid = vec![vec![false; h]; w];
    for x in 0..w {
        for y in 0..h {
            grid[x][y] = x == 0 || y == 0 || x == w - 1 || y == h - 1;
        }
    }
    for &(x, y) in extra {
        grid[x][y] = true;
    }
    grid
}

fn row(y: usize, from: usize, to: usize) -> Vec<(usize, usize)> {
    (from..to).map(|x| (x, y)).collect()
}

fn column(x: usize, from: usize, to: usize) -> Vec<(usize, usize)> {
    (from..to).map(|y| (x, y)).collect()
}

#[test]
fn wall_new_keeps_its_arguments() {
    let w = Wall::new(1, 2, 3, 4);
    assert_eq!(w, Wall { x: 1, y: 2, width: 3, height: 4 });
}

#[test]
fn wall_is_horizontal_when_one_tile_high() {
    assert!(Wall::new(0, 0, 48, 1).is_horizontal());
    assert!(Wall::new(3, 4, 1, 1).is_horizontal());
    assert!(!Wall::new(0, 0, 1, 27).is_horizontal());
    assert!(!Wall::new(0, 0, 5, 0).is_horizontal());
}

#[test]
fn walls_that_share_a_tile_intersect() {
    let a = Wall::new(2, 2, 5, 1);
    assert!(a.intersects(&Wall::new(4, 0, 1, 5)));
    assert!(Wall::new(4, 0, 1, 5).intersects(&a));
    assert!(a.intersects(&Wall::new(6, 2, 5, 1)));
    assert!(Wall::new(6, 2, 5, 1).intersects(&a));
    assert!(a.intersects(&a));
}

#[test]
fn walls_apart_do_not_intersect() {
    let a = Wall::new(2, 2, 5, 1);
    assert!(!a.intersects(&Wall::new(7, 2, 5, 1)));
    assert!(!Wall::new(7, 2, 5, 1).intersects(&a));
    assert!(!a.intersects(&Wall::new(2, 3, 5, 1)));
    assert!(!a.intersects(&Wall::new(4, 3, 1, 5)));
    assert!(!a.intersects(&Wall::new(0, 0, 2, 2)));
}

#[test]
fn walls_at_the_far_corner_do_not_overflow() {
    let a = Wall::new(255, 255, 255, 255);
    let b = Wall::new(200, 200, 100, 100);
    assert!(a.intersects(&b));
    assert!(b.intersects(&a));
    assert!(!a.intersects(&Wall::new(0, 0, 255, 255)));
}

#[test]
fn to_grid_marks_the_tiles_of_the_walls() {
    let walls = [Wall::new(0, 0, 4, 1), Wall::new(1, 1, 1, 2), Wall::new(3, 2, 1, 1)];
    let grid = to_grid(&walls, 4, 3);
    assert_eq!(
        grid,
        vec![
            vec![true, false, false],
            vec![true, true, true],
            vec![true, false, false],
            vec![true, false, true],
        ]
    );
}

#[test]
fn to_grid_without_walls_is_empty() {
    assert_eq!(to_grid(&[], 2, 3), vec![vec![false; 3]; 2]);
    assert_eq!(to_grid(&[Wall::new(1, 1, 0, 1), Wall::new(0, 0, 1, 0)], 2, 2),
        vec![vec![false; 2]; 2]);
    assert_eq!(to_grid(&[], 0, 0), Vec::<Vec<bool>>::new());
}

#[test]
fn to_grid_of_the_border_is_a_room() {
    let walls = [
        Wall::new(0, 0, 24, 1),
        Wall::new(0, 11, 24, 1),
        Wall::new(0, 0, 1, 12),
        Wall::new(23, 0, 1, 12),
    ];
    assert_eq!(to_grid(&walls, 24, 12), room(24, 12, &[]));
}

#[test]
fn limits_of_the_rules() {
    assert_eq!(MAX_FALL, 8);
    assert_eq!(JUMP_REACH, 6);
    assert_eq!(MAX_CEILING, 5);
    assert_eq!(NUM_WALLS, 16);
}

#[test]
fn jumpable_needs_ground_within_reach() {
    let g = room(24, 12, &[]);
    assert!(jumpable(5, 3, &g, 5, 5));
    assert!(jumpable(5, 10, &g, 1, 22));
    assert!(!jumpable(5, 1, &g, 1, 22));
    assert!(!jumpable(1, 1, &g, 1, 1));
    assert!(!jumpable(22, 1, &g, 1, 22));
    let tall = room(24, 30, &[]);
    assert!(!jumpable(5, 3, &tall, 5, 5));
    assert!(!jumpable(5, 19, &tall, 5, 5));
    assert!(jumpable(5, 20, &tall, 5, 5));
    assert!(!jumpable(5, 10, &tall, 5, 22));
}

#[test]
fn jumpable_needs_a_free_row() {
    let g = room(24, 12, &[]);
    assert!(!jumpable(5, 3, &g, 0, 5));
    assert!(!jumpable(5, 0, &g, 5, 5));
    assert!(!jumpable(5, 3, &g, 5, 23));
    let blocked = room(24, 12, &[(7, 3)]);
    assert!(jumpable(5, 3, &blocked, 1, 6));
    assert!(!jumpable(5, 3, &blocked, 1, 7));
}

#[test]
fn jumpable_counts_the_rise_of_the_arc() {
    let tall = room(24, 30, &[]);
    assert!(jumpable(22, 25, &tall, 22, 22));
    assert!(jumpable(10, 25, &tall, 22, 22));
    assert!(jumpable(6, 25, &tall, 22, 22));
    assert!(!jumpable(4, 25, &tall, 22, 22));
    assert!(!jumpable(2, 25, &tall, 22, 22));
    assert!(!jumpable(1, 25, &tall, 22, 22));
}

#[test]
fn jumpable_from_a_platform() {
    let low = room(24, 16, &row(7, 10, 14));
    assert!(jumpable(9, 6, &low, 3, 9));
    assert!(jumpable(14, 6, &low, 14, 20));
    let high = room(24, 16, &row(6, 10, 14));
    assert!(!jumpable(9, 5, &high, 3, 9));
    assert!(!jumpable(14, 5, &high, 14, 20));
    let mut stepped = row(6, 10, 14);
    stepped.push((4, 14));
    assert!(jumpable(9, 5, &room(24, 16, &stepped), 3, 9));
}

#[test]
fn an_empty_room_is_valid() {
    assert!(valid_map(&room(24, 12, &[])));
    assert!(valid_map(&room(48, 27, &[])));
}

#[test]
fn a_room_with_a_platform_is_valid() {
    assert!(valid_map(&room(24, 12, &row(8, 10, 14))));
    assert!(valid_map(&room(24, 16, &row(7, 10, 14))));
    assert!(valid_map(&room(24, 12, &row(8, 8, 12))));
    assert!(valid_map(&room(24, 12, &row(8, 12, 16))));
}

#[test]
fn a_solid_block_is_invalid() {
    assert!(!valid_map(&room(24, 12, &[(10, 9), (11, 9), (10, 10), (11, 10)])));
    assert!(!valid_map(&room(24, 12, &[(10, 5), (11, 5), (10, 6), (11, 6)])));
    assert!(!valid_map(&vec![vec![true; 2]; 3]));
}

#[test]
fn a_gap_one_tile_wide_is_invalid() {
    assert!(!valid_map(&room(24, 12, &[(10, 10), (12, 10)])));
    assert!(!valid_map(&room(24, 12, &[(10, 9)])));
    assert!(!valid_map(&room(24, 12, &[(10, 5), (10, 7)])));
    assert!(!valid_map(&room(3, 3, &[])));
}

#[test]
fn a_crowded_ceiling_is_invalid() {
    assert!(valid_map(&room(24, 12, &[(4, 1), (8, 1), (12, 1)])));
    assert!(!valid_map(&room(24, 12, &[(4, 1), (8, 1), (12, 1), (16, 1)])));
}

#[test]
fn a_ledge_out_of_reach_is_invalid() {
    assert!(!valid_map(&room(24, 16, &row(3, 10, 14))));
    assert!(!valid_map(&room(24, 16, &row(6, 10, 14))));
    assert!(valid_map(&room(24, 16, &row(7, 10, 14))));
}

#[test]
fn a_ledge_close_to_the_border_is_invalid() {
    assert!(!valid_map(&room(24, 12, &row(8, 5, 9))));
    assert!(!valid_map(&room(24, 12, &row(8, 14, 18))));
}

#[test]
fn a_divided_room_is_invalid() {
    assert!(!valid_map(&room(24, 12, &column(12, 1, 11))));
    assert!(!valid_map(&room(24, 12, &column(20, 1, 11))));
}

#[test]
fn all_linked_follows_the_empty_tiles() {
    assert!(all_linked(&room(24, 12, &[])));
    assert!(all_linked(&room(3, 3, &[])));
    assert!(all_linked(&vec![vec![true; 2]; 3]));
    assert!(all_linked(&vec![vec![false; 5]; 4]));
    assert!(!all_linked(&room(24, 12, &column(12, 1, 11))));
    // A door in the wall joins the two halves.
    assert!(all_linked(&room(24, 12, &column(12, 1, 10))));
    assert!(all_linked(&room(24, 12, &column(12, 2, 11))));
    // Tiles that touch only at a corner are not linked.
    assert!(!all_linked(&vec![vec![false, true], vec![true, false]]));
    assert!(all_linked(&vec![vec![false, true], vec![false, false]]));
}

#[test]
fn all_linked_sees_a_pocket_in_the_last_corner() {
    let mut walls = column(21, 9, 11);
    walls.push((22, 9));
    assert!(!all_linked(&room(24, 12, &walls)));
    let open: Vec<Vec<bool>> = vec![vec![false; 3]; 1];
    assert!(all_linked(&open));
    assert!(!all_linked(&vec![vec![false, true, false]]));
}

#[test]
fn generate_map_makes_a_valid_room() {
    let grid = generate_map(48, 27);
    assert_eq!(grid.len(), 48);
    for gx in 0..48 {
        assert_eq!(grid[gx].len(), 27);
        assert!(grid[gx][0]);
        assert!(grid[gx][26]);
    }
    for gy in 0..27 {
        assert!(grid[0][gy]);
        assert!(grid[47][gy]);
    }
    assert!(valid_map(&grid));
}

#[test]
fn generate_map_places_walls_inside() {
    let grid = generate_map(48, 27);
    let mut inside = 0;
    for gx in 1..47 {
        for gy in 1..26 {
            if grid[gx][gy] {
                inside += 1;
            }
        }
    }
    // Twelve walls, each at least a third of a side long, may cross.
    assert!(inside >= 12);
    assert!(inside <= 12 * 23);
}

#[test]
fn generate_map_in_other_sizes() {
    let grid = generate_map(30, 20);
    assert_eq!(grid.len(), 30);
    for column in &grid {
        assert_eq!(column.len(), 20);
        assert!(column[0]);
        assert!(column[19]);
    }
    assert!(grid[0].iter().all(|&t| t));
    assert!(grid[29].iter().all(|&t| t));
}
