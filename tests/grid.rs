use expandable_grid::subchunk::ArrayTile;
use expandable_grid::util::{
    calculate_exponential_distance, isize_vec_to_usize_saturating, usize_vec_to_isize,
};
use expandable_grid::vector::{IVec2, UVec2};
use expandable_grid::ExpandableGrid;
use rand::{Rng, SeedableRng};
use rand_chacha::ChaCha8Rng;

fn corners_of_box(origin: IVec2, size: UVec2) -> [IVec2; 4] {
    let corner = IVec2::new(origin.x + size.x as isize - 1, origin.y + size.y as isize - 1);
    [
        origin,
        IVec2::new(origin.x, corner.y),
        IVec2::new(corner.x, origin.y),
        corner,
    ]
}

fn size_max(size: UVec2) -> usize {
    if size.x > size.y {
        size.x
    } else {
        size.y
    }
}

#[test]
fn grid_expands_to_fit_points() {
    let radius = 1000;

    let range_size = radius * 2 + 1;
    let range = {
        let radius = radius as isize;
        -radius..=radius
    };

    let mut seed_rng = ChaCha8Rng::seed_from_u64(10);
    for _ in 0..10 {
        println!("\tstart of iteration");
        let seed = seed_rng.gen();
        let mut rng = ChaCha8Rng::seed_from_u64(seed);
        let mut grid = ExpandableGrid::new();
        for _ in 0..100 {
            let new_point = IVec2::new(rng.gen_range(range.clone()), rng.gen_range(range.clone()));

            grid.expand_to_fit_point(new_point, &0);

            println!("{new_point:?}, {:?}", grid.size);
            assert!(
                grid.index_of(new_point).is_some(),
                "test seed: {seed}, point {new_point:?} shoud be within size",
            );
        }
        assert!(
            size_max(grid.size) <= range_size * 4,
            "test seed: {seed}, size {:?} is too big",
            grid.size,
        );
    }
}

#[test]
fn grid_expands_to_fit_boxes() {
    // Targeted test
    {
        let mut grid = ExpandableGrid::with_size(UVec2::new(1, 1), IVec2::new(0, 0), &0);

        let box_origin = IVec2::new(-10, -10);
        let box_size = UVec2::new(20, 20);
        grid.expand_to_fit_box(box_origin, box_size, &0);

        for corner in corners_of_box(box_origin, box_size) {
            assert!(
                grid.index_of(corner).is_some(),
                "point {box_origin:?} of \
                    box with origin: {box_origin:?}, size: {box_size:?} shoud be within size",
            );
        }
    }

    // Random tests
    let placement_radius = 1000;
    let max_box_size = 1000;

    let placement = {
        let radius = placement_radius as isize;
        -radius..=radius
    };
    let box_size = 1..=max_box_size;

    let placement_range = (placement_radius + max_box_size) * 2 + 1;

    let mut seed_rng = ChaCha8Rng::seed_from_u64(10);
    for _ in 0..10 {
        println!("\tstart of iteration");
        let seed = seed_rng.gen();
        let mut rng = ChaCha8Rng::seed_from_u64(seed);
        let mut grid = ExpandableGrid::new();

        for _ in 0..100 {
            let box_origin = IVec2::new(
                rng.gen_range(placement.clone()),
                rng.gen_range(placement.clone()),
            );
            let box_size = UVec2::new(
                rng.gen_range(box_size.clone()),
                rng.gen_range(box_size.clone()),
            );

            grid.expand_to_fit_box(box_origin, box_size, &0);

            println!("{box_origin:?}, {:?}", grid.size);

            println!("size: {:?}, {:?}, {:?}", grid.size, grid.origin, box_size);
            for corner in corners_of_box(box_origin, box_size) {
                assert!(
                    grid.index_of(corner).is_some(),
                    "test seed: {seed}, point {box_origin:?} of \
                        box with origin: {box_origin:?}, size: {box_size:?} shoud be within size",
                );
            }
        }

        assert!(
            size_max(grid.size) <= placement_range * 4,
            "test seed: {seed}, size {:?} is too big",
            grid.size,
        );
    }
}

#[test]
fn end_to_end_scenario() {
    let mut grid: ExpandableGrid<i32> = ExpandableGrid::new();
    grid.expand_to_fit_point(IVec2::new(5, -3), &0);
    assert_eq!(grid.get(IVec2::new(5, -3)), Some(&0));
    *grid.get_mut(IVec2::new(5, -3)).unwrap() = 42;
    grid.expand_to_fit_point(IVec2::new(100, 100), &0);
    assert_eq!(grid.get(IVec2::new(5, -3)), Some(&42));
    assert_eq!(grid.get(IVec2::new(100, 100)), Some(&0));
    assert_eq!(grid.size, UVec2::new(96, 104));
    assert_eq!(grid.origin, IVec2::new(5, -3));
}

#[test]
fn point_coverage_from_empty() {
    let mut grid: ExpandableGrid<u8> = ExpandableGrid::new();
    grid.expand_to_fit_point(IVec2::new(-7, 9), &3);
    assert_eq!(grid.size, UVec2::new(1, 1));
    assert_eq!(grid.origin, IVec2::new(-7, 9));
    assert_eq!(grid.index_of(IVec2::new(-7, 9)), Some(0));
    assert_eq!(grid.index(IVec2::new(-7, 9)), &3);
}

#[test]
fn box_coverage_targeted_layout() {
    let mut grid = ExpandableGrid::with_size(UVec2::new(1, 1), IVec2::new(0, 0), &0);
    grid.expand_to_fit_box(IVec2::new(-10, -10), UVec2::new(20, 20), &0);
    assert_eq!(grid.size, UVec2::new(20, 20));
    assert_eq!(grid.origin, IVec2::new(-10, -10));
    for corner in corners_of_box(IVec2::new(-10, -10), UVec2::new(20, 20)) {
        assert!(grid.get(corner).is_some());
    }
}

#[test]
fn content_preserved_across_growth_on_both_sides() {
    let mut grid = ExpandableGrid::with_size(UVec2::new(3, 2), IVec2::new(0, 0), &0isize);
    for y in 0..2isize {
        for x in 0..3isize {
            *grid.index_mut(IVec2::new(x, y)) = x * 10 + y;
        }
    }
    grid.expand_to_fit_box(IVec2::new(-2, -1), UVec2::new(10, 5), &-1);
    assert_eq!(grid.origin, IVec2::new(-3, -2));
    assert_eq!(grid.size, UVec2::new(11, 6));
    for y in 0..2isize {
        for x in 0..3isize {
            assert_eq!(grid.get(IVec2::new(x, y)), Some(&(x * 10 + y)));
        }
    }
    assert_eq!(grid.get(IVec2::new(-3, -2)), Some(&-1));
    assert_eq!(grid.get(IVec2::new(7, 3)), Some(&-1));
    assert_eq!(grid.get(IVec2::new(8, 3)), None);
}

#[test]
fn covered_box_leaves_grid_untouched() {
    let mut grid = ExpandableGrid::with_size(UVec2::new(4, 4), IVec2::new(-2, -2), &1u8);
    *grid.index_mut(IVec2::new(1, 1)) = 9;
    grid.expand_to_fit_box(IVec2::new(-2, -2), UVec2::new(4, 4), &0);
    assert_eq!(grid.size, UVec2::new(4, 4));
    assert_eq!(grid.origin, IVec2::new(-2, -2));
    assert_eq!(grid.data.len(), 16);
    assert_eq!(grid.get(IVec2::new(1, 1)), Some(&9));
}

#[test]
fn size_never_shrinks() {
    let mut grid = ExpandableGrid::with_size(UVec2::new(5, 1), IVec2::new(0, 0), &0u8);
    grid.expand_to_fit_point(IVec2::new(2, 3), &0);
    assert_eq!(grid.size.x, 5);
    assert_eq!(grid.size.y, 4);
    grid.expand_to_fit_point(IVec2::new(-1, 0), &0);
    assert_eq!(grid.size.x, 10);
    assert_eq!(grid.origin.x, -5);
}

#[test]
fn monotone_points_reallocate_logarithmically() {
    let mut grid: ExpandableGrid<u8> = ExpandableGrid::new();
    let mut reallocations = 0;
    let mut last_size = grid.size;
    for i in 0..1024isize {
        grid.expand_to_fit_point(IVec2::new(i, 0), &0);
        if grid.size != last_size {
            reallocations += 1;
            last_size = grid.size;
        }
    }
    assert_eq!(reallocations, 11);
    assert_eq!(grid.size, UVec2::new(1024, 1));
}

#[test]
fn locate_absence_is_exact() {
    let grid = ExpandableGrid::with_size(UVec2::new(3, 2), IVec2::new(-1, 4), &0u8);
    assert_eq!(grid.index_of(IVec2::new(-1, 4)), Some(0));
    assert_eq!(grid.index_of(IVec2::new(1, 4)), Some(2));
    assert_eq!(grid.index_of(IVec2::new(0, 5)), Some(4));
    assert_eq!(grid.index_of(IVec2::new(1, 5)), Some(5));
    assert_eq!(grid.index_of(IVec2::new(-2, 4)), None);
    assert_eq!(grid.index_of(IVec2::new(2, 4)), None);
    assert_eq!(grid.index_of(IVec2::new(0, 3)), None);
    assert_eq!(grid.index_of(IVec2::new(0, 6)), None);
    assert_eq!(grid.index_of_unchecked(IVec2::new(0, 5)), 4);
    assert_eq!(grid.get(IVec2::new(isize::MAX, isize::MIN)), None);
}

#[test]
fn empty_grid_lookups_are_absent() {
    let mut grid: ExpandableGrid<u8> = ExpandableGrid::new();
    assert_eq!(grid.index_of(IVec2::new(0, 0)), None);
    assert!(grid.get(IVec2::new(0, 0)).is_none());
    assert!(grid.get_mut(IVec2::new(0, 0)).is_none());
}

#[test]
fn change_size_keeps_shared_cells() {
    let mut grid = ExpandableGrid::with_size(UVec2::new(3, 3), IVec2::new(0, 0), &0i32);
    for y in 0..3isize {
        for x in 0..3isize {
            *grid.index_mut(IVec2::new(x, y)) = (x + 3 * y) as i32;
        }
    }
    // Shrink on the low side and grow on the high side.
    grid.change_size(UVec2::new(4, 2), IVec2::new(1, 1), &-1);
    assert_eq!(grid.origin, IVec2::new(1, 1));
    assert_eq!(grid.size, UVec2::new(4, 2));
    assert_eq!(grid.get(IVec2::new(1, 1)), Some(&4));
    assert_eq!(grid.get(IVec2::new(2, 2)), Some(&8));
    assert_eq!(grid.get(IVec2::new(3, 1)), Some(&-1));
    assert_eq!(grid.get(IVec2::new(0, 0)), None);
    assert_eq!(grid.data.len(), 8);
}

#[test]
fn change_size_on_empty_grid_builds_at_offset() {
    let mut grid: ExpandableGrid<u8> = ExpandableGrid::new();
    grid.change_size(UVec2::new(2, 3), IVec2::new(-4, 7), &5);
    assert_eq!(grid.origin, IVec2::new(-4, 7));
    assert_eq!(grid.size, UVec2::new(2, 3));
    assert_eq!(grid.data, vec![5u8; 6]);
}

#[test]
fn exponential_distance_values() {
    assert_eq!(calculate_exponential_distance(1, 4), 4);
    assert_eq!(calculate_exponential_distance(10, 4), 10);
    assert_eq!(calculate_exponential_distance(3, 0), 3);
    assert_eq!(calculate_exponential_distance(5, 5), 5);
}

#[test]
fn vector_conversions() {
    assert_eq!(usize_vec_to_isize(UVec2::new(3, 9)), IVec2::new(3, 9));
    assert_eq!(isize_vec_to_usize_saturating(IVec2::new(-3, 9)), UVec2::new(0, 9));
    assert_eq!(isize_vec_to_usize_saturating(IVec2::new(4, -1)), UVec2::new(4, 0));
}

type Tile = ArrayTile<u16, 16, 16>;

#[test]
fn tile_round_trip() {
    let (tile, offset) = ExpandableGrid::<Tile>::subchunk_index_of(IVec2::new(-1, -1));
    assert_eq!(tile, IVec2::new(-1, -1));
    assert_eq!(offset, UVec2::new(15, 15));
    let (tile, offset) = ExpandableGrid::<Tile>::subchunk_index_of(IVec2::new(16, 0));
    assert_eq!(tile, IVec2::new(1, 0));
    assert_eq!(offset, UVec2::new(0, 0));
    let (tile, offset) = ExpandableGrid::<Tile>::subchunk_index_of(IVec2::new(-17, 33));
    assert_eq!(tile, IVec2::new(-2, 2));
    assert_eq!(offset, UVec2::new(15, 1));
}

#[test]
fn fine_lookups_through_tiles() {
    let mut grid: ExpandableGrid<Tile> = ExpandableGrid::new();
    grid.expand_to_fit_point(IVec2::new(-1, 0), &Tile::new(&7));
    assert_eq!(grid.get_from_subchunk(IVec2::new(-1, 5)), Some(&7));
    *grid.get_mut_from_subchunk(IVec2::new(-3, 5)).unwrap() = 11;
    assert_eq!(grid.get_from_subchunk(IVec2::new(-3, 5)), Some(&11));
    assert_eq!(grid.get_from_subchunk(IVec2::new(-4, 5)), Some(&7));
    assert_eq!(grid.get(IVec2::new(-1, 0)).unwrap().cells[13 + 5 * 16], 11);
    assert_eq!(grid.get_from_subchunk(IVec2::new(0, 5)), None);
    assert!(grid.get_mut_from_subchunk(IVec2::new(-1, 16)).is_none());
}

#[test]
fn fine_extent_and_origin() {
    let grid = ExpandableGrid::with_size(UVec2::new(2, 3), IVec2::new(-1, 2), &Tile::new(&0));
    assert_eq!(grid.subchunk_index_size(), UVec2::new(32, 48));
    assert_eq!(grid.subchunk_index_origin(), IVec2::new(-16, 32));
}

#[test]
fn change_size_on_grid_without_cells_builds_at_offset() {
    let mut grid = ExpandableGrid::with_size(UVec2::new(0, 5), IVec2::new(1, 1), &0u8);
    assert_eq!(grid.data.len(), 0);
    grid.change_size(UVec2::new(3, 3), IVec2::new(2, 2), &4);
    assert_eq!(grid.origin, IVec2::new(2, 2));
    assert_eq!(grid.size, UVec2::new(3, 3));
    assert_eq!(grid.data, vec![4u8; 9]);
}

#[test]
fn expand_grid_without_cells_covers_point() {
    let mut grid = ExpandableGrid::with_size(UVec2::new(0, 5), IVec2::new(1, 1), &0u8);
    grid.expand_to_fit_point(IVec2::new(-3, 2), &6);
    assert_eq!(grid.size, UVec2::new(4, 5));
    assert_eq!(grid.origin, IVec2::new(-3, 1));
    assert_eq!(grid.get(IVec2::new(-3, 2)), Some(&6));
}

#[test]
fn decreasing_points_reallocate_logarithmically() {
    let mut grid: ExpandableGrid<u8> = ExpandableGrid::new();
    let mut reallocations = 0;
    let mut last_size = grid.size;
    for i in 0..1024isize {
        grid.expand_to_fit_point(IVec2::new(3, 7 - i), &0);
        if grid.size != last_size {
            reallocations += 1;
            last_size = grid.size;
        }
        assert!(grid.index_of(IVec2::new(3, 7 - i)).is_some());
    }
    assert_eq!(reallocations, 11);
    assert_eq!(grid.size, UVec2::new(1, 1024));
    assert_eq!(grid.origin, IVec2::new(3, 7 - 1023));
}
