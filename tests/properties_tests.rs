use esgi_arena_resolver_algorithms::a_star::{a_star_multi_roads_resolver, a_star_resolver, get_manhattan_distance_heuristic};
use esgi_arena_resolver_algorithms::chinese_rings::chinese_rings_resolver;
use esgi_arena_resolver_algorithms::dfs::dfs_fs_aps_recursive;
use esgi_arena_resolver_algorithms::error::ResolverError;
use esgi_arena_resolver_algorithms::graph::{
    fs_aps_from_matrix, get_element_childs_from_fs_aps, get_field_by_index, get_start_to_end_points,
    get_start_to_end_points_multi_roads, Field, Point,
};

fn pt(x: usize, y: usize) -> Point {
    Point { x: Some(x), y: Some(y) }
}

fn fld(x: usize, y: usize, v: i8) -> Field {
    Field { coordinates: pt(x, y), value: Some(v) }
}

fn cell_of(board: &Vec<Vec<i8>>, x: usize, y: usize) -> Field {
    fld(x, y, board[x][y])
}

#[test]
fn graph_build_is_deterministic() {
    let board: Vec<Vec<i8>> = vec![vec![2, 0, 0], vec![-1, -1, 0], vec![1, 0, 0]];
    let first = fs_aps_from_matrix(board.clone()).unwrap();
    let second = fs_aps_from_matrix(board).unwrap();
    assert_eq!(first, second);
}

#[test]
fn aps_is_well_formed() {
    let board: Vec<Vec<i8>> = vec![vec![0; 4]; 4];
    let (fs, aps) = fs_aps_from_matrix(board).unwrap();
    assert_eq!(aps.len(), 17);
    assert_eq!(aps[0], 0);
    assert_eq!(aps[16] as usize, fs.len());
    assert_eq!(fs.len(), 48);
    for k in 0..16 {
        assert!(aps[k] <= aps[k + 1]);
    }
}

#[test]
fn neighbour_order_interior_and_corner() {
    let board: Vec<Vec<i8>> = vec![vec![0, 1, 0], vec![2, 0, -1], vec![0, 0, 0]];
    let (fs, aps) = fs_aps_from_matrix(board.clone()).unwrap();
    let interior = get_element_childs_from_fs_aps(fs.clone(), aps.clone(), 4).unwrap();
    assert_eq!(
        interior,
        vec![cell_of(&board, 1, 0), cell_of(&board, 1, 2), cell_of(&board, 0, 1), cell_of(&board, 2, 1)]
    );
    let corner = get_element_childs_from_fs_aps(fs.clone(), aps.clone(), 8).unwrap();
    assert_eq!(corner, vec![cell_of(&board, 2, 1), cell_of(&board, 1, 2)]);
    let edge = get_element_childs_from_fs_aps(fs, aps, 1).unwrap();
    assert_eq!(edge, vec![cell_of(&board, 0, 0), cell_of(&board, 0, 2), cell_of(&board, 1, 1)]);
}

#[test]
fn neighbour_lookup_out_of_range() {
    let board: Vec<Vec<i8>> = vec![vec![0, 1], vec![0, 2]];
    let (fs, aps) = fs_aps_from_matrix(board).unwrap();
    assert_eq!(get_element_childs_from_fs_aps(fs.clone(), aps.clone(), 4), Err(ResolverError::IndexOutOfRange));
    assert_eq!(get_element_childs_from_fs_aps(fs, aps, 9), Err(ResolverError::IndexOutOfRange));
}

#[test]
fn graph_build_rejects_bad_boards() {
    assert_eq!(fs_aps_from_matrix(Vec::new()), Err(ResolverError::EmptyBoard));
    assert_eq!(fs_aps_from_matrix(vec![vec![0, 0], vec![0]]), Err(ResolverError::NotSquare));
}

#[test]
fn multi_target_neutralises_consumed_ends() {
    let board: Vec<Vec<i8>> = vec![vec![2, 0, 0], vec![-1, -1, 0], vec![1, 0, 2]];
    let (start, ends) = get_start_to_end_points_multi_roads(board.clone()).unwrap();
    assert_eq!(ends, vec![pt(0, 0), pt(2, 2)]);
    let (mut fs, aps) = fs_aps_from_matrix(board.clone()).unwrap();
    let end_fields: Vec<Field> = ends.iter().map(|p| cell_of(&board, p.x.unwrap(), p.y.unwrap())).collect();
    let start_field = cell_of(&board, start.x.unwrap(), start.y.unwrap());
    let roads = a_star_multi_roads_resolver(&mut fs, aps, 3, (start_field, end_fields)).unwrap();
    assert_eq!(roads.len(), 2);
    for f in fs.iter() {
        if ends.contains(&f.coordinates) {
            assert_eq!(f.value, Some(0));
        }
    }
    // the first search stops on the nearer target (2, 2) while (0, 0) is the one
    // consumed, so the second search meets (2, 2) again
    assert_eq!(roads[0], vec![pt(2, 0), pt(2, 1), pt(2, 2)]);
    assert_eq!(roads[1], vec![pt(2, 0), pt(2, 1), pt(2, 2)]);
}

#[test]
fn multi_target_empty_input() {
    let mut fs: Vec<Field> = Vec::new();
    let r = a_star_multi_roads_resolver(&mut fs, vec![0, 0], 1, (fld(0, 0, 1), vec![fld(0, 0, 2)]));
    assert_eq!(r, Err(ResolverError::EmptyInput));
    let (mut fs, aps) = fs_aps_from_matrix(vec![vec![1, 0], vec![0, 2]]).unwrap();
    let r = a_star_multi_roads_resolver(&mut fs, aps, 2, (Field::new(), Vec::new()));
    assert_eq!(r, Err(ResolverError::EmptyInput));
}

#[test]
fn multi_target_propagates_no_path() {
    let board: Vec<Vec<i8>> = vec![vec![1, 0, -1], vec![0, -1, 0], vec![-1, 0, 2]];
    let (mut fs, aps) = fs_aps_from_matrix(board).unwrap();
    let r = a_star_multi_roads_resolver(&mut fs, aps, 3, (fld(0, 0, 1), vec![fld(2, 2, 2)]));
    assert_eq!(r, Err(ResolverError::NoPath));
}

#[test]
fn a_star_no_path_scenario() {
    let board: Vec<Vec<i8>> = vec![vec![-1, 1], vec![2, -1]];
    let (fs, aps) = fs_aps_from_matrix(board).unwrap();
    assert_eq!(a_star_resolver(fs, aps, 2, (fld(0, 1, 1), fld(1, 0, 2))), Err(ResolverError::NoPath));
}

#[test]
fn a_star_empty_input() {
    let board: Vec<Vec<i8>> = vec![vec![0, 1], vec![0, 2]];
    let (fs, aps) = fs_aps_from_matrix(board).unwrap();
    assert_eq!(a_star_resolver(Vec::new(), aps.clone(), 2, (fld(0, 1, 1), fld(1, 1, 2))), Err(ResolverError::EmptyInput));
    assert_eq!(a_star_resolver(fs.clone(), Vec::new(), 2, (fld(0, 1, 1), fld(1, 1, 2))), Err(ResolverError::EmptyInput));
    assert_eq!(a_star_resolver(fs, aps, 2, (Field::new(), Field::new())), Err(ResolverError::EmptyInput));
}

#[test]
fn a_star_start_on_target() {
    let board: Vec<Vec<i8>> = vec![vec![2, 0], vec![0, 0]];
    let (fs, aps) = fs_aps_from_matrix(board).unwrap();
    assert_eq!(a_star_resolver(fs, aps, 2, (fld(0, 0, 2), fld(0, 0, 2))), Ok(vec![pt(0, 0)]));
}

#[test]
fn a_star_path_length_on_passable_boards() {
    for n in 2..7usize {
        for (sx, sy, ex, ey) in [(0, 0, n - 1, n - 1), (n - 1, 0, 0, n - 1), (0, n - 1, n - 1, 1), (1, 1, 0, 0)] {
            if (sx, sy) == (ex, ey) {
                continue;
            }
            let mut board: Vec<Vec<i8>> = vec![vec![0; n]; n];
            board[sx][sy] = 1;
            board[ex][ey] = 2;
            let (fs, aps) = fs_aps_from_matrix(board.clone()).unwrap();
            let start = cell_of(&board, sx, sy);
            let end = cell_of(&board, ex, ey);
            let path = a_star_resolver(fs, aps, n, (start, end)).unwrap();
            let distance = get_manhattan_distance_heuristic(pt(sx, sy), pt(ex, ey)) as usize;
            assert_eq!(path.len() - 1, distance);
            assert_eq!(path[0], pt(sx, sy));
            assert_eq!(path[path.len() - 1], pt(ex, ey));
        }
    }
}

#[test]
fn manhattan_exact_values() {
    assert_eq!(get_manhattan_distance_heuristic(pt(0, 0), pt(2, 5)), 7);
    assert_eq!(get_manhattan_distance_heuristic(pt(4, 1), pt(1, 3)), 5);
    assert_eq!(get_manhattan_distance_heuristic(pt(3, 3), pt(3, 3)), 0);
}

#[test]
fn dfs_paths_have_no_repeated_coordinate() {
    let board: Vec<Vec<i8>> = vec![vec![1, 0, 0], vec![0, 0, 0], vec![0, 0, 2]];
    let (fs, aps) = fs_aps_from_matrix(board.clone()).unwrap();
    let start = cell_of(&board, 0, 0);
    let end = cell_of(&board, 2, 2);
    let mut all_path: Vec<Vec<Field>> = Vec::new();
    let mut discovered: Vec<Field> = Vec::new();
    let mut current: Vec<Field> = vec![start];
    dfs_fs_aps_recursive(fs, aps, (start, end), 3, &mut discovered, &mut current, &mut all_path);
    assert_eq!(all_path.len(), 12);
    for path in all_path.iter() {
        for i in 0..path.len() {
            for j in (i + 1)..path.len() {
                assert_ne!(path[i].coordinates, path[j].coordinates);
            }
        }
        assert_eq!(path[0], start);
        assert_eq!(path[path.len() - 1], end);
    }
    assert!(discovered.is_empty());
    assert_eq!(current, vec![start]);
}

#[test]
fn chinese_rings_snapshot_counts() {
    assert_eq!(chinese_rings_resolver(0), vec![Vec::<bool>::new()]);
    assert_eq!(chinese_rings_resolver(1), vec![vec![false], vec![true]]);
    assert_eq!(chinese_rings_resolver(2).len(), 3);
    assert_eq!(chinese_rings_resolver(4).len(), 11);
    assert_eq!(chinese_rings_resolver(5).len(), 22);
    let moves = chinese_rings_resolver(6);
    assert_eq!(moves.len(), 43);
    for k in 1..moves.len() {
        let changed = (0..6).filter(|&i| moves[k - 1][i] != moves[k][i]).count();
        assert_eq!(changed, 1);
    }
    assert_eq!(moves[moves.len() - 1], vec![true; 6]);
}

#[test]
fn point_index_and_field_lookup() {
    assert_eq!(pt(1, 2).get_index(5), Ok(7));
    assert_eq!(Point::new().get_index(5), Err(ResolverError::UndeclaredPoint));
    assert_eq!(pt(1, 2).get_index(0), Err(ResolverError::UndeclaredPoint));
    assert_eq!(ResolverError::UndeclaredPoint.message(), "The x and y must be declare for get a index");
    let board: Vec<Vec<i8>> = vec![
        vec![2, 0, 0, 0, 0],
        vec![-1, -1, 0, 0, 0],
        vec![-1, 0, 0, 0, -1],
        vec![0, 0, 0, 0, 0],
        vec![0, 1, 0, 0, 0],
    ];
    assert_eq!(get_field_by_index(board.clone(), pt(2, 0)), Ok(fld(2, 0, -1)));
    assert_eq!(get_field_by_index(board.clone(), pt(5, 0)), Err(ResolverError::PointNotFound));
    assert_eq!(get_field_by_index(board.clone(), Point::new()), Err(ResolverError::PointNotFound));
    assert_eq!(get_start_to_end_points(board), Ok((pt(4, 1), pt(0, 0))));
}

#[test]
fn multi_scanner_errors() {
    assert_eq!(
        get_start_to_end_points_multi_roads(vec![vec![1, 1], vec![2, 0]]),
        Err(ResolverError::ManyStart)
    );
    assert_eq!(
        get_start_to_end_points_multi_roads(vec![vec![1, 0], vec![0, 0]]),
        Err(ResolverError::MissingEndpoint)
    );
    assert_eq!(
        get_start_to_end_points_multi_roads(vec![vec![0, 2], vec![2, 0]]),
        Err(ResolverError::MissingEndpoint)
    );
    assert_eq!(ResolverError::MissingEndpoint.message(), "A start point and a end point are required");
}

#[test]
fn error_messages() {
    assert_eq!(ResolverError::IndexOutOfRange.message(), "The index cannot be bigger than the size of APS vector");
    assert_eq!(ResolverError::EmptyInput.message(), "The parameters MUST be initializes");
    assert_eq!(ResolverError::NoPath.message(), "It seem that it has no end to this level");
    assert_eq!(ResolverError::PointNotFound.message(), "The target point cannot be found inside the matrix");
    assert_eq!(ResolverError::ManyStart.message(), "Cannot have many start points");
    assert_eq!(ResolverError::ManyEnd.message(), "Cannot have many end points");
}
