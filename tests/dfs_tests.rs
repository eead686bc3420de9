use esgi_arena_resolver_algorithms::dfs::dfs_fs_aps_recursive;
use esgi_arena_resolver_algorithms::graph::{Field, Point};

fn pt(x: usize, y: usize) -> Point {
    Point { x: Some(x), y: Some(y) }
}

fn fld(x: usize, y: usize, v: i8) -> Field {
    Field { coordinates: pt(x, y), value: Some(v) }
}

fn testing_data_heavy_matrix() -> (Vec<Vec<i8>>, Vec<Field>, Vec<u32>) {
    let matrix_example: Vec<Vec<i8>> = vec![vec![2, 0, 0], vec![-1, -1, 0], vec![1, 0, 0]];
    let fs_example: Vec<Field> = vec![
        fld(0, 1, 0),
        fld(1, 0, -1),
        fld(0, 0, 2),
        fld(0, 2, 0),
        fld(1, 1, -1),
        fld(0, 1, 0),
        fld(1, 2, 0),
        fld(0, 0, 2),
        fld(2, 0, 1),
        fld(1, 1, -1),
        fld(0, 1, 0),
        fld(1, 0, -1),
        fld(1, 2, 0),
        fld(2, 1, 0),
        fld(0, 2, 0),
        fld(1, 1, -1),
        fld(2, 2, 0),
        fld(1, 0, -1),
        fld(2, 1, 0),
        fld(2, 0, 1),
        fld(1, 1, -1),
        fld(2, 2, 0),
        fld(1, 2, 0),
        fld(2, 1, 0)
    ];
    let aps_example: Vec<u32> = vec![0, 2, 5, 7, 10, 14, 17, 19, 22, 24];
    (matrix_example, fs_example, aps_example)
}

#[test]
fn dfs_fs_aps_recursive_test() {
    let fs_example: Vec<Field> = vec![
        fld(0, 1, 1),
        fld(1, 0, 0),
        fld(0, 0, 0),
        fld(1, 1, 2),
        fld(1, 1, 2),
        fld(0, 0, 0),
        fld(1, 0, 0),
        fld(0, 1, 1)
    ];
    let aps_example: Vec<u32> = vec![0, 2, 4, 6, 8];

    let start_field_example = fld(0, 1, 1);
    let end_field_example = fld(1, 1, 2);
    let expected_output = vec![
        vec![fld(0, 1, 1), fld(0, 0, 0), fld(1, 0, 0), fld(1, 1, 2)],
        vec![fld(0, 1, 1), fld(1, 1, 2)],
    ];

    let mut all_path: Vec<Vec<Field>> = Vec::new();

    dfs_fs_aps_recursive(
        fs_example,
        aps_example,
        (start_field_example, end_field_example),
        2,
        &mut Vec::new(),
        &mut vec![start_field_example],
        &mut all_path,
    );

    assert_eq!(all_path, expected_output);
}

#[test]
fn dfs_fs_aps_recursive_heavy_test() {
    let (_, fs_example, aps_example) = testing_data_heavy_matrix();

    let start_end = (fld(2, 0, 1), fld(0, 0, 2));

    let expected_output = vec![vec![
        fld(2, 0, 1),
        fld(2, 1, 0),
        fld(2, 2, 0),
        fld(1, 2, 0),
        fld(0, 2, 0),
        fld(0, 1, 0),
        fld(0, 0, 2),
    ]];

    let mut all_path: Vec<Vec<Field>> = Vec::new();

    dfs_fs_aps_recursive(fs_example, aps_example, start_end, 3, &mut Vec::new(), &mut vec![start_end.0], &mut all_path);

    assert_eq!(all_path, expected_output);
}
