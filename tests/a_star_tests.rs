use esgi_arena_resolver_algorithms::a_star::{get_index_road_from_parents, quicksort, AStarField};
use esgi_arena_resolver_algorithms::graph::{Field, Point};

fn scored(cost: u64) -> AStarField {
    AStarField { wrapped_field: Field::new(), parent_field: None, move_cost: Some(cost) }
}

fn parents_case() -> Vec<Point> {
    let start_element = Box::new(AStarField {
        wrapped_field: Field { coordinates: Point { x: Some(0), y: Some(1) }, value: Some(1) },
        parent_field: None,
        move_cost: None,
    });
    let road_element = Box::new(AStarField {
        wrapped_field: Field { coordinates: Point { x: Some(0), y: Some(0) }, value: Some(1) },
        parent_field: Some(start_element),
        move_cost: None,
    });
    let road_end = Box::new(AStarField {
        wrapped_field: Field { coordinates: Point { x: Some(1), y: Some(1) }, value: Some(1) },
        parent_field: Some(road_element),
        move_cost: None,
    });
    get_index_road_from_parents(*road_end).unwrap()
}

fn quicksort_case() {
    let mut sample_data: Vec<AStarField> = vec![scored(10), scored(11), scored(9), scored(15)];
    let expected_output = vec![scored(9), scored(10), scored(11), scored(15)];
    quicksort(&mut sample_data);

    assert_eq!(sample_data, expected_output);
}

#[test]
fn a_star_quicksort_test() {
    quicksort_case();
}

#[test]
fn lib_quicksort_test() {
    quicksort_case();
}

#[test]
fn a_star_get_parents_list_test() {
    let expected_output: Vec<Point> =
        vec![Point { x: Some(0), y: Some(1) }, Point { x: Some(0), y: Some(0) }, Point { x: Some(1), y: Some(1) }];
    assert_eq!(parents_case(), expected_output);
}

#[test]
fn lib_get_parents_list_test() {
    let expected_output: Vec<Point> =
        vec![Point { x: Some(0), y: Some(1) }, Point { x: Some(0), y: Some(0) }, Point { x: Some(1), y: Some(1) }];
    assert_eq!(parents_case(), expected_output);
}

#[test]
fn get_index_road_from_parents_root() {
    assert_eq!(get_index_road_from_parents(scored(3)), None);
}
