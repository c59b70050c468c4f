use puzzle_explorer::generator::{generator_to_gap_string, parse_gap_string, Generator};

#[test]
fn test_renumber_generator() {
    let gen_raw = vec![vec![vec![1, 9, 3], vec![4, 3, 6]]];
    let (gen_renumbered, num_vertices) = gen_raw.renumber(0);
    assert_eq!(gen_renumbered, vec![vec![vec![0, 1, 2], vec![3, 2, 4]]]);
    assert_eq!(num_vertices, 5);

    let gen_raw = vec![vec![vec![], vec![5, 9, 2]]];
    let (gen_renumbered, num_vertices) = gen_raw.renumber(1);
    assert_eq!(gen_renumbered, vec![vec![vec![], vec![1, 2, 3]]]);
    assert_eq!(num_vertices, 3);
}

#[test]
fn test_parse_gap_string() {
    let result = parse_gap_string("[(1,2,5)(3,4)]");
    assert_eq!(result, Some(vec![vec![vec![1, 2, 5], vec![3, 4]]]));

    let result = parse_gap_string("[(1,2)(3,4),(5,6,9)]");
    assert_eq!(
        result,
        Some(vec![vec![vec![1, 2], vec![3, 4]], vec![vec![5, 6, 9]]])
    );

    let result = parse_gap_string("[(),(1,2)]");
    assert_eq!(result, Some(vec![vec![vec![]], vec![vec![1, 2]]]));

    let result = parse_gap_string("[( ),(1,2)]");
    assert_eq!(result, Some(vec![vec![vec![]], vec![vec![1, 2]]]));

    let result = parse_gap_string("[( ),( 1, 2)]");
    assert_eq!(result, Some(vec![vec![vec![]], vec![vec![1, 2]]]));

    let result = parse_gap_string("[(), (1,2 )]");
    assert_eq!(result, Some(vec![vec![vec![]], vec![vec![1, 2]]]));

    assert_eq!(parse_gap_string("[]"), Some(vec![]));
    assert_eq!(parse_gap_string("[ ]"), Some(vec![]));

    assert_eq!(parse_gap_string(""), None);
    assert_eq!(parse_gap_string("foo"), None);
    assert_eq!(parse_gap_string("("), None);
}

#[test]
fn test_to_gap_string() {
    assert_eq!(vec![].to_gap_string(), "[]");

    assert_eq!(vec![vec![vec![]]].to_gap_string(), "[()]");

    assert_eq!(
        vec![vec![vec![]], vec![vec![1, 2]]].to_gap_string(),
        "[(),(1,2)]"
    );

    assert_eq!(
        vec![vec![vec![1, 2, 5], vec![3, 4]]].to_gap_string(),
        "[(1,2,5)(3,4)]"
    );

    assert_eq!(
        vec![vec![vec![]], vec![vec![1, 2]]].to_gap_string(),
        "[(),(1,2)]"
    );
}

#[test]
fn gap_string_with_offset_shifts_every_vertex() {
    let g = vec![vec![vec![0, 1, 4], vec![2, 3]], vec![vec![5, 6]]];
    assert_eq!(generator_to_gap_string(1, &g), "[(1,2,5)(3,4),(6,7)]");
    assert_eq!(generator_to_gap_string(0, &g), "[(0,1,4)(2,3),(5,6)]");
}

#[test]
fn gap_string_round_trips_through_the_parser() {
    let g = vec![vec![vec![0, 1, 4], vec![2, 3]], vec![vec![5, 6, 7]]];
    let text = generator_to_gap_string(1, &g);
    let back = parse_gap_string(&text).unwrap();
    assert_eq!(back, vec![vec![vec![1, 2, 5], vec![3, 4]], vec![vec![6, 7, 8]]]);
}

#[test]
fn parse_accepts_plus_signs_and_rejects_other_text() {
    assert_eq!(parse_gap_string("[(+1,2)]"), Some(vec![vec![vec![1, 2]]]));
    assert_eq!(parse_gap_string("[(1,-2)]"), None);
    assert_eq!(parse_gap_string("[(1,,2)]"), Some(vec![vec![vec![1, 2]]]));
    assert_eq!(parse_gap_string("[(a)]"), None);
    assert_eq!(parse_gap_string("[(99999999999999999999999)]"), None);
    assert_eq!(parse_gap_string("[(1,2)"), None);
    assert_eq!(parse_gap_string("\t[ (1,\n2) ]\n"), Some(vec![vec![vec![1, 2]]]));
}

#[test]
fn unique_vertices_in_order_of_first_appearance() {
    let g = vec![vec![vec![7, 3, 7]], vec![vec![1, 3], vec![9]]];
    assert_eq!(g.get_unique_vertices(), vec![7, 3, 1, 9]);
    let empty: Vec<Vec<Vec<usize>>> = vec![];
    assert_eq!(empty.get_unique_vertices(), Vec::<usize>::new());
}

#[test]
fn renumber_from_an_offset_uses_consecutive_labels() {
    let g = vec![vec![vec![40, 10]], vec![vec![10, 30, 40]]];
    let (r, n) = g.renumber(5);
    assert_eq!(r, vec![vec![vec![5, 6]], vec![vec![6, 7, 5]]]);
    assert_eq!(n, 3);
}
