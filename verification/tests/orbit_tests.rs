use puzzle_explorer::canon::orbit_graph_hash_script;
use puzzle_explorer::orbit::orbit_structure;
use std::collections::HashSet;

fn two_swaps(n: usize) -> Vec<Vec<Option<usize>>> {
    // A swaps faces 0 and 1, B swaps faces 2 and 3; other faces stay put.
    let mut a = vec![None; n];
    a[0] = Some(1);
    a[1] = Some(0);
    let mut b = vec![None; n];
    b[2] = Some(3);
    b[3] = Some(2);
    vec![a.clone(), a, b.clone(), b]
}

#[test]
fn hash_script_lists_successors_of_each_vertex() {
    let g = vec![vec![vec![1, 2, 3]]];
    let s = orbit_graph_hash_script(1, &g, 3).unwrap();
    assert_eq!(s, "l=0\n-m\nAd\nd\nn=3 g\n0: 1;\n1: 2;\n2: 0.\nc -a\nx\nz\n");
}

#[test]
fn hash_script_merges_edges_and_sorts_neighbours() {
    let g = vec![vec![vec![0, 2]], vec![vec![2, 0], vec![0, 1]], vec![vec![5]]];
    let s = orbit_graph_hash_script(0, &g, 3).unwrap();
    assert_eq!(s, "l=0\n-m\nAd\nd\nn=3 g\n0: 1 2;\n1: 0;\n2: 0.\nc -a\nx\nz\n");
}

#[test]
fn hash_script_of_isolated_and_no_vertices() {
    let g = vec![vec![vec![1, 2]]];
    let s = orbit_graph_hash_script(1, &g, 3).unwrap();
    assert_eq!(s, "l=0\n-m\nAd\nd\nn=3 g\n0: 1;\n1: 0;\n2:.\nc -a\nx\nz\n");
    let empty: Vec<Vec<Vec<usize>>> = vec![];
    assert_eq!(
        orbit_graph_hash_script(0, &empty, 0).unwrap(),
        "l=0\n-m\nAd\nd\nn=0 g\nc -a\nx\nz\n"
    );
}

#[test]
fn hash_script_rejects_vertices_below_the_start() {
    let g = vec![vec![vec![3, 1]]];
    assert_eq!(
        orbit_graph_hash_script(2, &g, 4),
        Err("Vertex index out of bounds".to_string())
    );
}

#[test]
fn orbits_of_two_swaps() {
    let r = orbit_structure(&two_swaps(5), 5, 2, 2, false).unwrap();
    assert_eq!(r.orbits, vec![vec![0, 1], vec![2, 3], vec![4]]);
    assert_eq!(
        r.generators,
        vec![vec![vec![vec![0, 1]]], vec![vec![vec![0, 1]]], vec![]]
    );
    assert!(r.degenerate_faces.is_empty());
}

#[test]
fn orbits_join_faces_linked_by_either_move() {
    // A: 3-cycle 0 -> 1 -> 2 -> 0; B: swaps 2 and 3.
    let n = 4;
    let a = vec![Some(1), Some(2), Some(0), None];
    let ai = vec![Some(2), Some(0), Some(1), None];
    let b = vec![None, None, Some(3), Some(2)];
    let t = vec![a, ai, b.clone(), b];
    let r = orbit_structure(&t, n, 3, 2, false).unwrap();
    assert_eq!(r.orbits, vec![vec![0, 1, 2, 3]]);
    assert_eq!(r.generators, vec![vec![vec![vec![0, 1, 2]], vec![vec![2, 3]]]]);
}

#[test]
fn cycle_length_mismatch_is_an_error_outside_fudged_mode() {
    assert_eq!(
        orbit_structure(&two_swaps(4), 4, 3, 2, false).err(),
        Some("Orbit Cycle Length mismatch: expected cycle length of 3 for move A.".to_string())
    );
    assert_eq!(
        orbit_structure(&two_swaps(4), 4, 2, 5, false).err(),
        Some("Orbit Cycle Length mismatch: expected cycle length of 5 for move B.".to_string())
    );
}

#[test]
fn fudged_mode_sets_mismatched_orbits_aside() {
    let r = orbit_structure(&two_swaps(4), 4, 3, 2, true).unwrap();
    assert_eq!(r.orbits, vec![vec![2, 3]]);
    assert_eq!(r.generators, vec![vec![vec![], vec![vec![0, 1]]]]);
    let expected: HashSet<usize> = [0, 1].into_iter().collect();
    assert_eq!(r.degenerate_faces, expected);
}

#[test]
fn no_faces_no_orbits() {
    let t: Vec<Vec<Option<usize>>> = vec![vec![], vec![], vec![], vec![]];
    let r = orbit_structure(&t, 0, 2, 2, false).unwrap();
    assert!(r.orbits.is_empty());
    assert!(r.generators.is_empty());
}

#[test]
fn every_face_is_accounted_for_once() {
    let r = orbit_structure(&two_swaps(6), 6, 3, 2, true).unwrap();
    let mut seen: Vec<usize> = r.degenerate_faces.iter().copied().collect();
    for o in &r.orbits {
        seen.extend(o.iter().copied());
    }
    seen.sort();
    assert_eq!(seen, vec![0, 1, 2, 3, 4, 5]);
    assert_eq!(r.generators.len(), r.orbits.len());
}
