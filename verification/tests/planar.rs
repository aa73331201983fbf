use osm2streets::planar::{color_by_classifying, four_coloring, EdgeID};

fn edge(a: isize, b: isize) -> EdgeID {
    ((a, 0), (b, 0))
}

#[test]
fn neighbouring_faces_get_different_colors() {
    // Three faces in a row, and a fourth touching all three.
    let faces = vec![
        vec![edge(0, 1), edge(1, 2)],
        vec![edge(1, 2), edge(2, 3)],
        vec![edge(2, 3), edge(3, 4)],
        vec![edge(9, 0), edge(0, 1), edge(2, 3)],
    ];
    assert_eq!(four_coloring(&faces, 5), vec![0, 1, 0, 2]);
}

#[test]
fn too_few_colors_give_every_face_the_first() {
    let faces = vec![vec![edge(0, 1)], vec![edge(0, 1)]];
    assert_eq!(four_coloring(&faces, 1), vec![0, 0]);
    assert_eq!(four_coloring(&faces, 2), vec![0, 1]);
    assert_eq!(four_coloring(&Vec::new(), 0), Vec::<usize>::new());
    assert_eq!(four_coloring(&vec![vec![edge(0, 1)]], 0), vec![0]);
}

#[test]
fn faces_are_colored_by_their_sources() {
    let s = |v: &[&str]| -> Vec<String> { v.iter().map(|x| x.to_string()).collect() };
    assert_eq!(color_by_classifying(&s(&["Intersection #1", "Road #2", "Road #3"])), "black");
    assert_eq!(color_by_classifying(&s(&["Intersection #1", "Intersection #2", "Road #3"])), "black");
    assert_eq!(color_by_classifying(&s(&["Intersection #1", "Road #2", "boundary"])), "cyan");
    assert_eq!(color_by_classifying(&s(&["Intersection #1"])), "cyan");
    assert_eq!(color_by_classifying(&s(&["Intersection #1", "Intersection #2", "Road #3", "Road #4"])), "cyan");
}
