use develop::union_find::{uf_find, uf_union};

#[test]
fn find_halves_the_path_it_walks() {
    // A chain 3 → 2 → 1 → 0.
    let mut parent = vec![0usize, 0, 1, 2];
    assert_eq!(uf_find(&mut parent, 3), 0);
    assert_eq!(parent, vec![0, 0, 1, 1]);
    assert_eq!(uf_find(&mut parent, 3), 0);
    assert_eq!(uf_find(&mut parent, 2), 0);
}

#[test]
fn a_root_finds_itself() {
    let mut parent = vec![0usize, 1, 2];
    assert_eq!(uf_find(&mut parent, 1), 1);
    assert_eq!(parent, vec![0, 1, 2]);
}

#[test]
fn union_links_the_second_root_under_the_first() {
    let mut parent = vec![0usize, 1, 2, 3];
    assert_eq!(uf_union(&mut parent, 0, 1), Some((0, 1)));
    assert_eq!(parent[1], 0);
    assert_eq!(uf_union(&mut parent, 3, 1), Some((3, 0)));
    assert_eq!(uf_find(&mut parent, 1), 3);
    assert_eq!(uf_find(&mut parent, 0), 3);
    assert_eq!(uf_find(&mut parent, 2), 2);
}

#[test]
fn union_of_one_tree_is_none() {
    let mut parent = vec![0usize, 1, 2];
    assert_eq!(uf_union(&mut parent, 2, 1), Some((2, 1)));
    assert_eq!(uf_union(&mut parent, 1, 2), None);
    assert_eq!(uf_union(&mut parent, 0, 0), None);
    assert_eq!(uf_find(&mut parent, 1), 2);
}

#[test]
fn a_find_leaves_entries_off_its_walk() {
    let mut parent = vec![0usize, 0, 1, 2, 4, 4];
    assert_eq!(uf_find(&mut parent, 2), 0);
    assert_eq!(parent, vec![0, 0, 0, 2, 4, 4]);
}
