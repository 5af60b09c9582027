use cormine::octree::{Octant, OctantKind, OctantPos, Octree};

#[test]
pub fn octree() {
    let mut tree: Octree<4, u8> = Octree::new();
    assert_eq!(*tree.get(OctantPos::new(0, 0, 0)), 0);
    *tree.get_mut(OctantPos::new(1, 1, 1)) = 1;
    assert_eq!(*tree.get(OctantPos::new(0, 0, 0)), 0);
    assert_eq!(*tree.get(OctantPos::new(1, 1, 1)), 1);
    *tree.get_mut(OctantPos::new(1, 1, 3)) = 2;
    assert_eq!(*tree.get(OctantPos::new(1, 1, 3)), 2);
    let mut elts = tree.iter();
    elts.sort_by_key(|(p, _)| *p);
    println!("{elts:#?}");
    assert_eq!(elts.len(), 4 * 4 * 4);
}

#[test]
fn merge_collapses_uniform_writes() {
    let mut tree: Octree<4, u8> = Octree::new();
    *tree.get_mut(OctantPos::new(2, 0, 1)) = 7;
    assert_eq!(*tree.get(OctantPos::new(2, 0, 1)), 7);
    *tree.get_mut(OctantPos::new(2, 0, 1)) = 0;
    // the value is back to uniform, so merging until stable collapses
    // everything again
    while tree.merge() {}
    assert_eq!(*tree.get(OctantPos::new(2, 0, 1)), 0);
    let enabled = tree.iter_octants();
    assert_eq!(enabled.len(), 1);
    assert_eq!(enabled[0].size, 4);
}

#[test]
fn split_then_merge_restores_shape() {
    // Writing a point of a fresh uniform octree back to its own value and
    // merging until stable reproduces the original arena prefix exactly;
    // the split-off entries all end up orphaned.
    let fresh: Octree<8, u8> = Octree::new();
    let mut tree: Octree<8, u8> = Octree::new();
    *tree.get_mut(OctantPos::new(3, 5, 7)) = 0;
    while tree.merge() {}
    assert_eq!(tree.octants.len(), 1 + 8 * 3);
    for (i, o) in tree.octants.iter().enumerate() {
        if i < fresh.octants.len() {
            let f = &fresh.octants[i];
            assert_eq!(o.enabled, f.enabled);
            assert_eq!(o.size, f.size);
            assert_eq!(o.position, f.position);
            match (&o.kind, &f.kind) {
                (OctantKind::Chunk(a), OctantKind::Chunk(b)) => assert_eq!(a, b),
                _ => panic!("root should be a leaf again"),
            }
        } else {
            assert!(!o.enabled);
        }
    }
}

#[test]
fn partition_every_point_has_one_leaf() {
    let mut tree: Octree<4, u8> = Octree::new();
    *tree.get_mut(OctantPos::new(0, 0, 0)) = 3;
    *tree.get_mut(OctantPos::new(3, 3, 3)) = 9;
    tree.merge();
    for x in 0..4usize {
        for y in 0..4usize {
            for z in 0..4usize {
                let covering: Vec<&Octant<u8>> = tree
                    .octants
                    .iter()
                    .filter(|o| {
                        o.enabled
                            && matches!(o.kind, OctantKind::Chunk(_))
                            && o.contains(OctantPos::new(x, y, z))
                    })
                    .collect();
                assert_eq!(covering.len(), 1, "point ({x},{y},{z})");
            }
        }
    }
}

#[test]
fn iter_octants_skips_orphans() {
    let mut tree: Octree<4, u8> = Octree::new();
    *tree.get_mut(OctantPos::new(1, 1, 1)) = 0;
    while tree.merge() {}
    for o in tree.iter_octants() {
        assert!(o.enabled);
    }
}
