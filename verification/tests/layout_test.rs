use tiled::geometry::{Rect, SplitAxis};
use tiled::tile::Tile;
use tiled::tree::{TileNode, TileTree};

fn tree_with(screen: Rect, items: i32) -> TileTree {
    let mut tree = TileTree::new(screen);
    for id in 1..=items {
        tree.insert(id);
    }
    tree
}

fn nodes_of(tree: &TileTree) -> Vec<TileNode> {
    let mut nodes = Vec::new();
    let mut handle = 0;
    while let Some(node) = tree.node(handle) {
        nodes.push(*node);
        handle += 1;
    }
    nodes
}

// The rectangle that the cuts above a node leave to it.
fn region_of(nodes: &[TileNode], screen: Rect, handle: usize) -> Rect {
    match nodes[handle].parent {
        None => screen,
        Some(parent) => {
            let whole = region_of(nodes, screen, parent);
            let halves = whole.split(SplitAxis::for_depth(nodes[parent].depth + 1));
            if nodes[parent].left == Some(handle) {
                halves.0
            } else {
                halves.1
            }
        }
    }
}

fn overlap(first: &Rect, second: &Rect) -> bool {
    first.top_left.x < second.bottom_right.x
        && second.top_left.x < first.bottom_right.x
        && first.top_left.y < second.bottom_right.y
        && second.top_left.y < first.bottom_right.y
}

#[test]
fn tile_new_keeps_its_arguments() {
    let tile = Tile::new(42, Rect::new(1, 2, 3, 4));

    assert_eq!(42, tile.app_process_id);
    assert_eq!(Rect::new(1, 2, 3, 4), tile.boundary);
}

#[test]
fn node_new_keeps_its_arguments() {
    let tile = Tile::new(5, Rect::new(0, 0, 8, 8));
    let node = TileNode::new(Some(tile), 3, Some(7), Some(8), Some(2));

    assert_eq!(Some(tile), node.tile);
    assert_eq!(3, node.depth);
    assert_eq!(Some(7), node.left);
    assert_eq!(Some(8), node.right);
    assert_eq!(Some(2), node.parent);
}

#[test]
fn node_new_leaf_has_a_tile_and_no_children() {
    let tile = Tile::new(5, Rect::new(0, 0, 8, 8));
    let leaf = TileNode::new_leaf(tile, 4, Some(9));

    assert_eq!(TileNode::new(Some(tile), 4, None, None, Some(9)), leaf);
    assert!(leaf.is_leaf());
}

#[test]
fn node_with_a_child_is_no_leaf() {
    let tile = Tile::new(5, Rect::new(0, 0, 8, 8));

    assert!(!TileNode::new(None, 0, Some(1), Some(2), None).is_leaf());
    assert!(!TileNode::new(None, 0, Some(1), None, None).is_leaf());
    assert!(!TileNode::new(None, 0, None, Some(2), None).is_leaf());
    assert!(!TileNode::new(Some(tile), 0, None, Some(2), None).is_leaf());
}

#[test]
fn node_without_children_is_a_leaf_whatever_else_it_holds() {
    assert!(TileNode::new(None, 0, None, None, None).is_leaf());
    assert!(TileNode::new(None, 6, None, None, Some(3)).is_leaf());
}

#[test]
fn new_tree_is_empty() {
    let tree = TileTree::new(Rect::from_dimensions(3840, 2160));

    assert_eq!(0, tree.visit().len());
    assert_eq!(None, tree.root());
    assert_eq!(None, tree.node(0));
}

#[test]
fn first_insert_makes_a_root_leaf_over_the_screen() {
    let screen = Rect::new(10, 20, 3840, 2160);
    let mut tree = TileTree::new(screen);

    tree.insert(7);

    let root = *tree.root().unwrap();
    assert_eq!(TileNode::new_leaf(Tile::new(7, screen), 0, None), root);
    assert!(root.is_leaf());
    assert_eq!(0, root.depth);
    assert_eq!(None, root.parent);
    assert_eq!(None, tree.node(1));
    assert_eq!(vec![Tile::new(7, screen)], tree.visit());
}

#[test]
fn one_item_gets_the_whole_screen() {
    let tree = tree_with(Rect::from_dimensions(3840, 2160), 1);

    assert_eq!(vec![Tile::new(1, Rect::new(0, 0, 3840, 2160))], tree.visit());
}

#[test]
fn two_items_lie_side_by_side() {
    let tree = tree_with(Rect::from_dimensions(3840, 2160), 2);

    assert_eq!(
        vec![
            Tile::new(1, Rect::new(0, 0, 1920, 2160)),
            Tile::new(2, Rect::new(1920, 0, 1920, 2160)),
        ],
        tree.visit()
    );
}

#[test]
fn three_items_stack_the_right_half() {
    let tree = tree_with(Rect::from_dimensions(3840, 2160), 3);

    assert_eq!(
        vec![
            Tile::new(1, Rect::new(0, 0, 1920, 2160)),
            Tile::new(2, Rect::new(1920, 0, 1920, 1080)),
            Tile::new(3, Rect::new(1920, 1080, 1920, 1080)),
        ],
        tree.visit()
    );
}

#[test]
fn four_items_cut_the_last_tile_again() {
    let tree = tree_with(Rect::from_dimensions(3840, 2160), 4);

    assert_eq!(
        vec![
            Tile::new(1, Rect::new(0, 0, 1920, 2160)),
            Tile::new(2, Rect::new(1920, 0, 1920, 1080)),
            Tile::new(3, Rect::new(1920, 1080, 960, 1080)),
            Tile::new(4, Rect::new(2880, 1080, 960, 1080)),
        ],
        tree.visit()
    );
}

#[test]
fn second_insert_turns_the_root_into_an_inner_node() {
    let tree = tree_with(Rect::from_dimensions(3840, 2160), 2);

    assert_eq!(
        vec![
            TileNode::new(None, 0, Some(1), Some(2), None),
            TileNode::new_leaf(Tile::new(1, Rect::new(0, 0, 1920, 2160)), 1, Some(0)),
            TileNode::new_leaf(Tile::new(2, Rect::new(1920, 0, 1920, 2160)), 1, Some(0)),
        ],
        nodes_of(&tree)
    );
}

#[test]
fn third_insert_grows_the_right_child_only() {
    let tree = tree_with(Rect::from_dimensions(3840, 2160), 3);

    assert_eq!(
        vec![
            TileNode::new(None, 0, Some(1), Some(2), None),
            TileNode::new_leaf(Tile::new(1, Rect::new(0, 0, 1920, 2160)), 1, Some(0)),
            TileNode::new(None, 1, Some(3), Some(4), Some(0)),
            TileNode::new_leaf(Tile::new(2, Rect::new(1920, 0, 1920, 1080)), 2, Some(2)),
            TileNode::new_leaf(Tile::new(3, Rect::new(1920, 1080, 1920, 1080)), 2, Some(2)),
        ],
        nodes_of(&tree)
    );
}

#[test]
fn insert_adds_two_nodes_and_changes_one() {
    let mut tree = tree_with(Rect::from_dimensions(1000, 1000), 5);
    let before = nodes_of(&tree);

    tree.insert(6);

    let after = nodes_of(&tree);
    assert_eq!(before.len() + 2, after.len());
    let changed: Vec<usize> = (0..before.len()).filter(|&i| before[i] != after[i]).collect();
    assert_eq!(vec![before.len() - 1], changed);
    assert!(before[changed[0]].is_leaf());
    assert!(!after[changed[0]].is_leaf());
    assert_eq!(None, after[changed[0]].tile);
    assert_eq!(before[changed[0]].depth, after[changed[0]].depth);
    assert_eq!(before[changed[0]].parent, after[changed[0]].parent);
}

#[test]
fn visit_twice_yields_the_same_tiles() {
    let tree = tree_with(Rect::from_dimensions(3840, 2160), 9);

    let first = tree.visit();
    let second = tree.visit();

    assert_eq!(9, first.len());
    assert_eq!(first, second);
}

#[test]
fn visit_of_an_empty_tree_twice() {
    let tree = TileTree::new(Rect::from_dimensions(3840, 2160));

    assert_eq!(tree.visit(), tree.visit());
    assert!(tree.visit().is_empty());
}

#[test]
fn each_insert_adds_one_tile() {
    let mut tree = TileTree::new(Rect::from_dimensions(3840, 2160));

    assert_eq!(0, tree.visit().len());
    for count in 1..=40 {
        tree.insert(100 + count);
        assert_eq!(count as usize, tree.visit().len());
    }
}

#[test]
fn each_insert_replaces_the_last_tile_by_its_halves() {
    let mut tree = TileTree::new(Rect::from_dimensions(4096, 4096));
    tree.insert(1);

    for id in 2..=12 {
        let before = tree.visit();
        tree.insert(id);
        let after = tree.visit();

        let last = before[before.len() - 1];
        let halves = last.boundary.split(SplitAxis::for_depth(before.len()));
        let mut expected = before.clone();
        expected.pop();
        expected.push(Tile::new(last.app_process_id, halves.0));
        expected.push(Tile::new(id, halves.1));
        assert_eq!(expected, after);
    }
}

#[test]
fn tiles_come_in_insertion_order() {
    let mut tree = TileTree::new(Rect::from_dimensions(3840, 2160));
    let ids = [5, -3, 5, 0, i32::MAX, i32::MIN, 12];
    for id in ids {
        tree.insert(id);
    }

    let visited: Vec<i32> = tree.visit().iter().map(|tile| tile.app_process_id).collect();

    assert_eq!(ids.to_vec(), visited);
}

#[test]
fn equal_ids_get_tiles_of_their_own() {
    let tree = {
        let mut tree = TileTree::new(Rect::from_dimensions(200, 100));
        tree.insert(1);
        tree.insert(1);
        tree
    };

    assert_eq!(
        vec![Tile::new(1, Rect::new(0, 0, 100, 100)), Tile::new(1, Rect::new(100, 0, 100, 100))],
        tree.visit()
    );
}

#[test]
fn leaves_are_the_nodes_with_a_tile() {
    let tree = tree_with(Rect::from_dimensions(3840, 2160), 17);
    let nodes = nodes_of(&tree);

    assert_eq!(33, nodes.len());
    for node in &nodes {
        assert_eq!(node.is_leaf(), node.tile.is_some());
        assert_eq!(node.left.is_some(), node.right.is_some());
    }
    assert_eq!(17, nodes.iter().filter(|node| node.is_leaf()).count());
}

#[test]
fn children_point_back_to_their_parent() {
    let tree = tree_with(Rect::from_dimensions(3840, 2160), 17);
    let nodes = nodes_of(&tree);

    assert_eq!(None, nodes[0].parent);
    assert_eq!(0, nodes[0].depth);
    for (handle, node) in nodes.iter().enumerate() {
        if let (Some(left), Some(right)) = (node.left, node.right) {
            assert_ne!(left, right);
            for child in [left, right] {
                assert_eq!(Some(handle), nodes[child].parent);
                assert_eq!(node.depth + 1, nodes[child].depth);
            }
        }
    }
}

#[test]
fn children_share_the_region_of_their_parent() {
    let screen = Rect::new(-40, 30, 1000, 777);
    let tree = tree_with(screen, 12);
    let nodes = nodes_of(&tree);

    for (handle, node) in nodes.iter().enumerate() {
        let whole = region_of(&nodes, screen, handle);
        match (node.left, node.right) {
            (Some(left), Some(right)) => {
                let halves = whole.split(SplitAxis::for_depth(node.depth + 1));
                assert_eq!(halves.0, region_of(&nodes, screen, left));
                assert_eq!(halves.1, region_of(&nodes, screen, right));
            }
            _ => assert_eq!(whole, node.tile.unwrap().boundary),
        }
    }
}

#[test]
fn even_cuts_leave_no_gap() {
    let screen = Rect::from_dimensions(1024, 512);
    let tree = tree_with(screen, 8);

    let area: i64 = tree
        .visit()
        .iter()
        .map(|tile| tile.boundary.width() as i64 * tile.boundary.height() as i64)
        .sum();

    assert_eq!(1024 * 512, area);
}

#[test]
fn tiles_do_not_overlap_and_stay_on_the_screen() {
    let screen = Rect::new(7, 11, 1921, 1083);
    let tiles = tree_with(screen, 14).visit();

    for (index, tile) in tiles.iter().enumerate() {
        assert!(screen.top_left.x <= tile.boundary.top_left.x);
        assert!(screen.top_left.y <= tile.boundary.top_left.y);
        assert!(tile.boundary.bottom_right.x <= screen.bottom_right.x);
        assert!(tile.boundary.bottom_right.y <= screen.bottom_right.y);
        for later in &tiles[index + 1..] {
            assert!(!overlap(&tile.boundary, &later.boundary));
            assert!(
                tile.boundary.bottom_right.x <= later.boundary.top_left.x
                    || tile.boundary.bottom_right.y <= later.boundary.top_left.y
            );
        }
    }
}

#[test]
fn odd_screen_loses_a_column_at_the_first_cut() {
    let tree = tree_with(Rect::from_dimensions(5, 3), 2);

    assert_eq!(
        vec![Tile::new(1, Rect::new(0, 0, 2, 3)), Tile::new(2, Rect::new(2, 0, 2, 3))],
        tree.visit()
    );
}

#[test]
fn small_screen_ends_in_empty_tiles() {
    let tree = tree_with(Rect::from_dimensions(2, 2), 6);

    assert_eq!(
        vec![
            Tile::new(1, Rect::new(0, 0, 1, 2)),
            Tile::new(2, Rect::new(1, 0, 1, 1)),
            Tile::new(3, Rect::new(1, 1, 0, 1)),
            Tile::new(4, Rect::new(1, 1, 0, 0)),
            Tile::new(5, Rect::new(1, 1, 0, 0)),
            Tile::new(6, Rect::new(1, 1, 0, 0)),
        ],
        tree.visit()
    );
}

#[test]
fn empty_screen_takes_items_all_the_same() {
    let tree = tree_with(Rect::new(3, 4, 0, 0), 3);

    assert_eq!(
        vec![
            Tile::new(1, Rect::new(3, 4, 0, 0)),
            Tile::new(2, Rect::new(3, 4, 0, 0)),
            Tile::new(3, Rect::new(3, 4, 0, 0)),
        ],
        tree.visit()
    );
}

#[test]
fn node_handles_past_the_end_name_nothing() {
    let tree = tree_with(Rect::from_dimensions(100, 100), 3);

    assert!(tree.node(4).is_some());
    assert_eq!(None, tree.node(5));
    assert_eq!(None, tree.node(usize::MAX));
    assert_eq!(tree.node(0), tree.root());
}

#[test]
fn long_chain_of_inserts() {
    let mut tree = TileTree::new(Rect::from_dimensions(i32::MAX, i32::MAX));
    for id in 0..20000 {
        tree.insert(id);
    }

    let tiles = tree.visit();

    assert_eq!(20000, tiles.len());
    assert_eq!(Tile::new(0, Rect::new(0, 0, 1073741823, i32::MAX)), tiles[0]);
    assert_eq!(19999, tiles[19999].app_process_id);
    assert_eq!(19999, tree.node(39998).unwrap().depth);
    assert_eq!(None, tree.node(39999));
}
