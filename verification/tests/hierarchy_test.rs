use olap_engine::dimension::dimension::Dimension;
use olap_engine::dimension::hierarchy::Hierarchy;
use olap_engine::number::Whole;
use std::collections::BTreeMap;

fn bank(names: &[(u32, &str)]) -> BTreeMap<u32, String> {
    names.iter().map(|(id, name)| (*id, name.to_string())).collect()
}

/// A tree: 10 over 11 and 3; 11 over 1 and 2.
fn tree() -> Hierarchy<Whole> {
    let mut h = Hierarchy::new("Geo");
    h.register_aggregate("World", 10);
    h.register_aggregate("Europe", 11);
    h.register_leaf_alias("France", 1);
    h.register_leaf_alias("Spain", 2);
    h.register_leaf_alias("Peru", 3);
    h.link(11, 1, Whole(1));
    h.link(11, 2, Whole(2));
    h.link(10, 11, Whole(3));
    h.link(10, 3, Whole(-1));
    h
}

#[test]
fn names_are_found_in_any_case() {
    let h = tree();
    assert_eq!(h.get_id("EUROPE"), Some(11));
    assert_eq!(h.get_id("france"), Some(1));
    assert_eq!(h.get_id("Chile"), None);
    assert!(h.contains("peru"));
    assert!(!h.contains("chile"));
    assert_eq!(h.member_name(11), Some("Europe"));
    assert_eq!(h.member_name(1), Some("france"));
    assert_eq!(h.member_name(99), None);
    assert_eq!(h.display_name_of(11), Some("Europe"));
    assert_eq!(h.display_name_of(1), None);
    assert_eq!(h.len(), 5);
    assert!(!h.is_empty());
    assert!(Hierarchy::<Whole>::new("x").is_empty());
    assert_eq!(h.registered_ids(), vec![10, 11, 1, 2, 3]);
}

#[test]
fn letters_beyond_the_alphabet_fold_too() {
    let mut h: Hierarchy<Whole> = Hierarchy::new("Geo");
    h.register_aggregate("ÅLAND", 4);
    assert_eq!(h.get_id("åland"), Some(4));
    assert_eq!(h.member_name(4), Some("ÅLAND"));
}

#[test]
fn a_child_has_one_parent() {
    let mut h = tree();
    assert_eq!(h.parent_of(1), Some(11));
    assert_eq!(h.link(10, 1, Whole(5)), Some(11));
    assert_eq!(h.parent_of(1), Some(10));
    assert_eq!(h.children_of(11), &[(2, Whole(2))]);
    assert_eq!(h.children_of(10), &[(11, Whole(3)), (3, Whole(-1)), (1, Whole(5))]);
    assert_eq!(h.link(10, 3, Whole(7)), None);
    assert_eq!(h.children_of(10), &[(11, Whole(3)), (3, Whole(7)), (1, Whole(5))]);
}

#[test]
fn a_parent_without_children_is_none() {
    let mut h = tree();
    h.link(10, 1, Whole(1));
    h.link(10, 2, Whole(1));
    assert!(!h.has_children(11));
    assert!(h.is_leaf_id(11));
    assert_eq!(h.drop_component(11, 1), None);
}

#[test]
fn dropping_and_detaching_undo_linking() {
    let mut h = tree();
    h.link(11, 7, Whole(4));
    assert_eq!(h.drop_component(11, 3), Some(false));
    assert_eq!(h.drop_component(11, 7), Some(true));
    h.detach_child(7);
    assert_eq!(h.children_of(11), tree().children_of(11));
    assert_eq!(h.parent_of(7), None);
}

#[test]
fn forgetting_a_member_frees_its_children() {
    let mut h = tree();
    h.forget(11);
    assert_eq!(h.get_id("Europe"), None);
    assert_eq!(h.parent_of(1), None);
    assert_eq!(h.parent_of(2), None);
    assert_eq!(h.children_of(10), &[(3, Whole(-1))]);
    h.ensure_display_order();
    assert_eq!(h.display_order(), &[10, 3, 1, 2]);
}

#[test]
fn an_alias_is_forgotten_but_an_aggregate_stays() {
    let mut h = tree();
    h.forget_alias(3);
    assert_eq!(h.get_id("Peru"), None);
    assert_eq!(h.parent_of(3), Some(10));
    h.forget_alias(11);
    assert_eq!(h.get_id("Europe"), Some(11));
}

#[test]
fn members_are_shown_depth_first() {
    let mut h = tree();
    h.ensure_display_order();
    assert_eq!(h.display_order(), &[10, 11, 1, 2, 3]);
    assert_eq!(h.display_order_rank(2), 3);
    assert_eq!(h.display_order_rank(42), usize::MAX);
}

#[test]
fn siblings_can_be_moved() {
    let mut h = tree();
    h.move_member_before(2, 1);
    h.move_member_to_front(3);
    h.refresh_display_order();
    assert_eq!(h.display_order(), &[10, 3, 11, 2, 1]);
    h.move_member_before(2, 2);
    h.move_member_before(2, 99);
    h.ensure_display_order();
    assert_eq!(h.display_order(), &[10, 3, 11, 1, 2]);
    let mut flat: Hierarchy<Whole> = Hierarchy::new("Flat");
    flat.register_leaf_alias("a", 1);
    flat.register_leaf_alias("b", 2);
    flat.register_leaf_alias("c", 3);
    flat.move_member_before(3, 1);
    flat.ensure_display_order();
    assert_eq!(flat.display_order(), &[3, 1, 2]);
    flat.move_member_to_front(2);
    flat.ensure_display_order();
    assert_eq!(flat.display_order(), &[2, 3, 1]);
}

#[test]
fn weights_multiply_on_the_way_down() {
    let h = tree();
    let leaves = bank(&[(1, "France"), (2, "Spain"), (3, "Peru")]);
    let below = h.get_leaf_descendants(10, &leaves);
    assert_eq!(
        below.into_iter().collect::<Vec<_>>(),
        vec![(1, Whole(3)), (2, Whole(6)), (3, Whole(-1))]
    );
    let itself = h.get_leaf_descendants(2, &leaves);
    assert_eq!(itself.into_iter().collect::<Vec<_>>(), vec![(2, Whole(1))]);
    assert!(h.get_leaf_descendants(77, &leaves).is_empty());
}

#[test]
fn weights_add_to_what_is_there() {
    let h = tree();
    let leaves = bank(&[(1, "France"), (2, "Spain"), (3, "Peru")]);
    let mut sums = BTreeMap::new();
    h.resolve_leaf_descendants(11, &leaves, &mut sums);
    h.resolve_leaf_descendants(11, &leaves, &mut sums);
    assert_eq!(sums.into_iter().collect::<Vec<_>>(), vec![(1, Whole(2)), (2, Whole(4))]);
}

#[test]
fn a_circle_has_an_end_but_for_drawing() {
    let mut h: Hierarchy<Whole> = Hierarchy::new("Ring");
    h.register_aggregate("a", 1);
    h.register_aggregate("b", 2);
    h.link(1, 2, Whole(1));
    h.link(2, 1, Whole(1));
    assert!(!h.is_tree_below(1));
    assert!(h.is_tree_below(5));
    assert!(h.get_leaf_descendants(1, &bank(&[])).is_empty());
    h.move_member_to_front(9);
    h.ensure_display_order();
    assert_eq!(h.display_order(), &[9]);
}

#[test]
fn a_tree_is_drawn_with_its_weights() {
    let h = tree();
    let mut dim: Dimension<Whole> = Dimension::new("Geo");
    dim.add_leaf("France");
    dim.add_leaf("Spain");
    dim.add_leaf("Peru");
    assert!(h.is_tree_below(11));
    let mut out = String::new();
    h.print_tree(11, &dim, 1, Whole(1), &mut out);
    assert_eq!(
        out,
        "  └─ Unknown (Parent)\n    └─ France (Leaf)\n    └─ Spain (Leaf) [w: 2]\n"
    );
}
