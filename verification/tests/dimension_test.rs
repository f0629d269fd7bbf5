use olap_engine::dimension::dimension::{Dimension, MemberType};
use olap_engine::number::Whole;

fn geography() -> Dimension<Whole> {
    let mut dim = Dimension::new("Geography");
    dim.add_component("Europe", "France", Whole(1));
    dim.add_component("Europe", "Germany", Whole(1));
    dim
}

fn below(dim: &Dimension<Whole>, hierarchy: Option<&str>, member: &str) -> Vec<(String, i64)> {
    dim.get_leaf_descendants_in(hierarchy, member)
        .into_iter()
        .map(|(id, weight)| (dim.get_name(id), weight.0))
        .collect()
}

#[test]
fn a_dimension_is_born_with_a_hierarchy_of_its_name() {
    let dim: Dimension<Whole> = Dimension::new("Geography");
    assert_eq!(dim.default_hierarchy_name(), "Geography");
    assert!(dim.has_hierarchy("GEOGRAPHY"));
    assert!(!dim.has_hierarchy("Ops"));
    assert_eq!(dim.hierarchy("geography").unwrap().name, "Geography");
    assert_eq!(dim.resolve_hierarchy(None).unwrap().name, "Geography");
    assert!(dim.resolve_hierarchy(Some("Ops")).is_none());
    assert_eq!(dim.hierarchy_names(), vec!["Geography"]);
    assert!(dim.is_empty());
    assert_eq!(dim.len(), 0);
    assert_eq!(dim.get_default_member_name(), None);
}

#[test]
fn leaves_belong_to_every_hierarchy() {
    let mut dim = geography();
    assert_eq!(dim.create_hierarchy("Ops"), Ok(()));
    assert_eq!(dim.hierarchy_names(), vec!["Geography", "Ops"]);
    let france = dim.get_id("france").unwrap();
    assert_eq!(dim.get_id_in(Some("ops"), "FRANCE"), Some(france));
    let spain = dim.add_leaf("Spain");
    assert_eq!(dim.get_id_in(None, "Spain"), Some(spain));
    assert_eq!(dim.get_id_in(Some("Ops"), "Spain"), Some(spain));
    assert_eq!(dim.add_leaf("SPAIN"), spain);
    assert_eq!(dim.get_name(spain), "Spain");
    assert_eq!(dim.get_id_in(Some("Ops"), "Europe"), None);
    assert_eq!(dim.get_id_in(Some("Nowhere"), "Spain"), None);
    assert_eq!(
        dim.create_hierarchy("OPS"),
        Err("Hierarchy 'OPS' already exists in dimension 'Geography'.".to_string())
    );
}

#[test]
fn aggregates_of_two_hierarchies_are_distinct() {
    let mut dim = geography();
    dim.create_hierarchy("Ops").unwrap();
    let all = dim.add_consolidated_in(None, "All").unwrap();
    let other = dim.add_consolidated_in(Some("Ops"), "All").unwrap();
    assert_ne!(all, other);
    assert_eq!(dim.get_id_in(None, "all"), Some(all));
    assert_eq!(dim.get_id_in(Some("Ops"), "all"), Some(other));
    assert_eq!(dim.get_id("all"), Some(all));
    assert_eq!(dim.add_consolidated("ALL"), all);
    assert_eq!(
        dim.add_consolidated_in(Some("None"), "All"),
        Err("Hierarchy 'None' does not exist in dimension 'Geography'.".to_string())
    );
}

#[test]
fn the_same_leaves_add_up_differently() {
    let mut dim = geography();
    dim.create_hierarchy("Ops").unwrap();
    dim.add_component_in(Some("Ops"), "North", "Germany", Whole(2)).unwrap();
    dim.add_component_in(Some("Ops"), "All", "North", Whole(3)).unwrap();
    assert_eq!(below(&dim, Some("Ops"), "All"), vec![("Germany".to_string(), 6)]);
    assert_eq!(
        below(&dim, None, "Europe"),
        vec![("France".to_string(), 1), ("Germany".to_string(), 1)]
    );
    assert_eq!(below(&dim, None, "North"), vec![]);
    assert_eq!(below(&dim, Some("None"), "Europe"), vec![]);
    assert_eq!(below(&dim, None, "France"), vec![("France".to_string(), 1)]);
    assert_eq!(dim.get_leaf_descendants("europe").len(), 2);
}

#[test]
fn a_leaf_is_promoted_under_its_id() {
    let mut dim = geography();
    dim.create_hierarchy("Ops").unwrap();
    let france = dim.get_id("France").unwrap();
    assert_eq!(dim.member_type(france), Some(MemberType::Leaf));
    assert_eq!(dim.leaf_count(), 2);
    assert_eq!(dim.add_component("france", "Paris", Whole(1)), None);
    assert_eq!(dim.get_id_in(None, "France"), Some(france));
    assert_eq!(dim.member_type(france), Some(MemberType::Consolidated));
    assert_eq!(dim.get_name(france), "France");
    assert!(dim.is_consolidated("FRANCE"));
    assert_eq!(dim.get_id_in(Some("Ops"), "France"), None);
    assert_eq!(dim.leaf_count(), 2);
    assert_eq!(
        below(&dim, None, "Europe"),
        vec![("Germany".to_string(), 1), ("Paris".to_string(), 1)]
    );
}

#[test]
fn a_name_is_never_a_leaf_and_an_aggregate() {
    let mut dim: Dimension<Whole> = Dimension::new("Geo");
    assert_eq!(dim.add_consolidated("Europe"), 1);
    assert_eq!(dim.add_leaf("Europe"), 1);
    assert_eq!(dim.leaf_count(), 0);
    assert_eq!(dim.get_id("Europe"), Some(1));
    assert_eq!(dim.get_id_in(None, "Europe"), Some(1));
}

#[test]
fn a_parent_keeps_its_id_when_a_child_comes_back() {
    let mut dim: Dimension<Whole> = Dimension::new("Geo");
    assert_eq!(dim.add_component_in(None, "Europe", "France", Whole(1)), Ok(None));
    assert_eq!(dim.get_id("Europe"), Some(1));
    assert_eq!(dim.remove_component_in(None, "Europe", "France"), Ok(()));
    assert_eq!(dim.get_id("Europe"), Some(1));
    assert_eq!(dim.add_component_in(None, "Europe", "France", Whole(1)), Ok(None));
    assert_eq!(dim.get_id("Europe"), Some(1));
}

#[test]
fn an_aggregate_is_deleted_from_every_hierarchy() {
    let mut dim: Dimension<Whole> = Dimension::new("G");
    assert_eq!(dim.create_hierarchy("H"), Ok(()));
    assert_eq!(dim.add_consolidated_in(None, "All"), Ok(1));
    assert_eq!(dim.add_consolidated_in(Some("H"), "All"), Ok(2));
    assert_eq!(dim.delete_member("All"), Ok(1));
    assert_eq!(dim.get_id("All"), None);
    assert_eq!(dim.get_id_in(Some("H"), "All"), None);
}

#[test]
fn a_child_moves_to_its_new_parent() {
    let mut dim = geography();
    assert_eq!(dim.add_component("West", "France", Whole(1)), Some("Europe".to_string()));
    assert_eq!(dim.add_component("West", "Germany", Whole(1)), Some("Europe".to_string()));
    let europe = dim.get_id("Europe").unwrap();
    assert_eq!(dim.member_type(europe), Some(MemberType::Leaf));
    assert!(!dim.is_consolidated("Europe"));
    assert!(dim.is_consolidated_in(Some("Geography"), "West"));
    assert!(!dim.is_consolidated_in(Some("Ops"), "West"));
    assert_eq!(
        dim.add_component_in(Some("Ops"), "West", "Spain", Whole(1)),
        Err("Hierarchy 'Ops' does not exist in dimension 'Geography'.".to_string())
    );
}

#[test]
fn taking_a_child_away_undoes_putting_it_there() {
    let mut dim = geography();
    dim.add_leaf("Spain");
    let before = below(&dim, None, "Europe");
    dim.add_component("Europe", "Spain", Whole(4));
    assert_eq!(dim.remove_component("Europe", "Spain"), Ok(()));
    assert_eq!(below(&dim, None, "Europe"), before);
    assert_eq!(dim.hierarchy("Geography").unwrap().parent_of(dim.get_id("Spain").unwrap()), None);
}

#[test]
fn what_cannot_be_taken_away_is_refused() {
    let mut dim = geography();
    dim.add_leaf("Spain");
    assert_eq!(
        dim.remove_component_in(Some("Ops"), "Europe", "France"),
        Err("Hierarchy 'Ops' does not exist in dimension 'Geography'.".to_string())
    );
    assert_eq!(
        dim.remove_component("Asia", "France"),
        Err("Member 'Asia' does not exist in dimension 'Geography'.".to_string())
    );
    assert_eq!(
        dim.remove_component("Europe", "Chile"),
        Err("Member 'Chile' does not exist in dimension 'Geography'.".to_string())
    );
    assert_eq!(
        dim.remove_component("France", "Germany"),
        Err("Member 'France' is not a parent in dimension 'Geography'.".to_string())
    );
    assert_eq!(
        dim.remove_component("Europe", "Spain"),
        Err("'Spain' is not a child of 'Europe'.".to_string())
    );
    dim.add_consolidated("Empty");
    assert_eq!(
        dim.remove_component("Empty", "Spain"),
        Err("Member 'Empty' has no children.".to_string())
    );
}

#[test]
fn deleting_a_leaf_removes_it_everywhere() {
    let mut dim = geography();
    dim.create_hierarchy("Ops").unwrap();
    let france = dim.get_id("France").unwrap();
    assert_eq!(dim.get_default_member_name(), Some("France".to_string()));
    assert_eq!(dim.delete_member("FRANCE"), Ok(france));
    assert_eq!(dim.get_id("France"), None);
    assert_eq!(dim.get_id_in(Some("Ops"), "France"), None);
    assert_eq!(dim.get_default_member_name(), Some("Germany".to_string()));
    assert_eq!(below(&dim, None, "Europe"), vec![("Germany".to_string(), 1)]);
    assert_eq!(dim.member_type(france), None);
    assert_eq!(dim.get_name(france), "Unknown");
    assert_eq!(
        dim.delete_member("France"),
        Err("Member 'France' does not exist in dimension 'Geography'.".to_string())
    );
}

#[test]
fn deleting_an_aggregate_leaves_its_children() {
    let mut dim = geography();
    dim.add_component("World", "Europe", Whole(1));
    let europe = dim.get_id("Europe").unwrap();
    assert_eq!(dim.delete_member("Europe"), Ok(europe));
    assert_eq!(dim.get_id("Europe"), None);
    assert!(dim.get_id("France").is_some());
    assert!(!dim.is_consolidated("World"));
    assert_eq!(dim.member_order_names(), vec!["World", "France", "Germany"]);
}

#[test]
fn ids_are_never_used_again() {
    let mut dim = geography();
    let old = dim.delete_member("Germany").unwrap();
    let new = dim.add_leaf("Germany");
    assert!(new > old);
}

#[test]
fn members_are_shown_in_the_authored_order() {
    let mut dim = geography();
    dim.add_leaf("Peru");
    assert_eq!(dim.member_order_names(), vec!["Europe", "France", "Germany", "Peru"]);
    assert_eq!(dim.move_member_before("Germany", "France"), Ok(()));
    assert_eq!(dim.move_member_to_front("peru"), Ok(()));
    assert_eq!(dim.member_order_names(), vec!["Peru", "Europe", "Germany", "France"]);
    let germany = dim.get_id("Germany").unwrap();
    assert_eq!(dim.display_order_rank(germany), 2);
    assert_eq!(dim.display_order_rank_in(Some("Geography"), germany), 2);
    assert_eq!(dim.display_order_rank_in(Some("Ops"), germany), usize::MAX);
    assert_eq!(
        dim.move_member_before("Peru", "France"),
        Err(
            "'Peru' and 'France' are not siblings in hierarchy 'Geography', so they cannot be \
             reordered relative to each other. (Re-parenting is a separate operation.)"
                .to_string()
        )
    );
    assert_eq!(
        dim.move_member_before_in(Some("Ops"), "Peru", "France"),
        Err("Hierarchy not found in dimension 'Geography'.".to_string())
    );
    assert_eq!(
        dim.move_member_before("Chile", "France"),
        Err("Member 'Chile' does not exist in dimension 'Geography'.".to_string())
    );
    assert_eq!(
        dim.move_member_before("Peru", "Chile"),
        Err("Member 'Chile' does not exist in dimension 'Geography'.".to_string())
    );
    assert_eq!(
        dim.move_member_to_front("Chile"),
        Err("Member 'Chile' does not exist in dimension 'Geography'.".to_string())
    );
    assert_eq!(
        dim.move_member_to_front_in(Some("Ops"), "Peru"),
        Err("Hierarchy not found in dimension 'Geography'.".to_string())
    );
    assert_eq!(dim.member_order_names_in(Some("Ops")), Vec::<String>::new());
}

#[test]
fn a_promoted_child_is_shown_below_its_parent_alone() {
    let mut dim: Dimension<Whole> = Dimension::new("Geo");
    dim.add_component("All", "Europe", Whole(1));
    dim.add_component("Europe", "France", Whole(1));
    assert_eq!(dim.member_order_names(), vec!["All", "Europe", "France"]);
    assert_eq!(dim.member_order_names_in(None), vec!["All", "Europe", "France"]);
}

#[test]
fn the_default_member_can_be_set() {
    let mut dim = geography();
    assert_eq!(dim.set_default_member("Europe"), Ok(()));
    assert_eq!(dim.get_default_member_name(), Some("Europe".to_string()));
    assert_eq!(
        dim.set_default_member("Chile"),
        Err("Member 'Chile' does not exist in dimension 'Geography'".to_string())
    );
    assert_eq!(dim.len(), 3);
    assert!(!dim.is_empty());
}

#[test]
fn members_are_looked_up_in_the_order_of_the_hierarchies() {
    let mut dim: Dimension<Whole> = Dimension::new("Geo");
    dim.create_hierarchy("Zeta").unwrap();
    dim.create_hierarchy("Alpha").unwrap();
    let zeta = dim.add_consolidated_in(Some("Zeta"), "All").unwrap();
    let alpha = dim.add_consolidated_in(Some("Alpha"), "All").unwrap();
    assert_eq!(dim.get_id("All"), Some(alpha));
    assert_eq!(dim.get_name(zeta), "All");
    assert_eq!(dim.resolve_hierarchy_mut(Some("zeta")).unwrap().get_id("All"), Some(zeta));
    assert!(dim.resolve_hierarchy_mut(None).unwrap().is_empty());
    assert!(dim.hierarchy_mut("beta").is_none());
}

#[test]
fn a_tree_is_drawn_below_a_member() {
    let mut dim = geography();
    dim.add_component("World", "Europe", Whole(-1));
    let mut out = String::new();
    assert!(dim.is_tree_below(None, "World"));
    dim.print_tree("world", 0, Whole(1), &mut out);
    assert_eq!(
        out,
        "└─ World (Parent)\n  └─ Europe (Parent) [w: -1]\n    └─ France (Leaf)\n    └─ Germany (Leaf)\n"
    );
    let mut out = String::new();
    dim.print_tree("Chile", 0, Whole(1), &mut out);
    dim.print_tree_in(Some("Ops"), "Chile", 0, Whole(1), &mut out);
    assert_eq!(out, "└─ Chile (Not Found)\n└─ Chile (Hierarchy Not Found)\n");
}

#[test]
fn every_member_is_shown_once_behind_its_parent() {
    let mut dim: Dimension<Whole> = Dimension::new("Geo");
    dim.add_component("Europe", "France", Whole(1));
    dim.add_component("Europe", "Spain", Whole(1));
    dim.add_component("World", "Europe", Whole(1));
    dim.add_leaf("Peru");
    assert_eq!(
        dim.member_order_names(),
        vec!["World", "Europe", "France", "Spain", "Peru"]
    );
    dim.add_component("South", "Spain", Whole(1));
    dim.add_consolidated("Europe");
    assert_eq!(
        dim.member_order_names(),
        vec!["World", "Europe", "France", "Peru", "South", "Spain"]
    );
    dim.remove_component("World", "Europe").unwrap();
    dim.move_member_to_front("South").unwrap();
    assert_eq!(
        dim.member_order_names(),
        vec!["South", "Spain", "World", "Peru", "Europe", "France"]
    );
    dim.delete_member("Europe").unwrap();
    assert_eq!(dim.member_order_names(), vec!["South", "Spain", "World", "Peru", "France"]);
}

#[test]
fn the_name_of_an_aggregate_of_another_hierarchy_is_a_leaf_below_a_parent() {
    let mut dim: Dimension<Whole> = Dimension::new("Geo");
    dim.create_hierarchy("Ops").unwrap();
    let aggregate = dim.add_consolidated_in(Some("Ops"), "WH").unwrap();
    assert_eq!(dim.add_component_in(None, "Europe", "WH", Whole(1)), Ok(None));
    assert_eq!(dim.leaf_count(), 1);
    let leaf = dim.get_id_in(None, "WH").unwrap();
    assert_ne!(leaf, aggregate);
    assert_eq!(dim.get_leaf_descendants("Europe").get(&leaf), Some(&Whole(1)));
    assert_eq!(dim.add_consolidated_in(Some("Ops"), "WH"), Ok(aggregate));
    assert_eq!(dim.leaf_count(), 1);
    assert_eq!(dim.add_consolidated_in(None, "WH"), Ok(leaf));
    assert_eq!(dim.leaf_count(), 0);
}

#[test]
fn a_member_is_deleted_as_a_leaf_and_as_an_aggregate() {
    let mut dim: Dimension<Whole> = Dimension::new("Geo");
    dim.create_hierarchy("Ops").unwrap();
    let aggregate = dim.add_consolidated_in(Some("Ops"), "WH").unwrap();
    let leaf = dim.add_leaf("WH");
    assert_eq!(dim.remove_member("wh"), Ok(vec![leaf, aggregate]));
    assert_eq!(dim.get_id("WH"), None);
    assert_eq!(dim.get_id_in(Some("Ops"), "WH"), None);
    assert_eq!(dim.leaf_count(), 0);
}

#[test]
fn a_child_is_detached_exactly_where_it_is() {
    let mut dim: Dimension<Whole> = Dimension::new("Geo");
    dim.add_component("World", "Europe", Whole(1));
    dim.add_component("Europe", "France", Whole(1));
    dim.add_component("Asia", "Japan", Whole(1));
    dim.add_component("World", "Asia", Whole(1));
    assert!(dim.remove_component("World", "France").is_err());
    assert!(dim.remove_component("Asia", "France").is_err());
    assert_eq!(dim.remove_component("World", "Europe"), Ok(()));
    assert!(dim.remove_component("World", "Europe").is_err());
    assert_eq!(dim.remove_component("Europe", "France"), Ok(()));
    dim.delete_member("World").unwrap();
    assert_eq!(dim.remove_component("Asia", "Japan"), Ok(()));
}
