use olap_engine::cube::node::CellValue;
use olap_engine::number::Whole;
use olap_engine::storage::sparse_store::SparseStore;
use std::collections::BTreeMap;

fn only(ids: &[u32]) -> Option<BTreeMap<u32, ()>> {
    Some(ids.iter().map(|id| (*id, ())).collect())
}

#[test]
fn a_stored_value_is_found_at_its_coordinates_only() {
    let mut store: SparseStore<u64> = SparseStore::new(2);
    store.write(&[1, 2], 10);
    store.write(&[1, 3], 20);
    assert_eq!(store.dim_count(), 2);
    assert_eq!(store.query_exact(&[1, 2]), Some(&10));
    assert_eq!(store.query_exact(&[1, 3]), Some(&20));
    assert_eq!(store.query_exact(&[1]), None);
    assert_eq!(store.query_exact(&[2, 1]), None);
    store.write(&[1, 2], 11);
    assert_eq!(store.query_exact(&[1, 2]), Some(&11));
    assert_eq!(store.query_exact(&[1, 3]), Some(&20));
}

#[test]
fn a_scan_lists_what_the_filters_let_through_in_order() {
    let mut store: SparseStore<u64> = SparseStore::new(2);
    store.write(&[7, 1], 71);
    store.write(&[2, 9], 29);
    store.write(&[2, 1], 21);
    store.write(&[5, 1], 51);
    let all = vec![None::<BTreeMap<u32, ()>>, None];
    assert_eq!(
        store.scan_subcube(&all),
        vec![(vec![2, 1], &21), (vec![2, 9], &29), (vec![5, 1], &51), (vec![7, 1], &71)]
    );
    assert_eq!(
        store.scan_subcube(&vec![only(&[7, 2, 4]), only(&[1])]),
        vec![(vec![2, 1], &21), (vec![7, 1], &71)]
    );
    assert_eq!(store.scan_subcube(&vec![None::<BTreeMap<u32, ()>>]), vec![]);
}

#[test]
fn removing_an_id_removes_its_cells_at_one_place() {
    let mut store: SparseStore<u64> = SparseStore::new(2);
    store.write(&[1, 2], 12);
    store.write(&[2, 1], 21);
    store.write(&[2, 2], 22);
    store.remove_cells_with_id_at(1, 2);
    assert_eq!(store.all_cells(), vec![(vec![2, 1], &21)]);
    store.remove_cells_with_id_at(0, 1);
    assert_eq!(store.all_cells(), vec![(vec![2, 1], &21)]);
    store.remove_cells_with_id_at(0, 2);
    assert_eq!(store.all_cells(), vec![]);
}

#[test]
fn a_store_of_cells_is_shown_by_coordinates() {
    let mut store: SparseStore<CellValue<Whole>> = SparseStore::new(2);
    let mut out = String::new();
    store.print_tree(&mut out);
    assert_eq!(out, "    (Trie is empty)\n");
    store.write(&[2, 1], CellValue::Numeric(Whole(-4)));
    store.write(&[1, 30], CellValue::String("red".to_string()));
    let mut out = String::new();
    store.print_tree(&mut out);
    assert_eq!(
        out,
        "    Coords: [1, 30] -> Value: red\n    Coords: [2, 1] -> Value: -4\n"
    );
}
