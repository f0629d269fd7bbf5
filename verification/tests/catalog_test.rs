use olap_engine::catalog::catalog::Catalog;
use olap_engine::catalog::persist::{
    frame, temp_file_name, unframe, PersistError, FORMAT_VERSION,
};
use olap_engine::cube::cube::Cube;
use olap_engine::cube::node::CellValue;
use olap_engine::dimension::dimension::Dimension;
use olap_engine::number::Whole;

fn write(catalog: &mut Catalog<Whole>, cube: &str, members: &[&str], value: i64) {
    let i = catalog.find_cube(cube).unwrap();
    catalog.cubes[i].1.write(
        &mut catalog.dimensions,
        members,
        CellValue::Numeric(Whole(value)),
    );
}

fn read(catalog: &Catalog<Whole>, cube: &str, members: &[&str]) -> Option<i64> {
    match catalog.get_cube(cube).unwrap().read_cell(&catalog.dimensions, members) {
        Some(CellValue::Numeric(n)) => Some(n.0),
        _ => None,
    }
}

#[test]
fn a_dimension_is_made_once() {
    let mut catalog: Catalog<Whole> = Catalog::new();
    let geo = catalog.get_or_create_dimension("Geo");
    assert_eq!(catalog.get_or_create_dimension("Geo"), geo);
    assert_eq!(catalog.get_dimension("GEO"), Some(geo));
    assert_eq!(catalog.get_dimension("Time"), None);
    let other = catalog.get_or_create_dimension("geo");
    assert_ne!(other, geo);
    assert_eq!(catalog.get_dimension("geo"), Some(other));
    assert_eq!(catalog.get_dimension("Geo"), Some(geo));
}

#[test]
fn hierarchy_names_are_unique_in_the_database() {
    let mut catalog: Catalog<Whole> = Catalog::new();
    assert_eq!(catalog.create_hierarchy("Geo", "Ops"), Ok("Geo".to_string()));
    assert_eq!(
        catalog.create_hierarchy("Time", "OPS"),
        Err(
            "Hierarchy 'OPS' already exists in dimension 'Geo'; hierarchy names must be unique \
             across the database."
                .to_string()
        )
    );
    assert_eq!(
        catalog.create_hierarchy("Geo", "ops"),
        Err("Hierarchy 'ops' already exists in dimension 'Geo'.".to_string())
    );
    assert!(catalog.create_hierarchy("geo", "Ops").is_err());
    assert_eq!(
        catalog.create_hierarchy("Geo", "Time"),
        Err(
            "Hierarchy 'Time' already exists in dimension 'Time'; hierarchy names must be unique \
             across the database."
                .to_string()
        )
    );
    assert_eq!(catalog.find_hierarchy_owner("ops"), Some("Geo".to_string()));
    assert_eq!(catalog.find_hierarchy_owner("none"), None);
    let geo = catalog.get_dimension("Geo").unwrap();
    assert_eq!(catalog.resolve_hierarchy("OPS"), Some((geo, "Ops".to_string())));
    assert_eq!(catalog.resolve_hierarchy("none"), None);
}

#[test]
fn a_reference_means_a_hierarchy_or_a_dimension() {
    let mut catalog: Catalog<Whole> = Catalog::new();
    catalog.create_hierarchy("Geo", "Ops").unwrap();
    let geo = catalog.get_dimension("Geo").unwrap();
    assert_eq!(catalog.resolve_reference("ops"), (geo, "Ops".to_string(), false));
    assert_eq!(catalog.resolve_reference("geo"), (geo, "Geo".to_string(), false));
    assert_eq!(catalog.resolve_reference("Time"), (1, "Time".to_string(), true));
    assert_eq!(catalog.resolve_reference("Time"), (1, "Time".to_string(), false));
    assert_eq!(
        catalog.dimension_of_reference("OPS"),
        Some(("Geo".to_string(), Some("Ops".to_string())))
    );
    assert_eq!(catalog.dimension_of_reference("GEO"), Some(("Geo".to_string(), None)));
    assert_eq!(catalog.dimension_of_reference("none"), None);
}

#[test]
fn cubes_go_by_their_names_in_any_case() {
    let mut catalog: Catalog<Whole> = Catalog::new();
    catalog.add_cube("Sales", &["Geo", "Time"], None, true);
    assert_eq!(catalog.get_cube("SALES").unwrap().name, "Sales");
    assert_eq!(catalog.get_cube("sales").unwrap().dimension_names, vec!["Geo", "Time"]);
    assert!(catalog.get_cube("Plan").is_none());
    assert!(catalog.find_cube("Plan").is_none());
    catalog.get_cube_mut("sAles").unwrap().is_aggregating = false;
    assert!(!catalog.get_cube("Sales").unwrap().is_aggregating);
    assert!(catalog.get_cube_mut("Plan").is_none());
}

#[test]
fn deleting_a_member_purges_every_cube_that_has_it() {
    let mut catalog: Catalog<Whole> = Catalog::new();
    catalog.add_cube("Sales", &["Geo", "Time"], None, true);
    catalog.add_cube("Rates", &["Time"], None, true);
    catalog.add_cube("Routes", &["Geo", "Geo"], None, true);
    write(&mut catalog, "Sales", &["France", "Jan"], 1);
    write(&mut catalog, "Sales", &["Spain", "Jan"], 2);
    write(&mut catalog, "Rates", &["Jan"], 3);
    write(&mut catalog, "Routes", &["France", "Spain"], 4);
    write(&mut catalog, "Routes", &["Spain", "France"], 5);
    write(&mut catalog, "Routes", &["Spain", "Spain"], 6);
    assert_eq!(
        catalog.delete_member("geo", "FRANCE"),
        Ok(
            "Deleted member 'FRANCE' from dimension 'Geo' (data purged from 2 cube(s)).".to_string()
        )
    );
    let left: Vec<usize> = ["Sales", "Rates", "Routes"]
        .iter()
        .map(|name| catalog.get_cube(name).unwrap().store.all_cells().len())
        .collect();
    assert_eq!(left, vec![1, 1, 1]);
    assert_eq!(read(&catalog, "Sales", &["Spain", "Jan"]), Some(2));
    assert_eq!(read(&catalog, "Rates", &["Jan"]), Some(3));
    assert_eq!(read(&catalog, "Routes", &["Spain", "Spain"]), Some(6));
    assert_eq!(
        catalog.delete_member("Place", "Spain"),
        Err("Dimension 'Place' not found.".to_string())
    );
    assert_eq!(
        catalog.delete_member("Geo", "France"),
        Err("Member 'France' does not exist in dimension 'Geo'.".to_string())
    );
}

#[test]
fn answers_are_kept_until_they_are_cleared() {
    let mut catalog: Catalog<Whole> = Catalog::new();
    catalog.add_cube("Sales", &["Geo"], None, true);
    write(&mut catalog, "Sales", &["France"], 1);
    let i = catalog.find_cube("Sales").unwrap();
    catalog.cubes[i].1.query_consolidated(&catalog.dimensions, &["France"]);
    assert_eq!(catalog.cubes[i].1.query_cache.all_cells().len(), 1);
    catalog.clear_all_caches();
    assert_eq!(catalog.cubes[i].1.query_cache.all_cells().len(), 0);
}

#[test]
fn a_restored_database_reads_the_same_cells() {
    let mut catalog: Catalog<Whole> = Catalog::new();
    catalog.add_cube("Sales", &["Geo", "Time"], Some("Time"), true);
    write(&mut catalog, "Sales", &["France", "Jan"], 1);
    write(&mut catalog, "Sales", &["Spain", "Feb"], 2);
    let geo = catalog.get_dimension("Geo").unwrap();
    catalog.dimensions[geo].add_component("Europe", "Spain", Whole(1));
    let Catalog { dimensions, cubes } = catalog;
    let mut again = Catalog::restore(dimensions, cubes);
    assert_eq!(read(&again, "Sales", &["France", "Jan"]), Some(1));
    assert_eq!(read(&again, "Sales", &["Spain", "Feb"]), Some(2));
    let i = again.find_cube("Sales").unwrap();
    assert_eq!(
        again.cubes[i].1.query_consolidated(&again.dimensions, &["Europe", "Feb"]),
        Whole(2)
    );
    assert_eq!(again.dimensions[geo].hierarchy("geo").unwrap().display_order().len(), 3);
}

#[test]
fn a_cube_without_its_dimensions_gets_new_ones() {
    let cube: Cube<Whole> = Cube::new(
        "Lost",
        vec!["Geo".to_string(), "Time".to_string()],
        vec![],
        None,
        true,
    );
    let catalog = Catalog::restore(
        vec![Dimension::new("Time")],
        vec![("lost".to_string(), cube)],
    );
    assert_eq!(catalog.get_cube("Lost").unwrap().dimensions, vec![1, 0]);
    assert_eq!(catalog.dimensions[1].name, "Geo");
}

#[test]
fn a_saved_database_is_loaded_without_its_answers() {
    let mut catalog: Catalog<Whole> = Catalog::new();
    catalog.add_cube("Sales", &["Geo", "Time"], None, true);
    write(&mut catalog, "Sales", &["France", "Jan"], 1);
    let i = catalog.find_cube("Sales").unwrap();
    catalog.cubes[i].1.query_consolidated(&catalog.dimensions, &["France", "Jan"]);
    let Catalog { dimensions, cubes } = catalog;
    let stored = cubes
        .into_iter()
        .map(|(key, mut cube)| {
            cube.clear_cache();
            cube.attach_dimensions(vec![]);
            (key, cube)
        })
        .collect();
    let again = Catalog::restore(dimensions, stored);
    assert_eq!(again.cubes[i].1.dimensions, vec![0, 1]);
    assert_eq!(again.cubes[i].1.query_cache.all_cells().len(), 0);
    assert_eq!(read(&again, "Sales", &["France", "Jan"]), Some(1));
}

#[test]
fn a_dimension_may_have_the_name_of_no_hierarchy() {
    let mut catalog: Catalog<Whole> = Catalog::new();
    catalog.get_or_create_dimension("Geo");
    catalog.get_or_create_dimension("Time");
    assert!(catalog.create_hierarchy("Geo", "Time").is_err());
    assert_eq!(catalog.create_hierarchy("Geo", "Ops"), Ok("Geo".to_string()));
    catalog.get_or_create_dimension("Product");
    let owners: Vec<usize> = ["Geo", "Time", "Ops", "Product"]
        .iter()
        .map(|h| catalog.dimensions.iter().filter(|d| d.has_hierarchy(h)).count())
        .collect();
    assert_eq!(owners, vec![1, 1, 1, 1]);
}

#[test]
fn a_frame_comes_off_as_it_was_put_on() {
    let bytes = frame(&[7, 8, 9]);
    assert_eq!(bytes, vec![b'O', b'L', b'A', b'P', 1, 0, 0, 0, 7, 8, 9]);
    assert_eq!(unframe(&bytes).unwrap(), vec![7, 8, 9]);
    assert_eq!(unframe(&frame(&[])).unwrap(), Vec::<u8>::new());
    assert_eq!(FORMAT_VERSION, 1);
}

#[test]
fn a_foreign_or_newer_file_is_refused() {
    match unframe(b"OLAP\x01\x00\x00") {
        Err(PersistError::NotACatalog) => {}
        _ => panic!("too short"),
    }
    match unframe(b"OLAQ\x01\x00\x00\x00data") {
        Err(e) => assert_eq!(e.shown(), "File is not an OLAP catalog."),
        _ => panic!("foreign"),
    }
    match unframe(b"OLAP\x02\x01\x00\x00data") {
        Err(PersistError::UnsupportedVersion { found, supported }) => {
            assert_eq!((found, supported), (258, 1));
        }
        _ => panic!("newer"),
    }
    assert_eq!(unframe(b"OLAP\x00\x00\x00\x00x").unwrap(), vec![b'x']);
}

#[test]
fn failures_are_told_in_words() {
    assert_eq!(PersistError::Io("gone".to_string()).shown(), "I/O error: gone");
    assert_eq!(
        PersistError::Encode("odd".to_string()).shown(),
        "Could not encode catalog: odd"
    );
    assert_eq!(
        PersistError::Decode("short".to_string()).shown(),
        "Could not decode catalog: short"
    );
    assert_eq!(
        PersistError::UnsupportedVersion { found: 12, supported: 1 }.shown(),
        "Catalog format v12 is newer than this binary supports (v1). Upgrade to open it."
    );
}

#[test]
fn a_file_is_written_beside_the_one_it_replaces() {
    assert_eq!(temp_file_name("database.bin", 42, 7), ".database.bin.42.7.tmp");
}
