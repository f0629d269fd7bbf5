use olap_engine::catalog::catalog::Catalog;
use olap_engine::cube::cube::{split_qualified, SplashMode};
use olap_engine::cube::node::CellValue;
use olap_engine::cube::slice::SliceQuery;
use olap_engine::number::{Number, Whole};

/// Numbers in floating point.
#[derive(Clone, Copy, Debug, PartialEq)]
struct Real(f64);

impl Number for Real {
    fn zero() -> Self {
        Real(0.0)
    }

    fn one() -> Self {
        Real(1.0)
    }

    fn plus(self, other: Self) -> Self {
        Real(self.0 + other.0)
    }

    fn times(self, other: Self) -> Self {
        Real(self.0 * other.0)
    }

    fn over(self, other: Self) -> Self {
        Real(self.0 / other.0)
    }

    fn is_zero(self) -> bool {
        self.0 == 0.0
    }

    fn is_unit(self) -> bool {
        !((self.0 - 1.0).abs() > 0.001)
    }

    fn read(text: &str) -> Option<Self> {
        text.parse::<f64>().ok().map(Real)
    }

    fn shown(self) -> String {
        format!("{}", self.0)
    }
}

/// Sales by geography and product, with Europe over France and Germany.
fn sales() -> Catalog<Whole> {
    let mut catalog: Catalog<Whole> = Catalog::new();
    let geo = catalog.get_or_create_dimension("Geography");
    catalog.dimensions[geo].add_component("Europe", "France", Whole(1));
    catalog.dimensions[geo].add_component("Europe", "Germany", Whole(1));
    catalog.add_cube("Sales", &["Geography", "Product"], None, true);
    catalog
}

fn put<N: Number>(catalog: &mut Catalog<N>, cube: &str, members: &[&str], value: CellValue<N>) {
    let i = catalog.find_cube(cube).unwrap();
    catalog.cubes[i].1.write(&mut catalog.dimensions, members, value);
}

fn sum<N: Number>(catalog: &mut Catalog<N>, cube: &str, members: &[&str]) -> N {
    let i = catalog.find_cube(cube).unwrap();
    catalog.cubes[i].1.query_consolidated(&catalog.dimensions, members)
}

fn splash<N: Number>(
    catalog: &mut Catalog<N>,
    cube: &str,
    members: &[&str],
    value: N,
    mode: SplashMode,
) -> Result<usize, String> {
    let i = catalog.find_cube(cube).unwrap();
    catalog.cubes[i].1.write_splashed(&mut catalog.dimensions, members, value, mode)
}

fn number<N: Number>(catalog: &Catalog<N>, cube: &str, members: &[&str]) -> Option<N> {
    let cube = catalog.get_cube(cube).unwrap();
    match cube.read_cell(&catalog.dimensions, members) {
        Some(CellValue::Numeric(n)) => Some(*n),
        _ => None,
    }
}

#[test]
fn a_coordinate_may_name_its_hierarchy() {
    assert_eq!(split_qualified("ByMarket:All"), (Some("ByMarket".to_string()), "All".to_string()));
    assert_eq!(split_qualified("All"), (None, "All".to_string()));
    assert_eq!(split_qualified("France"), (None, "France".to_string()));
    assert_eq!(split_qualified(":All"), (None, ":All".to_string()));
    assert_eq!(split_qualified("All:"), (None, "All:".to_string()));
    assert_eq!(split_qualified("A:B:C"), (Some("A:B".to_string()), "C".to_string()));
}

#[test]
fn a_written_cell_is_read_back() {
    let mut catalog = sales();
    put(&mut catalog, "Sales", &["France", "Laptop"], CellValue::Numeric(Whole(5)));
    put(&mut catalog, "Sales", &["Spain", "Laptop"], CellValue::Numeric(Whole(6)));
    assert_eq!(number(&catalog, "sales", &["FRANCE", "laptop"]), Some(Whole(5)));
    assert_eq!(number(&catalog, "sales", &["Geography:Spain", "Laptop"]), Some(Whole(6)));
    put(&mut catalog, "Sales", &["France", "Laptop"], CellValue::Numeric(Whole(7)));
    assert_eq!(number(&catalog, "Sales", &["France", "Laptop"]), Some(Whole(7)));
    assert_eq!(number(&catalog, "Sales", &["Spain", "Laptop"]), Some(Whole(6)));
    assert_eq!(number(&catalog, "Sales", &["France"]), None);
    assert_eq!(number(&catalog, "Sales", &["France", "Phone"]), None);
    assert_eq!(number(&catalog, "Sales", &["Europe", "Laptop"]), None);
}

#[test]
fn a_cell_under_the_name_of_an_aggregate_is_no_part_of_its_sum() {
    let mut catalog = sales();
    put(&mut catalog, "Sales", &["Europe", "Laptop"], CellValue::Numeric(Whole(5)));
    assert_eq!(number(&catalog, "Sales", &["Europe", "Laptop"]), Some(Whole(5)));
    assert_eq!(sum(&mut catalog, "Sales", &["Europe", "Laptop"]), Whole(0));
}

/// A dimension with an aggregate in a hierarchy that is not its default.
fn warehouses() -> Catalog<Whole> {
    let mut catalog: Catalog<Whole> = Catalog::new();
    let geo = catalog.get_or_create_dimension("Geo");
    catalog.dimensions[geo].create_hierarchy("Ops").unwrap();
    catalog.dimensions[geo].add_component_in(Some("Ops"), "WH", "France", Whole(1)).unwrap();
    catalog.add_cube("S", &["Geo"], None, true);
    catalog
}

#[test]
fn a_cell_at_the_name_of_an_aggregate_of_another_hierarchy_is_a_leaf() {
    let mut catalog = warehouses();
    let before = catalog.dimensions[0].get_id("WH").unwrap();
    put(&mut catalog, "S", &["WH"], CellValue::Numeric(Whole(5)));
    put(&mut catalog, "S", &["France"], CellValue::Numeric(Whole(7)));
    assert_eq!(number(&catalog, "S", &["WH"]), Some(Whole(5)));
    assert_eq!(sum(&mut catalog, "S", &["WH"]), Whole(5));
    assert_eq!(sum(&mut catalog, "S", &["Ops:WH"]), Whole(7));
    let dim = &catalog.dimensions[0];
    assert_eq!(dim.leaf_count(), 2);
    let leaf = dim.get_id("WH").unwrap();
    assert_ne!(leaf, before);
    assert_eq!(dim.get_id_in(None, "WH"), Some(leaf));
    assert_eq!(dim.get_id_in(Some("Ops"), "WH"), Some(before));
    assert_eq!(dim.get_name(before), "WH");
}

#[test]
fn a_number_splashed_at_the_name_of_an_aggregate_of_another_hierarchy_is_one_cell() {
    let mut catalog = warehouses();
    assert_eq!(splash(&mut catalog, "S", &["WH"], Whole(5), SplashMode::Replace), Ok(1));
    assert_eq!(number(&catalog, "S", &["WH"]), Some(Whole(5)));
    assert_eq!(splash(&mut catalog, "S", &["Ops:WH"], Whole(9), SplashMode::Replace), Ok(1));
    assert_eq!(number(&catalog, "S", &["France"]), Some(Whole(9)));
    assert_eq!(number(&catalog, "S", &["WH"]), Some(Whole(5)));
}

#[test]
fn sums_follow_what_is_written() {
    let mut catalog = sales();
    put(&mut catalog, "Sales", &["France", "Laptop"], CellValue::Numeric(Whole(5)));
    assert_eq!(sum(&mut catalog, "Sales", &["Europe", "Laptop"]), Whole(5));
    assert_eq!(sum(&mut catalog, "Sales", &["Europe", "Laptop"]), Whole(5));
    put(&mut catalog, "Sales", &["Germany", "Laptop"], CellValue::Numeric(Whole(8)));
    assert_eq!(sum(&mut catalog, "Sales", &["Europe", "Laptop"]), Whole(13));
    put(&mut catalog, "Sales", &["Germany", "Laptop"], CellValue::String("n/a".to_string()));
    assert_eq!(sum(&mut catalog, "Sales", &["Europe", "Laptop"]), Whole(5));
    assert_eq!(sum(&mut catalog, "Sales", &["Asia", "Laptop"]), Whole(0));
    assert_eq!(sum(&mut catalog, "Sales", &["Nowhere:Europe", "Laptop"]), Whole(0));
    assert_eq!(sum(&mut catalog, "Sales", &["Europe", "Laptop"]), Whole(5));
}

#[test]
fn a_question_that_cannot_be_answered_changes_no_answer() {
    let mut catalog: Catalog<Whole> = Catalog::new();
    catalog.add_cube("S", &["Geo"], None, true);
    put(&mut catalog, "S", &["France"], CellValue::Numeric(Whole(100)));
    assert_eq!(sum(&mut catalog, "S", &["Nope:France"]), Whole(0));
    assert_eq!(sum(&mut catalog, "S", &["France"]), Whole(100));
}

#[test]
fn an_answer_for_another_hierarchy_follows_what_is_written() {
    let mut catalog = sales();
    let geo = catalog.get_dimension("geography").unwrap();
    catalog.dimensions[geo].create_hierarchy("Ops").unwrap();
    catalog.dimensions[geo].add_component_in(Some("Ops"), "North", "Germany", Whole(1)).unwrap();
    put(&mut catalog, "Sales", &["Germany", "Laptop"], CellValue::Numeric(Whole(8)));
    assert_eq!(sum(&mut catalog, "Sales", &["Ops:North", "Laptop"]), Whole(8));
    put(&mut catalog, "Sales", &["Germany", "Laptop"], CellValue::Numeric(Whole(9)));
    assert_eq!(sum(&mut catalog, "Sales", &["North", "Laptop"]), Whole(0));
    assert_eq!(sum(&mut catalog, "Sales", &["Ops:North", "Laptop"]), Whole(9));
}

#[test]
fn the_same_cell_adds_up_in_every_hierarchy() {
    let mut catalog = sales();
    let geo = catalog.get_dimension("Geography").unwrap();
    catalog.dimensions[geo].create_hierarchy("Ops").unwrap();
    catalog.dimensions[geo].add_component_in(Some("Ops"), "Europe", "Germany", Whole(3)).unwrap();
    put(&mut catalog, "Sales", &["France", "Laptop"], CellValue::Numeric(Whole(5)));
    put(&mut catalog, "Sales", &["Germany", "Laptop"], CellValue::Numeric(Whole(8)));
    assert_eq!(sum(&mut catalog, "Sales", &["Europe", "Laptop"]), Whole(13));
    assert_eq!(sum(&mut catalog, "Sales", &["Ops:Europe", "Laptop"]), Whole(24));
    assert_eq!(sum(&mut catalog, "Sales", &["Ops:Germany", "Laptop"]), Whole(8));
}

#[test]
fn a_number_is_spread_over_the_leaves() {
    let mut catalog = sales();
    assert_eq!(
        splash(&mut catalog, "Sales", &["Europe", "Laptop"], Whole(100), SplashMode::Replace),
        Ok(2)
    );
    assert_eq!(number(&catalog, "Sales", &["France", "Laptop"]), Some(Whole(50)));
    assert_eq!(number(&catalog, "Sales", &["Germany", "Laptop"]), Some(Whole(50)));
    assert_eq!(sum(&mut catalog, "Sales", &["Europe", "Laptop"]), Whole(100));
    assert_eq!(
        splash(&mut catalog, "Sales", &["Europe", "Laptop"], Whole(10), SplashMode::Add),
        Ok(2)
    );
    assert_eq!(number(&catalog, "Sales", &["France", "Laptop"]), Some(Whole(55)));
    assert_eq!(
        splash(&mut catalog, "Sales", &["Spain", "Laptop"], Whole(3), SplashMode::Replace),
        Ok(1)
    );
    assert_eq!(number(&catalog, "Sales", &["Spain", "Laptop"]), Some(Whole(3)));
}

#[test]
fn a_spread_number_is_read_back_with_negative_weights() {
    let mut catalog: Catalog<Real> = Catalog::new();
    let account = catalog.get_or_create_dimension("Account");
    catalog.dimensions[account].add_component("Profit", "Revenue", Real(1.0));
    catalog.dimensions[account].add_component("Profit", "Costs", Real(-1.0));
    catalog.add_cube("Plan", &["Account"], None, true);
    assert_eq!(splash(&mut catalog, "Plan", &["Profit"], Real(90.0), SplashMode::Replace), Ok(2));
    assert_eq!(number(&catalog, "Plan", &["Revenue"]), Some(Real(45.0)));
    assert_eq!(number(&catalog, "Plan", &["Costs"]), Some(Real(-45.0)));
    assert_eq!(sum(&mut catalog, "Plan", &["Profit"]), Real(90.0));
}

#[test]
fn shares_follow_the_weights() {
    let mut catalog: Catalog<Real> = Catalog::new();
    let account = catalog.get_or_create_dimension("Account");
    catalog.dimensions[account].add_component("Total", "A", Real(1.0));
    catalog.dimensions[account].add_component("Total", "B", Real(3.0));
    catalog.add_cube("Plan", &["Account"], None, true);
    assert_eq!(splash(&mut catalog, "Plan", &["Total"], Real(100.0), SplashMode::Replace), Ok(2));
    assert_eq!(number(&catalog, "Plan", &["A"]), Some(Real(10.0)));
    assert_eq!(number(&catalog, "Plan", &["B"]), Some(Real(30.0)));
    assert_eq!(sum(&mut catalog, "Plan", &["Total"]), Real(100.0));
}

#[test]
fn a_spread_number_is_read_back_by_any_weights() {
    let mut catalog: Catalog<Whole> = Catalog::new();
    let account = catalog.get_or_create_dimension("Account");
    catalog.dimensions[account].add_component("Double", "A", Whole(2));
    catalog.dimensions[account].add_component("Mixed", "B", Whole(2));
    catalog.dimensions[account].add_component("Mixed", "C", Whole(-1));
    catalog.add_cube("Plan", &["Account"], None, true);
    assert_eq!(splash(&mut catalog, "Plan", &["Double"], Whole(100), SplashMode::Replace), Ok(1));
    assert_eq!(number(&catalog, "Plan", &["A"]), Some(Whole(50)));
    assert_eq!(sum(&mut catalog, "Plan", &["Double"]), Whole(100));
    assert_eq!(splash(&mut catalog, "Plan", &["Mixed"], Whole(100), SplashMode::Replace), Ok(2));
    assert_eq!(number(&catalog, "Plan", &["B"]), Some(Whole(40)));
    assert_eq!(number(&catalog, "Plan", &["C"]), Some(Whole(-20)));
    assert_eq!(sum(&mut catalog, "Plan", &["Mixed"]), Whole(100));
}

#[test]
fn a_number_is_spread_over_every_crossing() {
    let mut catalog = sales();
    let product = catalog.get_dimension("Product").unwrap();
    catalog.dimensions[product].add_component("All", "Laptop", Whole(1));
    catalog.dimensions[product].add_component("All", "Phone", Whole(1));
    assert_eq!(
        splash(&mut catalog, "Sales", &["Europe", "All"], Whole(40), SplashMode::Replace),
        Ok(4)
    );
    assert_eq!(number(&catalog, "Sales", &["Germany", "Phone"]), Some(Whole(10)));
    assert_eq!(sum(&mut catalog, "Sales", &["Europe", "Phone"]), Whole(20));
    assert_eq!(sum(&mut catalog, "Sales", &["Europe", "All"]), Whole(40));
}

#[test]
fn what_cannot_be_spread_is_refused() {
    let mut catalog = sales();
    assert_eq!(
        splash(&mut catalog, "Sales", &["Europe"], Whole(1), SplashMode::Replace),
        Err("Expected 2 coordinate(s), got 1.".to_string())
    );
    let geo = catalog.get_dimension("Geography").unwrap();
    catalog.dimensions[geo].add_consolidated("Nothing");
    assert_eq!(
        splash(&mut catalog, "Sales", &["Nothing", "Laptop"], Whole(1), SplashMode::Replace),
        Err("Consolidated member 'Nothing' has no leaf descendants to allocate to.".to_string())
    );
    catalog.dimensions[geo].add_component("Weightless", "Peru", Whole(0));
    assert_eq!(
        splash(&mut catalog, "Sales", &["Weightless", "Laptop"], Whole(1), SplashMode::Replace),
        Err("Cannot allocate: total absolute weight is zero.".to_string())
    );
}

#[test]
fn an_aggregate_among_the_coordinates_is_seen() {
    let mut catalog = sales();
    let geo = catalog.get_dimension("Geography").unwrap();
    catalog.dimensions[geo].create_hierarchy("Ops").unwrap();
    catalog.dimensions[geo].add_component_in(Some("Ops"), "North", "Germany", Whole(1)).unwrap();
    let cube = catalog.get_cube("Sales").unwrap();
    let dims = &catalog.dimensions;
    assert!(cube.has_consolidated_coordinate(dims, &["Europe", "Laptop"]));
    assert!(cube.has_consolidated_coordinate(dims, &["Ops:North", "Laptop"]));
    assert!(!cube.has_consolidated_coordinate(dims, &["North", "Laptop"]));
    assert!(!cube.has_consolidated_coordinate(dims, &["France", "Laptop", "Europe"]));
}

#[test]
fn rows_of_a_file_are_stored() {
    let mut catalog = sales();
    let i = catalog.find_cube("Sales").unwrap();
    let data = "Geography,Product,Value\nFrance,Laptop,10\n\"Spain, South\",Phone,n/a\nshort\nPeru,Phone,7,more\n";
    let news = catalog.cubes[i].1.import_csv(&mut catalog.dimensions, data.as_bytes(), true);
    assert_eq!(
        news,
        Ok("Successfully imported 3 rows into cube 'Sales' (skipped 1 row(s) with fewer than 3 column(s)).".to_string())
    );
    assert_eq!(number(&catalog, "Sales", &["France", "Laptop"]), Some(Whole(10)));
    assert_eq!(number(&catalog, "Sales", &["Peru", "Phone"]), Some(Whole(7)));
    let cube = catalog.get_cube("Sales").unwrap();
    match cube.read_cell(&catalog.dimensions, &["Spain, South", "Phone"]) {
        Some(CellValue::String(text)) => assert_eq!(text, "n/a"),
        _ => panic!("no text"),
    }
    let i = catalog.find_cube("Sales").unwrap();
    let news = catalog.cubes[i].1.import_csv(&mut catalog.dimensions, b"Peru,Laptop,3\n", false);
    assert_eq!(news, Ok("Successfully imported 1 rows into cube 'Sales'.".to_string()));
    assert_eq!(number(&catalog, "Sales", &["Peru", "Laptop"]), Some(Whole(3)));
}

#[test]
fn rows_at_the_name_of_an_aggregate_of_another_hierarchy_are_summed() {
    let mut catalog = warehouses();
    catalog.dimensions[0].add_component("Europe", "WH", Whole(1));
    let i = catalog.find_cube("S").unwrap();
    let news = catalog.cubes[i].1.import_csv(&mut catalog.dimensions, b"WH,5\nFrance,2\n", false);
    assert_eq!(news, Ok("Successfully imported 2 rows into cube 'S'.".to_string()));
    assert_eq!(number(&catalog, "S", &["WH"]), Some(Whole(5)));
    assert_eq!(sum(&mut catalog, "S", &["Europe"]), Whole(5));
    assert_eq!(sum(&mut catalog, "S", &["Ops:WH"]), Whole(2));
}

#[test]
fn a_file_that_cannot_be_read_stops_where_it_breaks() {
    let mut catalog = sales();
    let i = catalog.find_cube("Sales").unwrap();
    let data = b"G,P,V\nFrance,Laptop,10\nSpain,\xff,1\nPeru,Phone,7\n";
    let news = catalog.cubes[i].1.import_csv(&mut catalog.dimensions, data, true);
    assert!(news.is_err());
    assert_eq!(number(&catalog, "Sales", &["France", "Laptop"]), Some(Whole(10)));
    assert_eq!(number(&catalog, "Sales", &["Peru", "Phone"]), None);
    let records = vec![
        Ok(vec!["Peru".to_string(), "Phone".to_string(), "9".to_string()]),
        Err("broken".to_string()),
        Ok(vec!["Chile".to_string(), "Phone".to_string(), "9".to_string()]),
    ];
    let news = catalog.cubes[i].1.import_records(&mut catalog.dimensions, &records);
    assert_eq!(news, Err("broken".to_string()));
    assert_eq!(number(&catalog, "Sales", &["Peru", "Phone"]), Some(Whole(9)));
    assert_eq!(number(&catalog, "Sales", &["Chile", "Phone"]), None);
}

fn names(list: &[&str]) -> Vec<String> {
    list.iter().map(|s| s.to_string()).collect()
}

#[test]
fn a_slice_is_grouped_by_its_axes_in_display_order() {
    let mut catalog = sales();
    put(&mut catalog, "Sales", &["Germany", "Laptop"], CellValue::Numeric(Whole(8)));
    put(&mut catalog, "Sales", &["France", "Laptop"], CellValue::Numeric(Whole(5)));
    put(&mut catalog, "Sales", &["France", "Phone"], CellValue::Numeric(Whole(2)));
    let i = catalog.find_cube("Sales").unwrap();
    let query = SliceQuery {
        output_columns: names(&["Geography", "value"]),
        axes: names(&["Geography"]),
        ..SliceQuery::default()
    };
    let result = catalog.cubes[i].1.query_slice(&mut catalog.dimensions, &query).unwrap();
    assert_eq!(result.headers, names(&["Geography", "value"]));
    assert_eq!(result.rows, vec![names(&["France", "7"]), names(&["Germany", "8"])]);
    let geo = catalog.get_dimension("Geography").unwrap();
    catalog.dimensions[geo].move_member_before("Germany", "France").unwrap();
    let result = catalog.cubes[i].1.query_slice(&mut catalog.dimensions, &query).unwrap();
    assert_eq!(result.rows, vec![names(&["Germany", "8"]), names(&["France", "7"])]);
}

#[test]
fn a_filter_lets_leaves_through_by_their_weights() {
    let mut catalog = sales();
    let geo = catalog.get_dimension("Geography").unwrap();
    catalog.dimensions[geo].add_component("Net", "Peru", Whole(-2));
    put(&mut catalog, "Sales", &["Peru", "Laptop"], CellValue::Numeric(Whole(5)));
    put(&mut catalog, "Sales", &["France", "Laptop"], CellValue::Numeric(Whole(7)));
    let i = catalog.find_cube("Sales").unwrap();
    let mut query = SliceQuery {
        output_columns: names(&["Product", "value", "other"]),
        axes: names(&["Product"]),
        filters: vec![("Geography".to_string(), names(&["Net", "France"]))],
        ..SliceQuery::default()
    };
    let result = catalog.cubes[i].1.query_slice(&mut catalog.dimensions, &query).unwrap();
    assert_eq!(result.rows, vec![names(&["Laptop", "-3", ""])]);
    query.filters = vec![("Geography".to_string(), names(&["Chile"]))];
    match catalog.cubes[i].1.query_slice(&mut catalog.dimensions, &query) {
        Err(e) => assert_eq!(e, "Member 'Chile' not found"),
        Ok(_) => panic!("found"),
    }
}

#[test]
fn a_column_shows_its_dimension_behind_the_measures() {
    let mut catalog: Catalog<Whole> = Catalog::new();
    catalog.add_cube("Plan", &["Measure", "Region"], Some("Measure"), true);
    put(&mut catalog, "Plan", &["Units", "North"], CellValue::Numeric(Whole(4)));
    put(&mut catalog, "Plan", &["Price", "North"], CellValue::Numeric(Whole(9)));
    put(&mut catalog, "Plan", &["Units", "South"], CellValue::Numeric(Whole(3)));
    let i = catalog.find_cube("Plan").unwrap();
    let query = SliceQuery {
        output_columns: names(&["Region", "value"]),
        axes: names(&["Region"]),
        ..SliceQuery::default()
    };
    let result = catalog.cubes[i].1.query_slice(&mut catalog.dimensions, &query).unwrap();
    assert_eq!(
        result.rows,
        vec![names(&["North", "4"]), names(&["North", "9"]), names(&["South", "3"])]
    );
}

#[test]
fn measures_become_columns() {
    let mut catalog: Catalog<Whole> = Catalog::new();
    catalog.add_cube("Plan", &["Region", "Measure"], Some("Measure"), true);
    put(&mut catalog, "Plan", &["North", "Units"], CellValue::Numeric(Whole(4)));
    put(&mut catalog, "Plan", &["North", "Price"], CellValue::Numeric(Whole(9)));
    put(&mut catalog, "Plan", &["South", "Units"], CellValue::Numeric(Whole(3)));
    let i = catalog.find_cube("Plan").unwrap();
    let query = SliceQuery {
        output_columns: names(&["Units", "Region", "Price"]),
        axes: names(&["Region"]),
        requested_measures: names(&["Units", "Price"]),
        ..SliceQuery::default()
    };
    let result = catalog.cubes[i].1.query_slice(&mut catalog.dimensions, &query).unwrap();
    assert_eq!(result.rows, vec![names(&["4", "North", "9"]), names(&["3", "South", "-"])]);
}
