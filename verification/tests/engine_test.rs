use olap_engine::catalog::catalog::Catalog;
use olap_engine::cube::node::CellValue;
use olap_engine::engine::sql::execute_sql;
use olap_engine::number::Number;

/// Numbers in floating point.
#[derive(Clone, Copy, Debug, PartialEq)]
struct Real(f64);

impl Number for Real {
    fn zero() -> Self {
        Real(0.0)
    }

    fn one() -> Self {
        Real(1.0)
    }

    fn plus(self, other: Self) -> Self {
        Real(self.0 + other.0)
    }

    fn times(self, other: Self) -> Self {
        Real(self.0 * other.0)
    }

    fn over(self, other: Self) -> Self {
        Real(self.0 / other.0)
    }

    fn is_zero(self) -> bool {
        self.0 == 0.0
    }

    fn is_unit(self) -> bool {
        !((self.0 - 1.0).abs() > 0.001)
    }

    fn read(text: &str) -> Option<Self> {
        text.parse::<f64>().ok().map(Real)
    }

    fn shown(self) -> String {
        format!("{}", self.0)
    }
}

#[test]
fn test_basic_consolidation() {
    let mut catalog: Catalog<Real> = Catalog::new();

    let geo = catalog.get_or_create_dimension("Geography");
    catalog.dimensions[geo].add_component("Europe", "France", Real(1.0));
    catalog.dimensions[geo].add_component("Europe", "Germany", Real(1.0));

    catalog.add_cube("Sales", &["Geography", "Product"], None, true);
    let sales = catalog.find_cube("Sales").unwrap();
    let cube = &mut catalog.cubes[sales].1;
    let dims = &mut catalog.dimensions;

    cube.write(dims, &["France", "Laptop"], CellValue::Numeric(Real(100.0)));
    cube.write(dims, &["Germany", "Laptop"], CellValue::Numeric(Real(150.0)));

    let result = cube.query_consolidated(dims, &["Europe", "Laptop"]);

    assert_eq!(result, Real(250.0));
}

#[test]
fn test_sql_query_parser() {
    let mut catalog: Catalog<Real> = Catalog::new();

    catalog.get_or_create_dimension("Geography");
    catalog.get_or_create_dimension("Product");
    catalog.add_cube("Sales", &["Geography", "Product"], None, true);

    let sales = catalog.find_cube("Sales").unwrap();
    catalog.cubes[sales].1.write(
        &mut catalog.dimensions,
        &["France", "Laptop"],
        CellValue::Numeric(Real(100.0)),
    );

    let sql = "SELECT value FROM Sales WHERE Geography = 'France' AND Product = 'Laptop'";

    let result = execute_sql(&mut catalog, sql).unwrap();

    assert_eq!(result, "100");
}
