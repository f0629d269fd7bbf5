use olap_engine::catalog::catalog::Catalog;
use olap_engine::cube::slice::ResultSet;
use olap_engine::engine::sql::{
    execute_sql, execute_statement, extract_where_map, format_result_set, show_result,
    try_execute_sql,
};
use olap_engine::engine::syntax::{
    parser_takes, put_insert, read_first, Filter, FromItem, JoinItem, JoinKey, JoinKind, JoinTerm,
    SelectQuery, SqlStatement,
};
use olap_engine::number::Whole;

fn run(catalog: &mut Catalog<Whole>, sql: &str) -> Result<String, String> {
    execute_sql(catalog, sql)
}

fn ok(catalog: &mut Catalog<Whole>, sql: &str) -> String {
    execute_sql(catalog, sql).unwrap()
}

fn err(catalog: &mut Catalog<Whole>, sql: &str) -> String {
    execute_sql(catalog, sql).unwrap_err()
}

/// Sales by geography, product and measure, and what the products are.
fn shop() -> Catalog<Whole> {
    let mut catalog: Catalog<Whole> = Catalog::new();
    ok(&mut catalog, "CREATE TABLE Sales (Geography STRING, Product STRING, Measure MEASURE)");
    ok(&mut catalog, "CREATE ATTRIBUTE TABLE Info (Product STRING, Field MEASURE)");
    let geo = catalog.get_dimension("Geography").unwrap();
    catalog.dimensions[geo].add_component("Europe", "France", Whole(1));
    catalog.dimensions[geo].add_component("Europe", "Germany", Whole(1));
    ok(
        &mut catalog,
        "INSERT INTO Sales VALUES ('France', 'Laptop', 'Units', 4), ('France', 'Laptop', 'Price', 9)",
    );
    ok(&mut catalog, "INSERT INTO Sales VALUES ('Germany', 'Laptop', 'Units', 5)");
    ok(&mut catalog, "INSERT INTO Sales VALUES ('Germany', 'Phone', 'Units', 6)");
    ok(&mut catalog, "INSERT INTO Info VALUES ('Laptop', 'Color', 'grey')");
    catalog
}

#[test]
fn tables_and_dimensions_are_created() {
    let mut catalog: Catalog<Whole> = Catalog::new();
    assert_eq!(
        ok(&mut catalog, "CREATE DIMENSION Geography;"),
        "Dimension 'Geography' created successfully."
    );
    assert_eq!(
        ok(&mut catalog, "CREATE TABLE Sales (Geography STRING, Measure MEASURE)"),
        "Cube 'Sales' created. Measure dimension: Measure"
    );
    assert_eq!(
        ok(&mut catalog, "create attribute table Info (Geography STRING)"),
        "Cube 'Info' created with no explicit measure dimension."
    );
    assert!(catalog.get_cube("Sales").unwrap().is_aggregating);
    assert!(!catalog.get_cube("Info").unwrap().is_aggregating);
    assert_eq!(
        err(&mut catalog, "CREATE TABLE SALES (Other STRING)"),
        "Cube 'SALES' already exists."
    );
    assert_eq!(catalog.dimensions.len(), 2);
}

#[test]
fn hierarchies_are_created() {
    let mut catalog: Catalog<Whole> = Catalog::new();
    assert_eq!(
        ok(&mut catalog, "CREATE HIERARCHY Ops in Geography;"),
        "Hierarchy 'Ops' created in dimension 'Geography'."
    );
    let usage = "Usage: CREATE HIERARCHY <hierarchy> IN <dimension>";
    assert_eq!(err(&mut catalog, "CREATE HIERARCHY Ops"), usage);
    assert_eq!(err(&mut catalog, "CREATE HIERARCHY  IN Geography"), usage);
    assert_eq!(
        err(&mut catalog, "CREATE HIERARCHY ops IN Geography"),
        "Hierarchy 'ops' already exists in dimension 'Geography'."
    );
    assert_eq!(
        err(&mut catalog, "CREATE HIERARCHY ops IN Time"),
        "Hierarchy 'ops' already exists in dimension 'Geography'; hierarchy names must be unique \
         across the database."
    );
}

#[test]
fn rows_are_inserted_and_read_back() {
    let mut catalog: Catalog<Whole> = Catalog::new();
    ok(&mut catalog, "CREATE TABLE Sales (Geography STRING, Product STRING)");
    assert_eq!(
        ok(&mut catalog, "INSERT INTO sales VALUES ('France', 'Laptop', 7), ('Peru', 'Phone', -2)"),
        "Upserted 2 row(s) into 'sales'."
    );
    assert_eq!(
        ok(&mut catalog, "SELECT value FROM Sales WHERE Geography = 'Peru' AND Product = 'Phone'"),
        "-2"
    );
    assert_eq!(
        err(&mut catalog, "INSERT INTO Sales VALUES ('France', 7)"),
        "Expected 3 values, got 2"
    );
    assert_eq!(
        err(&mut catalog, "INSERT INTO Nothing VALUES ('France', 7)"),
        "Cube 'Nothing' not found"
    );
    assert_eq!(
        err(&mut catalog, "INSERT INTO Sales SELECT 1"),
        "Invalid INSERT format. Use: INSERT INTO cube VALUES ('dim1', 'dim2', 100)"
    );
}

#[test]
fn a_number_inserted_at_an_aggregate_is_spread() {
    let mut catalog = shop();
    assert_eq!(
        ok(&mut catalog, "INSERT INTO Sales VALUES ('Europe', 'Tablet', 'Units', 10)"),
        "Upserted 1 row(s) into 'Sales' (splashed across 2 leaf cell(s))."
    );
    assert_eq!(
        ok(&mut catalog, "SELECT Geography, Units FROM Sales WHERE Product = 'Tablet'"),
        "Geography | Units\n--------------------\nFrance | 5\nGermany | 5\n"
    );
    let geo = catalog.get_dimension("Geography").unwrap();
    catalog.dimensions[geo].add_consolidated("Void");
    assert_eq!(
        err(&mut catalog, "INSERT INTO Sales VALUES ('Void', 'Tablet', 'Units', 10)"),
        "Consolidated member 'Void' has no leaf descendants to allocate to."
    );
}

#[test]
fn measures_are_selected_as_columns() {
    let mut catalog = shop();
    assert_eq!(
        ok(&mut catalog, "SELECT Geography, units, Price FROM Sales WHERE Product = 'Laptop'"),
        "Geography | units | Price\n------------------------------\nFrance |  | 9\nGermany |  | -\n"
    );
    assert_eq!(
        ok(&mut catalog, "SELECT Sales.Geography, Units FROM Sales WHERE Product IN ('Laptop', 'Phone')"),
        "Geography | Units\n--------------------\nFrance | 4\nGermany | 11\n"
    );
    assert_eq!(
        ok(&mut catalog, "SELECT Geography, Measure, value FROM Sales WHERE Product = 'Laptop'"),
        "Geography | Measure | value\n------------------------------\nFrance | Units | 4\nFrance | Price | 9\nGermany | Units | 5\n"
    );
}

#[test]
fn members_that_are_not_asked_for_default() {
    let mut catalog = shop();
    assert_eq!(
        ok(&mut catalog, "SELECT Units FROM Sales"),
        "Units\n----------\n4\n"
    );
    assert_eq!(
        ok(&mut catalog, "SELECT Units FROM Sales WHERE Geography = 'Europe'"),
        "Units\n----------\n9\n"
    );
    assert_eq!(
        ok(&mut catalog, "SELECT Product FROM Sales WHERE Geography = 'France' AND Product = 'Phone'"),
        "0 rows returned."
    );
}

#[test]
fn a_hierarchy_is_an_axis_and_a_filter() {
    let mut catalog = shop();
    ok(&mut catalog, "CREATE HIERARCHY Ops IN Geography");
    let geo = catalog.get_dimension("Geography").unwrap();
    catalog.dimensions[geo].add_component_in(Some("Ops"), "North", "Germany", Whole(1)).unwrap();
    assert_eq!(
        ok(&mut catalog, "SELECT Ops, Units FROM Sales WHERE Product = 'Laptop'"),
        "Ops | Units\n--------------------\nFrance | 4\nGermany | 5\n"
    );
    assert_eq!(
        ok(&mut catalog, "SELECT Product, Units FROM Sales WHERE Ops = 'North'"),
        "Product | Units\n--------------------\nLaptop | 5\nPhone | 6\n"
    );
    assert_eq!(
        err(&mut catalog, "SELECT Product, Units FROM Sales WHERE Ops = 'South'"),
        "Member 'Ops:South' not found"
    );
    ok(&mut catalog, "CREATE HIERARCHY Kinds IN Measure");
    assert_eq!(
        err(&mut catalog, "SELECT Kinds FROM Sales"),
        "Hierarchy 'Kinds' belongs to the measure dimension and cannot be used as an axis."
    );
    assert_eq!(
        err(&mut catalog, "SELECT Product FROM Sales WHERE Kinds = 'Units'"),
        "Hierarchy 'Kinds' belongs to the measure dimension and cannot be filtered on."
    );
}

#[test]
fn attributes_are_joined_by_a_shared_dimension() {
    let mut catalog = shop();
    assert_eq!(
        ok(
            &mut catalog,
            "SELECT Product, Color, Units FROM Sales JOIN Info USING (product) WHERE Geography = 'Germany'"
        ),
        "Product | Color | Units\n------------------------------\nLaptop | grey | 5\nPhone | - | 6\n"
    );
    assert_eq!(
        ok(
            &mut catalog,
            "SELECT Product, Color FROM Sales NATURAL JOIN Info WHERE Geography = 'France'"
        ),
        "Product | Color\n--------------------\nLaptop | grey\nLaptop | grey\n"
    );
    assert_eq!(
        err(&mut catalog, "SELECT Units, Color FROM Sales LEFT JOIN Info USING (Product)"),
        "Cannot JOIN 'Sales' with 'Info': the conformed dimension 'Product' is not projected, so \
         there is no key to join the attributes onto."
    );
}

#[test]
fn a_join_of_any_side_keeps_the_rows_of_the_table() {
    let mut catalog = shop();
    for join in [
        "JOIN Info",
        "LEFT JOIN Info USING (Product)",
        "RIGHT JOIN Info USING (Product)",
        "FULL JOIN Info USING (Product)",
    ] {
        assert_eq!(
            ok(
                &mut catalog,
                &format!("SELECT Product, Color FROM Sales {} WHERE Geography = 'Germany'", join)
            ),
            "Product | Color\n--------------------\nLaptop | grey\nPhone | -\n"
        );
    }
}

#[test]
fn names_are_read_in_any_case() {
    let mut catalog = shop();
    assert_eq!(
        ok(
            &mut catalog,
            "SELECT value FROM SALES WHERE geography = 'FRANCE' AND PRODUCT = 'laptop' \
             AND measure = 'units'"
        ),
        ok(
            &mut catalog,
            "SELECT value FROM Sales WHERE Geography = 'France' AND Product = 'Laptop' \
             AND Measure = 'Units'"
        )
    );
    assert!(catalog.get_dimension("GEOGRAPHY") == catalog.get_dimension("Geography"));
}

#[test]
fn joins_that_cannot_be_made_are_refused() {
    let mut catalog = shop();
    assert_eq!(
        err(&mut catalog, "SELECT Product FROM Sales JOIN Info ON Sales.Product = Info.Product"),
        "JOIN ... ON is not supported. Since the only thing two cubes can join on is a shared \
         (conformed) dimension, use USING (<dimension>)."
    );
    assert_eq!(
        err(&mut catalog, "SELECT Product FROM Sales CROSS JOIN Info"),
        "CROSS JOIN is not supported; these cubes are joined through a shared (conformed) \
         dimension via USING (<dimension>)."
    );
    assert_eq!(
        err(&mut catalog, "SELECT Product FROM Sales CROSS APPLY Info"),
        "Only INNER / LEFT / RIGHT / FULL [USING (...)] joins are supported."
    );
    assert_eq!(
        err(&mut catalog, "SELECT Product FROM Sales JOIN Nothing USING (Product)"),
        "Joined cube 'Nothing' not found"
    );
    assert_eq!(
        err(&mut catalog, "SELECT Product FROM Sales JOIN Info USING (Product, Geography)"),
        "USING currently accepts a single conformed dimension, got 2."
    );
    assert_eq!(
        err(&mut catalog, "SELECT Product FROM Sales JOIN Info USING (Geography)"),
        "Cannot JOIN 'Sales' with 'Info' USING 'Geography': it must be a conformed dimension \
         (present in both cubes)."
    );
    ok(&mut catalog, "CREATE TABLE Other (Time STRING)");
    assert_eq!(
        err(&mut catalog, "SELECT Product FROM Sales NATURAL JOIN Other"),
        "Cannot JOIN 'Sales' with 'Other': they share no conformed dimension. A JOIN keys off a \
         dimension with the same name in both cubes; write JOIN ... USING (<dimension>)."
    );
    ok(&mut catalog, "CREATE TABLE Both (Geography STRING, Product STRING)");
    assert_eq!(
        err(&mut catalog, "SELECT Product FROM Sales NATURAL JOIN Both"),
        "Cannot infer how to JOIN 'Sales' with 'Both': they share 2 conformed dimensions \
         (Geography, Product). Specify one with USING (<dimension>)."
    );
}

#[test]
fn queries_that_cannot_be_answered_are_refused() {
    let mut catalog = shop();
    assert_eq!(err(&mut catalog, "SELECT 1"), "SELECT must include a FROM clause naming a cube.");
    assert_eq!(
        err(&mut catalog, "SELECT value FROM (SELECT 1) AS t"),
        "Unsupported FROM clause."
    );
    assert_eq!(err(&mut catalog, "SELECT value FROM Nothing"), "Cube 'Nothing' not found");
    assert_eq!(
        err(&mut catalog, "SELECT Weight FROM Sales"),
        "Column 'Weight' not found in primary or joined cube."
    );
    assert_eq!(
        err(&mut catalog, "SELECT Measure, Units FROM Sales"),
        "Cannot select both measure dimension and specific measures."
    );
    assert_eq!(
        err(&mut catalog, "SELECT Units FROM Sales WHERE Measure = 'Price'"),
        "Cannot filter on 'Measure' when pivoting specific measures."
    );
    assert_eq!(
        err(&mut catalog, "SELECT Units FROM Sales WHERE Product NOT IN ('Laptop')"),
        "NOT IN is currently unsupported."
    );
    assert_eq!(
        err(&mut catalog, "SELECT Units FROM Sales WHERE Product > 'Laptop'"),
        "Unsupported WHERE format. Use Dim = 'Val' or Dim IN ('Val1', 'Val2')"
    );
    assert_eq!(
        err(&mut catalog, "SELECT Units FROM Sales WHERE Product = 'Car'"),
        "Member 'Car' not found"
    );
    assert_eq!(err(&mut catalog, "VALUES (1)"), "Unsupported SELECT format.");
    assert_eq!(err(&mut catalog, "DROP TABLE Sales"), "Unsupported SQL command.");
    assert!(err(&mut catalog, "SELEC value").starts_with("SQL Parse Error: "));
}

#[test]
fn a_query_changes_no_data() {
    let mut catalog = shop();
    let before: Vec<usize> = catalog.cubes.iter().map(|(_, c)| c.store.all_cells().len()).collect();
    ok(&mut catalog, "SELECT Geography, Units FROM Sales WHERE Product = 'Laptop'");
    let _ = run(&mut catalog, "SELECT Units FROM Sales WHERE Product = 'Car'");
    let after: Vec<usize> = catalog.cubes.iter().map(|(_, c)| c.store.all_cells().len()).collect();
    assert_eq!(before, after);
    let product = catalog.get_dimension("Product").unwrap();
    assert_eq!(catalog.dimensions[product].get_id("Car"), None);
}

#[test]
fn a_text_without_a_statement_is_none() {
    let mut catalog = shop();
    assert!(try_execute_sql(&mut catalog, "").is_none());
    assert!(try_execute_sql(&mut catalog, " ; ").is_none());
    assert!(try_execute_sql(&mut catalog, "-- nothing").is_none());
    assert!(try_execute_sql(&mut catalog, "SELECT Units FROM Sales").unwrap().is_ok());
}

#[test]
fn a_cell_that_is_all_there_is_comes_bare() {
    let one = ResultSet {
        headers: vec!["value".to_string()],
        rows: vec![vec!["100".to_string()]],
    };
    assert_eq!(show_result(one), "100");
    let named = ResultSet {
        headers: vec!["Units".to_string()],
        rows: vec![vec!["100".to_string()]],
    };
    assert_eq!(show_result(named), "Units\n----------\n100\n");
    let none = ResultSet { headers: vec!["value".to_string()], rows: vec![] };
    assert_eq!(show_result(none), "0 rows returned.");
    let table = ResultSet {
        headers: vec!["a".to_string(), "b".to_string()],
        rows: vec![vec!["1".to_string(), "2".to_string()]],
    };
    assert_eq!(format_result_set(table), "a | b\n--------------------\n1 | 2\n");
}

#[test]
fn later_conditions_take_the_place_of_earlier_ones() {
    let condition = Filter::And(
        Box::new(Filter::Equal("Geo".to_string(), "'France'".to_string())),
        Box::new(Filter::Equal("Geo".to_string(), "'Peru'".to_string())),
    );
    let mut filters = Vec::new();
    assert_eq!(extract_where_map(&condition, &mut filters), Ok(()));
    assert_eq!(filters, vec![("Geo".to_string(), vec!["Peru".to_string()])]);
    assert_eq!(
        extract_where_map(&Filter::Other, &mut filters),
        Err("Unsupported WHERE format. Use Dim = 'Val' or Dim IN ('Val1', 'Val2')".to_string())
    );
}

#[test]
fn statements_are_read_from_text() {
    match read_first("SELECT a.b , value FROM Sales WHERE x = 'y' AND z IN (1, 'q')").unwrap() {
        Some(SqlStatement::Select(query)) => {
            assert_eq!(query.table(), Some(Some("Sales")));
            assert_eq!(query.joined(), None);
            assert!(query.key().is_none());
            assert_eq!(query.columns, vec!["a.b", "value"]);
        }
        _ => panic!("no query"),
    }
    match read_first("CREATE TABLE t (a STRING, b MEASURE)").unwrap() {
        Some(SqlStatement::CreateTable(name, columns)) => {
            assert_eq!(name, "t");
            assert_eq!(
                columns,
                vec![
                    ("a".to_string(), "STRING".to_string()),
                    ("b".to_string(), "MEASURE".to_string())
                ]
            );
        }
        _ => panic!("no table"),
    }
    match read_first("INSERT INTO t VALUES ('a', 1), ('b', -2)").unwrap() {
        Some(SqlStatement::Insert(name, Some(rows))) => {
            assert_eq!(name, "t");
            assert_eq!(rows, vec![vec!["'a'", "1"], vec!["'b'", "-2"]]);
        }
        _ => panic!("no rows"),
    }
    match read_first("DELETE FROM t").unwrap() {
        Some(SqlStatement::Other) => {}
        _ => panic!("something else"),
    }
    assert!(read_first("").unwrap().is_none());
    assert!(read_first("SELECT FROM WHERE").is_err());
}

#[test]
fn what_the_parser_takes_is_known_beforehand() {
    assert!(parser_takes("SELECT 1"));
    assert!(parser_takes("SELECT a AS replace FROM t"));
    assert!(parser_takes("SELECT REPLACE(a, 'b', 'c') FROM t"));
    assert!(parser_takes("GRANT SELECT ON t TO u GRANTED BY v"));
    assert!(!parser_takes("GRANT SELECT ON t TO u GRANTED BY"));
    assert!(!parser_takes("GRANT SELECT ON t TO u GRANTED /* by */ BY 1"));
    assert!(parser_takes("FLUSH RELAY LOGS FOR CHANNEL c"));
    assert!(!parser_takes("FLUSH RELAY LOGS FOR CHANNEL c. 1"));
    assert!(!parser_takes("SELECT 1; REPLACE"));
    assert!(!parser_takes("EXPLAIN replace"));
    assert!(parser_takes("'"));
    assert!(parser_takes("FLUSH RELAY LOGS FOR CHANNEL a.b"));
    assert!(!parser_takes("FLUSH RELAY LOGS FOR CHANNEL a."));
    assert!(!parser_takes("FLUSH RELAY LOGS FOR CHANNEL"));
    assert!(parser_takes("SELECT Describe, Replace FROM Sales"));
    assert!(!parser_takes("EXPLAIN ANALYZE VERBOSE FORMAT TEXT REPLACE x"));
    assert!(!parser_takes("EXPLA\u{131}N REPLACE x"));
    assert!(!parser_takes("PREPARE p AS REPLACE x"));
    assert!(parser_takes("SELECT TOP 5 a FROM t"));
    assert!(parser_takes("SELECT TOP 18446744073709551615 a FROM t"));
    assert!(!parser_takes("SELECT TOP 18446744073709551616 a FROM t"));
    assert!(!parser_takes("SELECT TOP 99999999999999999999 a FROM t"));
    assert!(!parser_takes("SELECT TOP 1.5 a FROM t"));
    assert!(!parser_takes("SELECT top .5 a FROM t"));
    assert!(parser_takes("CREATE TABLE t (a INT) AUTO_INCREMENT = 5"));
    assert!(parser_takes("CREATE TABLE t (a INT) AUTO_INCREMENT 4294967295"));
    assert!(!parser_takes("CREATE TABLE t (a INT) AUTO_INCREMENT 4294967296"));
    assert!(!parser_takes("CREATE TABLE t (a INT) AUTO_INCREMENT = 5000000000"));
    assert!(parser_takes("SELECT Describe Replace FROM Sales"));
    assert!(!parser_takes("DESCRIBE DESCRIBE replace"));
    assert!(!parser_takes("PREPARE p AS PREPARE q AS REPLACE x"));
    assert!(parser_takes("SELECT a AS prepare, b AS replace FROM t"));
    assert!(parser_takes("GRANT SELECT ON t TO u GRANTED BY Élise"));
    assert!(parser_takes("GRANT SELECT ON t TO u GRANTED BY #v"));
    assert!(parser_takes("GRANT SELECT ON t TO u GRANTED BY @v"));
    assert!(parser_takes("GRANT SELECT ON t TO u GRANTED BY @@v"));
    assert!(!parser_takes("GRANT SELECT ON t TO u GRANTED BY @> v"));
    assert!(!parser_takes("GRANT SELECT ON t TO u GRANTED BY @@ v"));
    assert!(!parser_takes("GRANT SELECT ON t TO u GRANTED BY # v"));
    assert!(!parser_takes("GRANT SELECT ON t TO u GRANTED BY N'v'"));
    assert!(!parser_takes("GRANT SELECT ON t TO u GRANTED BY \u{20ac}"));
    assert!(parser_takes("FLUSH RELAY LOGS FOR CHANNEL \u{e9}.#b"));
    let mut catalog = shop();
    assert_eq!(
        try_execute_sql(&mut catalog, "REPLACE INTO Info VALUES ('Phone', 'Color', 'red')"),
        Some(Ok("Upserted 1 row(s) into 'Info'.".to_string()))
    );
    assert!(matches!(try_execute_sql(&mut catalog, "REPLACE Info"), Some(Err(_))));
    assert_eq!(
        try_execute_sql(&mut catalog, "GRANT SELECT ON t TO u GRANTED BY v"),
        Some(Err("Unsupported SQL command.".to_string()))
    );
    assert_eq!(
        try_execute_sql(&mut catalog, "SELECT Units AS Replace FROM Sales"),
        Some(Err("Column 'Units AS Replace' not found in primary or joined cube.".to_string()))
    );
    assert!(matches!(
        try_execute_sql(&mut catalog, "SELECT Describe, Replace FROM Sales"),
        Some(Err(_))
    ));
    assert_eq!(
        try_execute_sql(&mut catalog, "FLUSH RELAY LOGS FOR CHANNEL a.b"),
        Some(Err("Unsupported SQL command.".to_string()))
    );
    assert!(try_execute_sql(&mut catalog, "SELECT TOP 5 Units FROM Sales").is_some());
    assert!(try_execute_sql(&mut catalog, "SELECT TOP 18446744073709551615 a FROM t").is_some());
    assert!(try_execute_sql(&mut catalog, "SELECT TOP 1.5 a FROM t").is_none());
    assert!(try_execute_sql(&mut catalog, "CREATE TABLE t (a INT) AUTO_INCREMENT 4294967295")
        .is_some());
    assert!(try_execute_sql(&mut catalog, "CREATE TABLE u (a INT) AUTO_INCREMENT = 5000000000")
        .is_none());
}

#[test]
fn names_behind_granted_by_are_taken() {
    let mut catalog = shop();
    for name in ["Élise", "\u{e9}", "#v", "@v", "@@v", "`v`", "\"v\"", "'v'", "_v"] {
        assert_eq!(
            try_execute_sql(&mut catalog, &format!("GRANT SELECT ON t TO u GRANTED BY {}", name)),
            Some(Err("Unsupported SQL command.".to_string()))
        );
    }
}

#[test]
fn insert_stands_in_place_of_replace_where_statements_start() {
    assert_eq!(put_insert("replace INTO t VALUES (1)"), "INSERT  INTO t VALUES (1)");
    assert_eq!(put_insert("SELECT replace"), "SELECT replace");
    assert_eq!(
        put_insert("-- a\n/* b\n */\tReplace INTO t VALUES ('replace')"),
        "-- a\n/* b\n */\tINSERT  INTO t VALUES ('replace')"
    );
    assert_eq!(
        put_insert("SELECT 'é;' ;\r\n;REPLACE(a) ; x;\nREPLACE"),
        "SELECT 'é;' ;\r\n;INSERT (a) ; x;\nINSERT "
    );
    assert_eq!(put_insert("EXPLAIN REPLACE x"), "EXPLAIN REPLACE x");
    assert_eq!(put_insert("REPLACE '"), "REPLACE '");
    let mut catalog = shop();
    let upserted = Some(Ok("Upserted 1 row(s) into 'Info'.".to_string()));
    for sql in [
        "/* new */ REPLACE INTO Info VALUES ('Phone', 'Color', 'red')",
        "; REPLACE INTO Info VALUES ('Phone', 'Color', 'red')",
        "-- new\nREPLACE INTO Info VALUES ('Phone', 'Color', 'red')",
        "INSERT INTO Info VALUES ('Phone', 'Color', 'red'); REPLACE INTO Info VALUES ('a', 'b', 'c')",
    ] {
        assert_eq!(try_execute_sql(&mut catalog, sql), upserted);
    }
    assert_eq!(
        try_execute_sql(&mut catalog, "SELECT Nothing FROM Sales; REPLACE"),
        Some(Err(
            "SQL Parse Error: ParserError(\"Expected identifier, found: EOF\")".to_string()
        ))
    );
}

#[test]
fn a_measure_dimension_that_is_not_there_has_no_measures() {
    let mut catalog: Catalog<Whole> = Catalog::new();
    catalog.add_cube("Stray", &["Geo"], Some("Measure"), true);
    ok(&mut catalog, "INSERT INTO Stray VALUES ('France', 5)");
    assert_eq!(
        ok(&mut catalog, "SELECT Geo, value FROM Stray WHERE Geo = 'France'"),
        "Geo | value\n--------------------\nFrance | 5\n"
    );
    assert_eq!(
        err(&mut catalog, "SELECT Units FROM Stray"),
        "Column 'Units' not found in primary or joined cube."
    );
}

#[test]
fn an_inserted_row_is_read_at_the_name_of_an_aggregate_of_another_hierarchy() {
    let mut catalog: Catalog<Whole> = Catalog::new();
    ok(&mut catalog, "CREATE TABLE S (Geo STRING)");
    ok(&mut catalog, "CREATE HIERARCHY Ops IN Geo");
    catalog.dimensions[0].add_component_in(Some("Ops"), "WH", "France", Whole(1)).unwrap();
    ok(&mut catalog, "INSERT INTO S VALUES ('WH', 5)");
    assert_eq!(
        ok(&mut catalog, "SELECT Geo, value FROM S WHERE Geo = 'WH'"),
        "Geo | value\n--------------------\nWH | 5\n"
    );
}

#[test]
fn what_a_query_reads_from_is_read() {
    let read = |sql: &str| match read_first(sql).unwrap() {
        Some(SqlStatement::Select(query)) => query,
        _ => panic!("no query"),
    };
    let query = read("SELECT a FROM t LEFT JOIN u USING (x, y) CROSS JOIN v, w");
    assert_eq!(query.from.len(), 2);
    assert_eq!(query.from[0].table, Some("t".to_string()));
    assert_eq!(query.from[0].joins.len(), 2);
    assert_eq!(query.from[0].joins[0].table, Some("u".to_string()));
    assert_eq!(query.from[0].joins[1].table, Some("v".to_string()));
    assert!(matches!(query.from[0].joins[1].kind, JoinKind::Cross));
    match &query.from[0].joins[0].kind {
        JoinKind::LeftOuter(JoinTerm::Using(columns)) => assert_eq!(columns, &vec!["x", "y"]),
        _ => panic!("another join"),
    }
    assert_eq!(query.from[1].table, Some("w".to_string()));
    assert!(query.from[1].joins.is_empty());
    assert_eq!(query.table(), Some(Some("t")));
    assert_eq!(query.joined(), Some(Some("u")));
    assert!(matches!(query.key(), Some(JoinKey::Using(columns)) if columns == vec!["x", "y"]));
    assert!(matches!(
        read("SELECT a FROM t NATURAL JOIN u").from[0].joins[0].kind,
        JoinKind::Inner(JoinTerm::Natural)
    ));
    assert!(matches!(
        read("SELECT a FROM t RIGHT JOIN u ON 1 = 1").from[0].joins[0].kind,
        JoinKind::RightOuter(JoinTerm::On)
    ));
    assert!(matches!(
        read("SELECT a FROM t FULL JOIN u USING (x)").from[0].joins[0].kind,
        JoinKind::FullOuter(JoinTerm::Using(_))
    ));
    assert!(matches!(
        read("SELECT a FROM t LEFT SEMI JOIN u USING (x)").from[0].joins[0].kind,
        JoinKind::LeftSemi(JoinTerm::Using(_))
    ));
    assert!(matches!(
        read("SELECT a FROM t RIGHT ANTI JOIN u ON 1 = 1").from[0].joins[0].kind,
        JoinKind::RightAnti(JoinTerm::On)
    ));
    assert!(matches!(
        read("SELECT a FROM t CROSS APPLY u").from[0].joins[0].kind,
        JoinKind::CrossApply
    ));
    let nested = read("SELECT a FROM (SELECT b FROM t) JOIN (SELECT c FROM u) USING (x)");
    assert_eq!(nested.table(), Some(None));
    assert_eq!(nested.joined(), Some(None));
    assert_eq!(read("SELECT 1").table(), None);
}

#[test]
fn the_first_join_of_the_first_table_is_made() {
    let join = |kind: JoinKind| SelectQuery {
        from: vec![FromItem {
            table: Some("t".to_string()),
            joins: vec![
                JoinItem { table: Some("u".to_string()), kind },
                JoinItem { table: None, kind: JoinKind::Cross },
            ],
        }],
        columns: vec![],
        filter: None,
    };
    let using = || JoinTerm::Using(vec!["x".to_string()]);
    for kind in [
        JoinKind::Inner(using()),
        JoinKind::LeftOuter(using()),
        JoinKind::RightOuter(using()),
        JoinKind::FullOuter(using()),
    ] {
        assert!(matches!(join(kind).key(), Some(JoinKey::Using(columns)) if columns == vec!["x"]));
    }
    assert!(matches!(join(JoinKind::Inner(JoinTerm::On)).key(), Some(JoinKey::On)));
    assert!(matches!(join(JoinKind::LeftOuter(JoinTerm::Natural)).key(), Some(JoinKey::Natural)));
    assert!(matches!(join(JoinKind::Inner(JoinTerm::Unsaid)).key(), Some(JoinKey::Unsaid)));
    assert!(matches!(join(JoinKind::Cross).key(), Some(JoinKey::Cross)));
    assert!(matches!(join(JoinKind::LeftSemi(using())).key(), Some(JoinKey::Other)));
    assert!(matches!(join(JoinKind::OuterApply).key(), Some(JoinKey::Other)));
    assert_eq!(join(JoinKind::Cross).joined(), Some(Some("u")));
}

#[test]
fn a_statement_is_executed_once_it_is_read() {
    let mut catalog: Catalog<Whole> = Catalog::new();
    let table = SqlStatement::CreateTable(
        "T".to_string(),
        vec![("A".to_string(), "STRING".to_string())],
    );
    assert_eq!(
        execute_statement(&mut catalog, &table, true),
        Ok("Cube 'T' created with no explicit measure dimension.".to_string())
    );
    let rows = SqlStatement::Insert(
        "T".to_string(),
        Some(vec![vec!["'x'".to_string(), "'y'".to_string()]]),
    );
    assert_eq!(
        execute_statement(&mut catalog, &rows, true),
        Ok("Upserted 1 row(s) into 'T'.".to_string())
    );
    assert_eq!(ok(&mut catalog, "SELECT A, value FROM T"), "A | value\n--------------------\nx | y\n");
    assert_eq!(
        execute_statement(&mut catalog, &SqlStatement::OtherQuery, true),
        Err("Unsupported SELECT format.".to_string())
    );
    assert_eq!(
        execute_statement(&mut catalog, &SqlStatement::Other, true),
        Err("Unsupported SQL command.".to_string())
    );
    assert_eq!(
        execute_statement(&mut catalog, &SqlStatement::Insert("T".to_string(), None), true),
        Err("Invalid INSERT format. Use: INSERT INTO cube VALUES ('dim1', 'dim2', 100)".to_string())
    );
}
