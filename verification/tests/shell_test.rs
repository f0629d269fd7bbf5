use olap_engine::catalog::catalog::Catalog;
use olap_engine::number::Whole;
use olap_engine::shell::args::parse_args;
use olap_engine::shell::batch::{judge_batch, script_command, strip_timing, Golden};
use olap_engine::shell::command::{process_command, Step};
use olap_engine::shell::files::{
    finish_import, finish_levels, finish_pairs, import_levels, import_pairs, import_rows,
};
use olap_engine::shell::words::tokenize;

/// Runs a command that is done at once: what it says, and whether it succeeded.
fn run(catalog: &mut Catalog<Whole>, command: &str) -> (String, bool) {
    let mut out = String::new();
    match process_command(catalog, command, &mut out) {
        Some(Step::Done(ok)) => (out, ok),
        _ => panic!("not done"),
    }
}

fn said(catalog: &mut Catalog<Whole>, command: &str) -> String {
    let (out, ok) = run(catalog, command);
    assert!(ok, "{}", out);
    out
}

fn refused(catalog: &mut Catalog<Whole>, command: &str) -> String {
    let (out, ok) = run(catalog, command);
    assert!(!ok, "{}", out);
    out
}

fn shop() -> Catalog<Whole> {
    let mut catalog: Catalog<Whole> = Catalog::new();
    said(&mut catalog, "CREATE TABLE Sales (Geography STRING, Product STRING)");
    said(&mut catalog, ".rollup Geography \"All Europe\" France 1");
    said(&mut catalog, ".rollup Geography 'All Europe' Germany 1");
    said(&mut catalog, "INSERT INTO Sales VALUES ('France', 'Laptop', 4)");
    catalog
}

fn strings(list: &[&str]) -> Vec<String> {
    list.iter().map(|s| s.to_string()).collect()
}

#[test]
fn words_are_parted_by_white_space_and_held_by_quotes() {
    assert_eq!(
        tokenize(".rollup Geography \"North America\" USA 1.0"),
        strings(&[".rollup", "Geography", "North America", "USA", "1.0"])
    );
    assert_eq!(tokenize("  a\t'b c'd  \"\" "), strings(&["a", "b cd", ""]));
    assert_eq!(tokenize("'it\"s'\u{3000}x"), strings(&["it\"s", "x"]));
    assert_eq!(tokenize("'open end"), strings(&["open end"]));
    assert_eq!(tokenize("   "), Vec::<String>::new());
}

#[test]
fn arguments_name_a_script_and_its_files() {
    let args = parse_args(&strings(&["--out", "o.txt", "a.sql", "b.sql", "--bless", "--golden", "g"]));
    assert_eq!(args.script, Some("a.sql".to_string()));
    assert_eq!(args.out, Some("o.txt".to_string()));
    assert_eq!(args.golden, Some("g".to_string()));
    assert!(args.bless);
    let args = parse_args(&strings(&["-x", "--out"]));
    assert_eq!(args.script, None);
    assert_eq!(args.out, None);
    assert!(!args.bless);
}

#[test]
fn lines_that_tell_time_are_left_out() {
    assert_eq!(
        strip_timing("a\r\n(Time: 3ms)\n\nScript finished. Executed 3 commands in 1s.\n (Time: x)\nend"),
        "a\n\n (Time: x)\nend\n"
    );
    assert_eq!(strip_timing(""), "");
    let text = "> .dims\r\nNone\n(Time: 3ms)\n\nlast";
    assert_eq!(strip_timing(text), "> .dims\nNone\n\nlast\n");
    assert_eq!(strip_timing(&strip_timing(text)), strip_timing(text));
}

#[test]
fn a_script_line_is_a_command_unless_it_is_empty_or_a_comment() {
    assert_eq!(script_command("\u{feff}  SELECT 1 ", true), Some("SELECT 1".to_string()));
    assert_eq!(script_command("\u{feff}x", false), Some("\u{feff}x".to_string()));
    assert_eq!(script_command("  -- note", false), None);
    assert_eq!(script_command("   ", false), None);
}

#[test]
fn a_run_is_judged_by_its_golden_file() {
    let none = judge_batch(&Golden::Absent, "", "out\n", true);
    assert_eq!(none, (String::new(), true));
    let failed = judge_batch(&Golden::Absent, "", "out\n", false);
    assert_eq!(failed, ("One or more commands failed.\n".to_string(), false));
    let blessed = judge_batch(&Golden::Blessed, "g", "out\n", false);
    assert_eq!(blessed, ("Blessed golden file 'g'.\n".to_string(), true));
    let not_blessed = judge_batch(&Golden::NotBlessed("full".to_string()), "g", "out\n", true);
    assert_eq!(not_blessed, ("Could not write golden file 'g': full\n".to_string(), false));
    let unreadable = judge_batch(&Golden::Unreadable("gone".to_string()), "g", "out\n", true);
    assert_eq!(unreadable, ("Could not read golden file 'g': gone\n".to_string(), false));
    let same = judge_batch(&Golden::Expected("out\r\n".to_string()), "g", "out\n", true);
    assert_eq!(same, ("Golden match: g\n".to_string(), true));
    let same_but_failed = judge_batch(&Golden::Expected("out\n".to_string()), "g", "out\n", false);
    assert_eq!(same_but_failed, ("Golden match: g\n".to_string(), false));
    let other = judge_batch(&Golden::Expected("in\n".to_string()), "g", "out\n", true);
    assert_eq!(
        other,
        (
            "Golden MISMATCH: g\n--- expected (golden) ---\nin\n--- actual ---\nout\n".to_string(),
            false
        )
    );
}

#[test]
fn help_names_the_commands() {
    let mut catalog = shop();
    let help = said(&mut catalog, ".help me");
    assert_eq!(help.lines().count(), 12);
    assert!(help.starts_with("Available Commands:\n  .cubes                       - List all cubes"));
    assert_eq!(refused(&mut catalog, ".unknown"), "Unknown meta-command.\n");
    assert_eq!(refused(&mut catalog, ". x"), "Unknown meta-command.\n");
}

#[test]
fn cubes_and_dimensions_are_listed() {
    let mut catalog = shop();
    said(&mut catalog, "CREATE ATTRIBUTE TABLE Info (Product STRING, `a \"b` MEASURE)");
    assert_eq!(
        said(&mut catalog, ".cubes"),
        "Cubes in Catalog:\n  - sales [Transactional] (Dims: [\"Geography\", \"Product\"]) [Measure Dim: None]\n  - info [Attribute] (Dims: [\"Product\", \"`a \\\"b`\"]) [Measure Dim: `a \"b`]\n"
    );
    assert_eq!(
        said(&mut catalog, ".dimensions"),
        "Dimensions in Catalog:\n  - Geography (3 members)\n  - Product (1 members)\n  - `a \"b` (0 members)\n"
    );
}

#[test]
fn a_cube_is_dumped() {
    let mut catalog = shop();
    said(&mut catalog, "CREATE ATTRIBUTE TABLE Info (Product STRING, Field MEASURE)");
    assert_eq!(
        said(&mut catalog, ".cube SALES"),
        "======================================\nCube 'Sales' State Dump\n======================================\nType: Transactional (Aggregates)\nMeasure Dimension: None\nDimensions (2):\n  [0] Geography (Size: 3) \n  [1] Product (Size: 1) \nRaw Trie Data:\n    Coords: [2, 1] -> Value: 4\n======================================\n"
    );
    assert_eq!(
        said(&mut catalog, ".cube Info"),
        "======================================\nCube 'Info' State Dump\n======================================\nType: Attribute (No Math)\nMeasure Dimension: Field\nDimensions (2):\n  [0] Product (Size: 1) \n  [1] Field (Size: 0) [MEASURE]\nRaw Trie Data:\n    (Trie is empty)\n======================================\n"
    );
    assert_eq!(refused(&mut catalog, ".cube Nothing"), "Error: Cube 'Nothing' not found.\n");
    assert_eq!(refused(&mut catalog, ".cube"), "Usage: .cube <name>\n");
}

#[test]
fn children_are_put_under_parents_and_taken_away() {
    let mut catalog = shop();
    assert_eq!(said(&mut catalog, ".rollup Geography World 'All Europe' 1"), "Rollup added.\n");
    assert_eq!(
        said(&mut catalog, ".rollup Geography World France 2"),
        "Rollup added. 'France' moved from 'All Europe' to 'World' (one parent per hierarchy).\n"
    );
    assert_eq!(
        refused(&mut catalog, ".rollup Geography World Peru heavy"),
        "Error: weight 'heavy' is not a number.\n"
    );
    assert_eq!(
        refused(&mut catalog, ".rollup Geography World"),
        "Usage: .rollup <dimension> <parent> <child> <weight>\n       (quote names that contain spaces)\n"
    );
    assert_eq!(
        said(&mut catalog, ".detach Geography World France"),
        "Detached 'France' from 'World'.\n"
    );
    assert_eq!(
        refused(&mut catalog, ".detach Geography World France"),
        "Error: 'France' is not a child of 'World'.\n"
    );
    assert_eq!(
        refused(&mut catalog, ".detach Geography World"),
        "Usage: .detach <dimension> <parent> <child>\n"
    );
}

#[test]
fn members_are_deleted() {
    let mut catalog = shop();
    assert_eq!(
        said(&mut catalog, ".drop_member Geography France"),
        "Deleted member 'France' from dimension 'Geography' (data purged from 1 cube(s)).\n"
    );
    assert_eq!(
        refused(&mut catalog, ".delete_member Geography France"),
        "Error: Member 'France' does not exist in dimension 'Geography'.\n"
    );
    assert_eq!(
        refused(&mut catalog, ".delete_member Geography"),
        "Usage: .delete_member <dimension> <member>\n"
    );
}

#[test]
fn numbers_are_spread() {
    let mut catalog = shop();
    assert_eq!(
        said(&mut catalog, ".splash Sales 10 'All Europe' Laptop"),
        "Splashed 10 across 2 leaf cell(s) in 'Sales'.\n"
    );
    assert_eq!(
        said(&mut catalog, ".splash ADD Sales 6 'All Europe' *"),
        "Added 6 across 2 leaf cell(s) in 'Sales'.\n"
    );
    assert_eq!(
        said(&mut catalog, ".splash Sales 1 *"),
        "Splashed 1 across 1 leaf cell(s) in 'Sales'.\n"
    );
    assert_eq!(
        said(&mut catalog, "SELECT Geography, value FROM Sales"),
        "Geography | value\n--------------------\nFrance | 1\nGermany | 8\n\n"
    );
    let usage = "Usage: .splash [ADD] <cube> <value> <m1> [<m2> ...]\n       Use '*' to select a dimension's default member.\n";
    assert_eq!(refused(&mut catalog, ".splash ADD Sales 1"), usage);
    assert_eq!(refused(&mut catalog, ".splash"), usage);
    assert_eq!(
        refused(&mut catalog, ".splash Sales much France"),
        "Error: 'much' is not a number.\n"
    );
    assert_eq!(
        refused(&mut catalog, ".splash Plan 1 France"),
        "Splash failed: Cube 'Plan' not found.\n"
    );
    said(&mut catalog, "CREATE TABLE Plan (Time STRING)");
    assert_eq!(
        refused(&mut catalog, ".splash Plan 1 *"),
        "Splash failed: Dimension 'Time' has no default member; specify a value explicitly.\n"
    );
}

#[test]
fn the_order_of_members_is_shown_and_set() {
    let mut catalog = shop();
    assert_eq!(
        said(&mut catalog, ".order Geography"),
        "Display order for 'Geography':\n  1. All Europe\n  2. France\n  3. Germany\n"
    );
    assert_eq!(
        said(&mut catalog, ".order Geography Germany front"),
        "Moved 'Germany' to front in 'Geography'.\n"
    );
    assert_eq!(
        said(&mut catalog, ".order Geography France before Germany"),
        "Moved 'France' before 'Germany' in 'Geography'.\n"
    );
    assert_eq!(
        refused(&mut catalog, ".order Geography Peru front"),
        "Error: Member 'Peru' does not exist in dimension 'Geography'.\n"
    );
    assert_eq!(
        refused(&mut catalog, ".order Geography France before Peru"),
        "Error: Member 'Peru' does not exist in dimension 'Geography'.\n"
    );
    let usage = "Usage: .order <dimension> [<member> front | <member> before <ref>]\n";
    assert_eq!(refused(&mut catalog, ".order"), usage);
    assert_eq!(refused(&mut catalog, ".order Geography France back"), usage);
    assert_eq!(
        said(&mut catalog, ".order geography"),
        "Display order for 'Geography':\n  1. All Europe\n  2. France\n  3. Germany\n"
    );
    assert_eq!(
        refused(&mut catalog, ".order Nowhere"),
        "Error: Dimension 'Nowhere' not found.\n"
    );
}

#[test]
fn the_name_of_a_hierarchy_stands_for_it_in_commands() {
    let mut catalog: Catalog<Whole> = Catalog::new();
    assert_eq!(catalog.create_hierarchy("Geo", "Ops"), Ok("Geo".to_string()));
    said(&mut catalog, ".rollup Ops WH France 1");
    assert_eq!(catalog.dimensions.len(), 1);
    let france = catalog.dimensions[0].get_id("France").unwrap();
    let below = catalog.dimensions[0].get_leaf_descendants_in(Some("Ops"), "WH");
    assert_eq!(below.len(), 1);
    assert_eq!(below.get(&france), Some(&Whole(1)));
    assert!(catalog.dimensions[0].get_leaf_descendants("WH").is_empty());
    assert_eq!(
        said(&mut catalog, ".order Ops"),
        "Display order for 'Ops':\n  1. WH\n  2. France\n"
    );
    assert_eq!(
        said(&mut catalog, ".tree Ops WH"),
        "Hierarchy for 'WH' in Ops:\n└─ WH (Parent)\n  └─ France (Leaf)\n"
    );
    said(&mut catalog, ".detach Ops WH France");
    assert!(catalog.dimensions[0].get_leaf_descendants_in(Some("Ops"), "WH").is_empty());
    assert_eq!(catalog.dimensions.len(), 1);
}

#[test]
fn a_command_that_reports_an_error_has_failed() {
    let mut catalog: Catalog<Whole> = Catalog::new();
    assert_eq!(refused(&mut catalog, ".tree Nope X"), "Error: Dimension 'Nope' not found.\n");
}

#[test]
fn a_tree_is_shown() {
    let mut catalog = shop();
    assert_eq!(
        said(&mut catalog, ".tree Geography 'all europe'"),
        "Hierarchy for 'all europe' in Geography:\n└─ All Europe (Parent)\n  └─ France (Leaf)\n  └─ Germany (Leaf)\n"
    );
    said(&mut catalog, "CREATE HIERARCHY Ops IN Geography");
    assert_eq!(
        said(&mut catalog, ".tree Geography Ops:France"),
        "Hierarchy for 'Ops:France' in Geography:\n└─ France (Leaf)\n"
    );
    assert_eq!(
        refused(&mut catalog, ".tree Time Jan"),
        "Error: Dimension 'Time' not found.\n"
    );
    assert_eq!(
        said(&mut catalog, ".tree"),
        "Usage: .tree <dimension> <root_member>\nExample: .tree Geography Global\n"
    );
}

#[test]
fn an_endless_tree_is_not_shown() {
    let mut catalog = shop();
    said(&mut catalog, ".rollup Ring a b 1");
    said(&mut catalog, ".rollup Ring b a 1");
    let mut out = String::new();
    assert!(process_command(&mut catalog, ".tree Ring a", &mut out).is_none());
    assert!(process_command(&mut catalog, "-- nothing", &mut out).is_none());
}

#[test]
fn statements_are_executed() {
    let mut catalog = shop();
    assert_eq!(
        said(&mut catalog, "SELECT value FROM Sales WHERE Geography = 'All Europe'"),
        "4\n"
    );
    assert_eq!(refused(&mut catalog, "SELECT value FROM Plan"), "Error: Cube 'Plan' not found\n");
}

#[test]
fn commands_that_need_files_say_so() {
    let mut catalog = shop();
    let mut out = String::new();
    assert!(matches!(process_command(&mut catalog, ".save", &mut out), Some(Step::Save)));
    match process_command(&mut catalog, ".import 'my file.csv' Sales", &mut out) {
        Some(Step::Import { file, cube }) => assert_eq!((file.as_str(), cube.as_str()), ("my file.csv", "Sales")),
        _ => panic!("no import"),
    }
    match process_command(&mut catalog, ".import_pc p.csv Geo", &mut out) {
        Some(Step::ImportPairs { file, dimension }) => {
            assert_eq!((file.as_str(), dimension.as_str()), ("p.csv", "Geo"))
        }
        _ => panic!("no pairs"),
    }
    match process_command(&mut catalog, ".import_lvl l.csv Geo", &mut out) {
        Some(Step::ImportLevels { file, dimension }) => {
            assert_eq!((file.as_str(), dimension.as_str()), ("l.csv", "Geo"))
        }
        _ => panic!("no levels"),
    }
    match process_command(&mut catalog, ".run s.sql", &mut out) {
        Some(Step::Run { file }) => assert_eq!(file, "s.sql"),
        _ => panic!("no script"),
    }
    assert_eq!(out, "Database saved.\n");
    assert_eq!(refused(&mut catalog, ".import f.csv"), "Usage: .import <filepath> <cube>\n");
    assert_eq!(refused(&mut catalog, ".import_pc"), "Usage: .import_pc <file.csv> <dimension>\n");
    assert_eq!(refused(&mut catalog, ".import_lvl"), "Usage: .import_lvl <file.csv> <dimension>\n");
    assert_eq!(refused(&mut catalog, ".run"), "Usage: .run <filepath>\n");
}

#[test]
fn rows_of_a_file_are_imported() {
    let mut catalog = shop();
    let mut out = String::new();
    let data = "G,P,V\nPeru,Phone,7\n";
    assert!(finish_import(&mut catalog, "Sales", "f.csv", Some(data.as_bytes()), &mut out));
    assert!(!finish_import(&mut catalog, "Sales", "f.csv", None, &mut out));
    assert!(!finish_import(&mut catalog, "Plan", "f.csv", None, &mut out));
    let broken = vec![Err("bad".to_string())];
    assert!(!import_rows(&mut catalog, "Sales", "f.csv", Some(&broken), &mut out));
    assert_eq!(
        out,
        "Successfully imported 1 rows into cube 'Sales'.\nImport failed for 'f.csv'.\nCube not found.\nImport failed for 'f.csv'.\n"
    );
    assert_eq!(
        said(&mut catalog, "SELECT value FROM Sales WHERE Geography = 'Peru' AND Product = 'Phone'"),
        "7\n"
    );
}

#[test]
fn parents_and_children_are_imported() {
    let mut catalog = shop();
    let mut out = String::new();
    let data = "Parent,Child,Weight\nAsia,Japan,2\nAsia,China,heavy\nAsia,India\n";
    assert!(finish_pairs(&mut catalog, "Geography", "p.csv", Some(data.as_bytes()), &mut out));
    assert!(!finish_pairs(&mut catalog, "Geography", "p.csv", None, &mut out));
    let broken = vec![
        Ok(strings(&["Asia", "India", "1"])),
        Err("bad".to_string()),
        Ok(strings(&["Asia", "Nepal", "1"])),
    ];
    assert!(!import_pairs(&mut catalog, "Geography", "p.csv", Some(&broken), &mut out));
    assert_eq!(
        out,
        "Imported 2 parent-child relations into 'Geography'.\nCould not open 'p.csv'.\nImport failed: bad CSV row: bad\n"
    );
    assert_eq!(
        said(&mut catalog, ".tree Geography Asia"),
        "Hierarchy for 'Asia' in Geography:\n└─ Asia (Parent)\n  └─ Japan (Leaf) [w: 2]\n  └─ China (Leaf)\n  └─ India (Leaf)\n"
    );
}

#[test]
fn levels_are_imported_past_blanks() {
    let mut catalog: Catalog<Whole> = Catalog::new();
    let mut out = String::new();
    let data = "L1,L2,L3,L4\nAll,Europe,France,Paris\nAll,,Peru, Lima \nEurope,Spain,,\nAlone,,,\n";
    assert!(finish_levels(&mut catalog, "Geo", "l.csv", Some(data.as_bytes()), &mut out));
    assert!(!finish_levels(&mut catalog, "Geo", "l.csv", None, &mut out));
    let broken = vec![Err("bad".to_string())];
    assert!(!import_levels(&mut catalog, "Geo", "l.csv", Some(&broken), &mut out));
    assert_eq!(
        out,
        "Imported 6 level relations into 'Geo'.\nCould not open 'l.csv'.\nImport failed: bad CSV row: bad\n"
    );
    assert_eq!(
        said(&mut catalog, ".tree Geo All"),
        "Hierarchy for 'All' in Geo:\n└─ All (Parent)\n  └─ Europe (Parent)\n    └─ France (Parent)\n      └─ Paris (Leaf)\n    └─ Spain (Leaf)\n  └─ Peru (Parent)\n    └─ Lima (Leaf)\n"
    );
}
