use weirdgungamecalc::numeric::{normalize_numeric_value, NumericTerm, NumericValue};
use weirdgungamecalc::sheet::{
    detect_price_type, extract_leading_token, price_type_with_upper, CoreRecord, CoresParser,
    ParseError, PartRecord, PartsParser,
};
use weirdgungamecalc::sheet_source::{drop_notes, read_csv_rows, rows_from_records, SheetError};

fn term_value(term: &NumericTerm) -> f64 {
    match term {
        NumericTerm::Number(text) => text.parse().unwrap(),
        NumericTerm::Product(left, right) => {
            left.parse::<f64>().unwrap() * right.parse::<f64>().unwrap()
        }
    }
}

fn single_value(value: &NumericValue) -> Option<f64> {
    match value {
        NumericValue::Single(term) => Some(term_value(term)),
        _ => None,
    }
}

fn range_values(value: &NumericValue) -> Option<(f64, Option<f64>)> {
    match value {
        NumericValue::Range(low, high) => Some((term_value(low), high.as_ref().map(term_value))),
        _ => None,
    }
}

fn part_property<'a>(part: &'a PartRecord, name: &str) -> Option<&'a NumericValue> {
    part.properties.iter().find(|p| p.name == name).map(|p| &p.value)
}

fn core_property<'a>(core: &'a CoreRecord, name: &str) -> Option<&'a NumericValue> {
    core.properties.iter().find(|p| p.name == name).map(|p| &p.value)
}

fn row(cells: &[&str], width: usize) -> Vec<String> {
    let mut out = vec![String::new(); width];
    for (i, cell) in cells.iter().enumerate() {
        out[i] = cell.to_string();
    }
    out
}

#[test]
fn normalizes_values() {
    assert_eq!(single_value(&normalize_numeric_value("10", false).unwrap()), Some(10.0));
    assert_eq!(single_value(&normalize_numeric_value("2x3", false).unwrap()), Some(6.0));
    assert_eq!(single_value(&normalize_numeric_value("  12.5% ", false).unwrap()), Some(12.5));
    assert!(matches!(normalize_numeric_value("🎲", false).unwrap(), NumericValue::Null));
    assert_eq!(
        range_values(&normalize_numeric_value("5 - 10", true).unwrap()),
        Some((5.0, Some(10.0)))
    );
}

#[test]
fn detects_price_aliases() {
    assert_eq!(detect_price_type(""), "Coin");
    assert_eq!(detect_price_type("Weird Boxes"), "WC");
    assert_eq!(detect_price_type("Exclusive Weird Boxes"), "Robux");
    assert_eq!(detect_price_type("12345"), "Coin");
    assert_eq!(detect_price_type("mystery"), "Unknown");
}

#[test]
fn parses_parts_rows() {
    let mut header = vec![String::new(); 17];
    header[0] = "Coin".into();
    header[1] = "AR Barrels".into();
    let mut part = vec![String::new(); 17];
    part[0] = "WC".into();
    part[1] = "Test Barrel".into();
    part[2] = "10 stat".into();
    let output = PartsParser::new().parse_rows(&vec![header, part]).unwrap();
    assert_eq!(output.barrels.len(), 1);
    assert_eq!(output.barrels[0].name, "Test Barrel");
    assert_eq!(
        part_property(&output.barrels[0], "Magazine_Size").and_then(single_value),
        Some(10.0)
    );
}

#[test]
fn rejects_duplicate_parts() {
    let mut rows = Vec::new();
    let mut header = vec![String::new(); 17];
    header[0] = "Coin".into();
    header[1] = "AR Barrels".into();
    rows.push(header);
    for _ in 0..2 {
        let mut part = vec![String::new(); 17];
        part[0] = "Coin".into();
        part[1] = "Dup".into();
        part[2] = "10 stat".into();
        rows.push(part);
    }
    assert!(PartsParser::new().parse_rows(&rows).is_err());
}

#[test]
fn cores_accept_extra_columns() {
    let row = vec!["Coin","Test Core","10 - 8","100 - 80","","","","","","","","","","","1 - 1","1 - 1","1 - 1","1 - 1","ignored extra"]
        .into_iter().map(str::to_string).collect::<Vec<_>>();
    let output = CoresParser.parse_rows(&vec![row]).unwrap();
    assert_eq!(output.len(), 1);
    assert_eq!(output[0].name, "Test Core");
    assert_eq!(output[0].category, "AR");
    assert_eq!(
        core_property(&output[0], "Damage").and_then(range_values),
        Some((10.0, Some(8.0)))
    );
}

#[test]
fn normalize_strips_units_and_reads_open_ranges() {
    assert_eq!(single_value(&normalize_numeric_value("600rpm", false).unwrap()), Some(600.0));
    assert_eq!(single_value(&normalize_numeric_value("1,250", false).unwrap()), Some(1250.0));
    assert_eq!(single_value(&normalize_numeric_value("45°", false).unwrap()), Some(45.0));
    assert_eq!(
        range_values(&normalize_numeric_value("30 >", true).unwrap()),
        Some((30.0, None))
    );
    assert_eq!(
        range_values(&normalize_numeric_value("10x8 > 5x8", true).unwrap()),
        Some((80.0, Some(40.0)))
    );
    assert!(matches!(normalize_numeric_value("   ", true).unwrap(), NumericValue::Null));
}

#[test]
fn normalize_reports_bad_numbers_and_ranges() {
    assert_eq!(
        normalize_numeric_value("abc", false),
        Err(ParseError::InvalidNumber("abc".into()))
    );
    assert_eq!(
        normalize_numeric_value("12", true),
        Err(ParseError::ExpectedRange("12".into()))
    );
    assert!(matches!(
        normalize_numeric_value("1x", false),
        Err(ParseError::InvalidNumber(_))
    ));
}

#[test]
fn price_types_are_capitalised_and_recognised() {
    assert_eq!(detect_price_type("coin"), "Coin");
    assert_eq!(detect_price_type("  ROBUX "), "Robux");
    assert_eq!(detect_price_type("Spin"), "Spin");
    assert_eq!(detect_price_type("5 WC"), "WC");
    assert_eq!(detect_price_type("1,500"), "Coin");
    assert_eq!(price_type_with_upper("missions", "M"), "Missions");
    assert_eq!(price_type_with_upper("free", "f"), "Unknown");
}

#[test]
fn leading_token_needs_a_space() {
    assert_eq!(extract_leading_token("10 stat"), Ok("10".to_string()));
    assert_eq!(extract_leading_token("-3 % x"), Ok("-3".to_string()));
    assert_eq!(
        extract_leading_token("10"),
        Err(ParseError::InvalidPropertyCell("10".into()))
    );
}

#[test]
fn parts_rows_report_each_error() {
    let short = vec![vec!["Coin".to_string(), "AR Barrels".to_string()]];
    assert_eq!(
        PartsParser::new().parse_rows(&short),
        Err(ParseError::InvalidPartsRowLength(2))
    );
    let orphan = vec![row(&["Coin", "Lonely Grip", "10 stat"], 17)];
    assert_eq!(PartsParser::new().parse_rows(&orphan), Err(ParseError::PartBeforeHeader));
    let bad_cell = vec![row(&["Coin", "SMG Grips"], 17), row(&["Coin", "Grip", "10"], 17)];
    assert_eq!(
        PartsParser::new().parse_rows(&bad_cell),
        Err(ParseError::InvalidPropertyCell("10".into()))
    );
}

#[test]
fn parts_rows_fill_sections_by_divider() {
    let rows = vec![
        row(&["Coin", "SMG Grips"], 17),
        row(&["coin", "Grip A", "", "", "5 dmg"], 17),
        vec![],
        row(&["Robux", "Sniper Stocks"], 17),
        row(&["Spin", "Stock A", "", "", "", "", "", "", "", "", "", "", "", "", "", "2 x"], 17),
        row(&["Coin", "LMG Magazines"], 17),
        row(&["Coin", "Grip A", "30 rounds"], 17),
    ];
    let output = PartsParser::new().parse_rows(&rows).unwrap();
    assert_eq!(output.grips.len(), 1);
    assert_eq!(output.grips[0].category, "SMG");
    assert_eq!(output.grips[0].price_type, "Coin");
    assert_eq!(part_property(&output.grips[0], "Damage").and_then(single_value), Some(5.0));
    assert_eq!(output.stocks.len(), 1);
    assert_eq!(output.stocks[0].category, "Sniper");
    assert_eq!(part_property(&output.stocks[0], "Spread").and_then(single_value), Some(2.0));
    assert_eq!(output.magazines.len(), 1);
    assert_eq!(output.magazines[0].category, "LMG");
    assert!(output.barrels.is_empty());
}

#[test]
fn parts_parser_remembers_names_across_calls() {
    let rows = vec![row(&["Coin", "AR Barrels"], 17), row(&["Coin", "Twice"], 17)];
    let mut parser = PartsParser::default();
    assert!(parser.parse_rows(&rows).is_ok());
    assert_eq!(
        parser.parse_rows(&rows),
        Err(ParseError::DuplicatePart("Twice".into()))
    );
    let other_category = vec![row(&["Coin", "BR Barrels"], 17), row(&["Coin", "Twice"], 17)];
    assert!(parser.parse_rows(&other_category).is_ok());
}

#[test]
fn cores_rows_track_category_headers_and_pellets() {
    let mut header = row(&["", "Shotgun Cores"], 18);
    header[2] = "ignored".into();
    let shotgun = row(&["WC", "Pump", "10x8 > 5x8"], 18);
    let bad_header = row(&["", "Laser Cores"], 18);
    let rows = vec![header, shotgun, bad_header];
    let cores = CoresParser.parse_rows(&rows).unwrap();
    assert_eq!(cores.len(), 2);
    assert_eq!(cores[0].name, "Pump");
    assert_eq!(cores[0].category, "Shotgun");
    assert_eq!(cores[0].pellets, Some(8));
    assert_eq!(
        core_property(&cores[0], "Damage").and_then(range_values),
        Some((80.0, Some(40.0)))
    );
    assert_eq!(cores[1].name, "Laser Cores");
    assert_eq!(cores[1].category, "Shotgun");
    assert_eq!(cores[1].pellets, None);
    assert_eq!(
        CoresParser.parse_rows(&vec![row(&["Coin", "Short"], 17)]),
        Err(ParseError::InvalidCoresRowLength(17))
    );
}

#[test]
fn csv_rows_skip_headers_and_first_column() {
    let bytes = b"title,x\nhead,er\nA,1,2\nB,3\n";
    let rows = read_csv_rows(bytes, 2, true).unwrap();
    assert_eq!(rows, vec![vec!["1".to_string(), "2".to_string()], vec!["3".to_string()]]);
    let untrimmed = read_csv_rows(bytes, 3, false).unwrap();
    assert_eq!(untrimmed, vec![vec!["B".to_string(), "3".to_string()]]);
    assert!(read_csv_rows(bytes, 10, true).unwrap().is_empty());
}

#[test]
fn csv_errors_count_only_after_the_skipped_rows() {
    let bytes = b"\xff\xfe\nok,1\n";
    assert!(read_csv_rows(bytes, 0, false).is_err());
    let rows = read_csv_rows(bytes, 1, false).unwrap();
    assert_eq!(rows, vec![vec!["ok".to_string(), "1".to_string()]]);
}

#[test]
fn parts_csv_stops_at_the_notes() {
    let mut text = String::from("h1\nh2\n");
    text.push_str(&format!("x,Coin,AR Barrels{}\n", ",".repeat(15)));
    text.push_str(&format!("x,Coin,Long Barrel,12 stat{}\n", ",".repeat(14)));
    text.push_str("x,Coin,Notable changes,whatever\n");
    text.push_str("x,not,a,parts,row\n");
    let mut parser = PartsParser::new();
    let output = parser.parse_file(text.as_bytes()).unwrap();
    assert_eq!(output.barrels.len(), 1);
    assert_eq!(output.barrels[0].name, "Long Barrel");
    assert!(matches!(
        PartsParser::new().parse_file(b"a\nb\nx,y\n"),
        Err(SheetError::Parse(ParseError::InvalidPartsRowLength(1)))
    ));
}

#[test]
fn cores_csv_reads_after_two_header_rows() {
    let mut text = String::from("h1\nh2\n");
    text.push_str(&format!("x,Coin,Core One,20 - 10{}\n", ",".repeat(15)));
    let cores = CoresParser.parse_file(text.as_bytes()).unwrap();
    assert_eq!(cores.len(), 1);
    assert_eq!(cores[0].name, "Core One");
    assert!(matches!(CoresParser.parse_file(b"h\nh\n\xff\n"), Err(SheetError::Csv(_))));
}

fn strings(cells: &[&str]) -> Vec<String> {
    cells.iter().map(|c| c.to_string()).collect()
}

#[test]
fn records_become_rows_after_the_header() {
    let items = vec![Ok(strings(&["title"])), Ok(strings(&["x", "1", "2"])), Ok(vec![])];
    assert_eq!(
        rows_from_records(items, 1, true).unwrap(),
        vec![strings(&["1", "2"]), vec![]]
    );
    let kept = vec![Ok(strings(&["a", "b"]))];
    assert_eq!(rows_from_records(kept, 0, false).unwrap(), vec![strings(&["a", "b"])]);
}

#[test]
fn notes_end_the_parts_rows() {
    let mut rows = vec![
        strings(&["Coin", "Notable"]),
        strings(&["Coin", "Barrel"]),
        strings(&["x", "Notable changes"]),
        strings(&["y", "after"]),
    ];
    drop_notes(&mut rows);
    assert_eq!(rows, vec![strings(&["Coin", "Notable"]), strings(&["Coin", "Barrel"])]);
    let mut untouched = vec![strings(&["Notable thing"])];
    drop_notes(&mut untouched);
    assert_eq!(untouched.len(), 1);
}

#[test]
fn price_types_are_known_and_stable() {
    let kinds = [
        "Coin", "WC", "Follow", "Robux", "Free", "Spin", "Limited", "Missions", "Verify discord",
        "Season Pass 1", "Unknown",
    ];
    for kind in kinds {
        assert_eq!(detect_price_type(kind), kind);
        assert_eq!(detect_price_type(&format!(" \t{kind}  ")), kind);
    }
    for cell in ["", "mystery", "robux", "3 WC", "1,000", "Weird Boxes", "Exclusive Weird Boxes"] {
        let kind = detect_price_type(cell);
        assert!(kinds.contains(&kind.as_str()));
        assert_eq!(detect_price_type(&kind), kind);
    }
}

#[test]
fn ascii_prices_are_capitalised_before_the_wc_rule() {
    assert_eq!(detect_price_type("robux"), "Robux");
    assert_eq!(detect_price_type("mISSIONS"), "Missions");
    assert_eq!(detect_price_type("season pass 1"), "Unknown");
    assert_eq!(detect_price_type("WCord"), "WC");
    assert_eq!(detect_price_type("1,000"), "Coin");
}
