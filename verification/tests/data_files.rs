use weirdgungamecalc::download::{
    sheet_exports, DownloadStep, SheetExport, CORES_SHEET, PARTS_V2_SHEET, SHEET_ID,
};
use weirdgungamecalc::storage::{
    category_groups, decimal_text, sqlite_path, temporary_file_name, SaveStep,
};
use weirdgungamecalc::table::{penalty_layout, penalty_source, CategoryTable, LoadError, PenaltySource};

fn table(pairs: &[(&str, usize)]) -> CategoryTable {
    CategoryTable::from_pairs(pairs.iter().map(|(n, i)| (n.to_string(), *i)).collect())
}

#[test]
fn sqlite_extension_detection_is_case_insensitive() {
    assert!(sqlite_path("/tmp/.tmpA1b2C3/FULLDATA.SQLITE3"));
}

#[test]
fn data_files_are_told_apart_by_extension() {
    assert!(sqlite_path("full_data.sqlite3"));
    assert!(sqlite_path("data.Sqlite"));
    assert!(sqlite_path("data.DB"));
    assert!(!sqlite_path("legacy.json"));
    assert!(!sqlite_path("sqlite3"));
    assert!(!sqlite_path(""));
}

#[test]
fn negative_sqlite_indices_are_rejected_instead_of_wrapping() {
    let rows = vec![("AR".to_string(), -1i64)];
    assert_eq!(CategoryTable::from_rows(rows).err(), Some(LoadError::NegativeIndex(-1)));
}

#[test]
fn first_negative_category_index_is_reported() {
    let rows = vec![("AR".to_string(), 0i64), ("SMG".to_string(), -1), ("LMG".to_string(), -4)];
    assert_eq!(CategoryTable::from_rows(rows).err(), Some(LoadError::NegativeIndex(-1)));
    let good = CategoryTable::from_rows(vec![("AR".to_string(), 0), ("AR".to_string(), 3)]).unwrap();
    assert_eq!(good.lookup("AR"), Some(3));
    assert_eq!(good.lookup("ar"), None);
}

#[test]
fn out_of_bounds_penalty_indices_are_rejected() {
    let categories = CategoryTable::from_rows(vec![("AR".to_string(), 0)]).unwrap();
    assert_eq!(
        penalty_layout(&vec![(0, 2)], &categories),
        Err(LoadError::OutsideCategoryMatrix(0, 2))
    );
}

#[test]
fn penalty_cells_are_checked_in_order() {
    let categories = table(&[("AR", 0)]);
    assert_eq!(
        penalty_layout(&vec![(0, 0), (0, 2), (-1, 0)], &categories),
        Err(LoadError::OutsideCategoryMatrix(0, 2))
    );
    assert_eq!(
        penalty_layout(&vec![(0, -3)], &categories),
        Err(LoadError::NegativeIndex(-3))
    );
}

#[test]
fn sparse_penalty_cells_default_to_neutral_multiplier() {
    let categories = table(&[("AR", 0), ("SMG", 1)]);
    // The cell (0, 1) of [[1.0, 0.75], [0.8, 1.0]] was deleted.
    let cells = vec![(0i64, 0i64, 1.0f64), (1, 0, 0.8), (1, 1, 1.0)];
    let coords = cells.iter().map(|(r, c, _)| (*r, *c)).collect::<Vec<_>>();
    let layout = penalty_layout(&coords, &categories).unwrap();
    assert_eq!(layout, vec![vec![Some(0), None], vec![Some(1), Some(2)]]);
    let penalties = layout
        .iter()
        .map(|row| row.iter().map(|cell| cell.map_or(1.0, |k| cells[k].2)).collect::<Vec<f64>>())
        .collect::<Vec<_>>();
    assert_eq!(penalties[0][0], 1.0);
    assert_eq!(penalties[0][1], 1.0);
    assert_eq!(penalties[1][0], 0.8);
}

#[test]
fn later_penalty_cells_win_and_empty_tables_stay_empty() {
    let categories = table(&[("AR", 0), ("SMG", 1)]);
    let repeated = penalty_layout(&vec![(0, 0), (0, 0)], &categories).unwrap();
    assert_eq!(repeated, vec![vec![Some(1)]]);
    assert!(penalty_layout(&vec![], &categories).unwrap().is_empty());
}

#[test]
fn penalty_source_follows_name_category_and_row() {
    let categories = table(&[("AR", 0), ("SMG", 1)]);
    assert_eq!(penalty_source("Core", "Core", "AR", &categories, Some(2)), PenaltySource::Zero);
    assert_eq!(penalty_source("Core", "Grip", "SMG", &categories, Some(2)), PenaltySource::Cell(1));
    assert_eq!(penalty_source("Core", "Grip", "SMG", &categories, Some(1)), PenaltySource::Neutral);
    assert_eq!(penalty_source("Core", "Grip", "Weird", &categories, Some(2)), PenaltySource::Neutral);
    assert_eq!(penalty_source("Core", "Grip", "AR", &categories, None), PenaltySource::Neutral);
}

#[test]
fn export_urls_use_the_sheet_and_tab() {
    let export = SheetExport::new("123".to_string(), "out.csv".to_string());
    assert_eq!(
        export.export_url("SHEET"),
        "https://docs.google.com/spreadsheets/d/SHEET/export?format=csv&id=SHEET&gid=123"
    );
    let mut overridden = export.clone();
    overridden.url_override = Some("http://localhost/x.csv".to_string());
    assert_eq!(overridden.export_url("SHEET"), "http://localhost/x.csv");
}

#[test]
fn both_tabs_are_downloaded_cores_first() {
    let exports = sheet_exports();
    assert_eq!(exports.len(), 2);
    assert_eq!(exports[0].output_path, CORES_SHEET);
    assert_eq!(exports[1].output_path, PARTS_V2_SHEET);
    assert!(exports[1].export_url(SHEET_ID).ends_with("&gid=319672878"));
}

#[test]
fn download_fetches_everything_before_touching_the_folder() {
    let mut step = DownloadStep::first(2);
    let mut trace = vec![step];
    while step != DownloadStep::Done {
        step = step.next(2, true);
        trace.push(step);
    }
    assert_eq!(
        trace,
        vec![
            DownloadStep::Fetch(0),
            DownloadStep::Fetch(1),
            DownloadStep::ClearFolder,
            DownloadStep::Write(0),
            DownloadStep::Write(1),
            DownloadStep::Done,
        ]
    );
    assert_eq!(DownloadStep::Fetch(1).next(2, false), DownloadStep::Failed);
    assert_eq!(DownloadStep::Failed.next(2, true), DownloadStep::Failed);
    assert_eq!(DownloadStep::first(0), DownloadStep::ClearFolder);
    assert_eq!(DownloadStep::ClearFolder.next(0, true), DownloadStep::Done);
}

#[test]
fn failed_generation_does_not_destroy_existing_database() {
    let step = SaveStep::first();
    assert_eq!(step, SaveStep::PrepareDirectory);
    let step = step.next(true);
    assert_eq!(step, SaveStep::RemoveStaleTemp);
    let step = step.next(true);
    assert_eq!(step, SaveStep::WriteTemp);
    let failed = step.next(false);
    assert_eq!(failed, SaveStep::DiscardTemp);
    assert_eq!(failed.next(true), SaveStep::Failed);
    let step = step.next(true);
    assert_eq!(step, SaveStep::RemoveOld);
    assert_eq!(step.next(true), SaveStep::Replace);
    assert_eq!(SaveStep::Replace.next(true), SaveStep::Done);
    assert_eq!(SaveStep::Replace.next(false), SaveStep::Failed);
}

#[test]
fn temporary_database_names_carry_the_process() {
    assert_eq!(decimal_text(0), "0");
    assert_eq!(decimal_text(4_294_967_295), "4294967295");
    assert_eq!(temporary_file_name("FullData.sqlite3", 4021), ".FullData.sqlite3.4021.tmp");
}

#[test]
fn category_groups_cover_every_weapon_class() {
    let groups = category_groups();
    assert_eq!(groups.len(), 2);
    assert_eq!(groups[0].0, "Primary");
    assert_eq!(groups[0].1.len(), 7);
    assert_eq!(groups[0].1[3], ("Shotgun".to_string(), 3));
    assert_eq!(groups[1].0, "Secondary");
    assert_eq!(groups[1].1, vec![("Sidearm".to_string(), 7)]);
}
