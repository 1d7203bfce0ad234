use translation_table::SwitchAction;
use translation_table::TableFile;
use translation_table::TranslationError;
use translation_table::Translations;

const CSV_DATA_RAW: &str = "key, en, es\nhello, hello, hola,\ngreen, green, verde";

fn direct_pairs() -> Vec<(String, String)> {
    vec![
        ("hello".to_string(), "hola".to_string()),
        ("green".to_string(), "verde".to_string()),
    ]
}

#[test]
pub fn load_csv_raw() {
    let mut t = Translations::default();
    t.csv_raw(CSV_DATA_RAW.to_string(), "en");
    validate_translation_data(&mut t);
}

#[test]
fn load_data_raw() {
    let locales = vec!["es".to_string()];
    let mappings = direct_pairs();

    let mut t = Translations::default();
    t.data(locales, mappings, true);
    assert_eq!(t.tr("hello"), "hola");
    assert_eq!(t.tr("green"), "verde");
    assert_eq!(t.tr("invalid"), "invalid");
}

fn validate_translation_data(trans: &mut Translations) {
    assert!(matches!(trans.use_locale("en"), Ok(SwitchAction::Done)));
    assert_eq!(trans.tr("hello"), "hello");
    assert_eq!(trans.tr("green"), "green");
    assert_eq!(trans.tr("invalid"), "invalid");

    assert!(matches!(trans.use_locale("es"), Ok(SwitchAction::Done)));
    assert_eq!(trans.tr("hello"), "hola");
    assert_eq!(trans.tr("green"), "verde");
    assert_eq!(trans.tr("invalid"), "invalid");
}

#[test]
fn lookup_falls_back_to_key() {
    let mut t = Translations::new();
    t.data(vec!["es".to_string()], direct_pairs(), true);
    assert_eq!(t.tr("invalid"), "invalid");
    assert_eq!(t.tr(""), "");
}

#[test]
fn direct_data_matches_csv_loaded_locale() {
    let mut direct = Translations::new();
    direct.data(vec!["es".to_string()], direct_pairs(), true);

    let mut from_csv = Translations::new();
    from_csv.csv_raw(CSV_DATA_RAW.to_string(), "es");

    for key in ["hello", "green", "invalid"] {
        assert_eq!(direct.tr(key), from_csv.tr(key));
    }
}

#[test]
fn switch_twice_is_idempotent() {
    let mut t = Translations::new();
    t.csv_raw(CSV_DATA_RAW.to_string(), "en");
    assert!(matches!(t.use_locale("es"), Ok(SwitchAction::Done)));
    let first = t.build();
    assert!(matches!(t.use_locale("es"), Ok(SwitchAction::Done)));
    assert_eq!(t, first);
}

#[test]
fn switch_without_source_is_rejected() {
    let mut t = Translations::new();
    t.data(vec!["es".to_string()], direct_pairs(), true);
    let before = t.build();
    let r = t.use_locale("es");
    assert_eq!(r, Err(TranslationError::NoReloadableSource));
    assert_eq!(t, before);
    assert_eq!(t.tr("hello"), "hola");
}

#[test]
fn switch_to_absent_locale_is_rejected() {
    let mut t = Translations::new();
    t.csv_raw(CSV_DATA_RAW.to_string(), "en");
    let before = t.build();
    let r = t.use_locale("xx");
    assert_eq!(r, Err(TranslationError::LocaleNotAvailable));
    assert_eq!(t, before);
    assert_eq!(t.tr("hello"), "hello");
}

#[test]
fn absent_target_defaults_to_first_column() {
    let mut t = Translations::new();
    t.csv_raw(CSV_DATA_RAW.to_string(), "zz");
    assert_eq!(t.tr("hello"), "hello");
    assert_eq!(t.tr("green"), "green");
    assert_eq!(t.tr("invalid"), "invalid");
}

#[test]
fn empty_csv_text_loads_nothing() {
    let mut t = Translations::new();
    t.csv_raw(String::new(), "en");
    assert_eq!(t.tr("hello"), "hello");
    assert_eq!(t.use_locale("en"), Err(TranslationError::LocaleNotAvailable));
}

#[test]
fn csv_file_records_path_and_asks_for_reread() {
    let mut t = Translations::new();
    t.csv_file("assets/lang.csv".to_string(), CSV_DATA_RAW.to_string(), "en");
    assert_eq!(t.tr("hello"), "hello");
    let r = t.use_locale("es");
    match r {
        Ok(SwitchAction::ReadCsvFile { path, locale }) => {
            assert_eq!(path, "assets/lang.csv".to_string());
            assert_eq!(locale, "es".to_string());
        }
        other => panic!("expected a re-read request, got {:?}", other),
    }
    assert_eq!(t.tr("hello"), "hello");
}

fn sample_grid() -> Vec<Vec<String>> {
    vec![
        vec!["key".to_string(), "en".to_string(), "es".to_string()],
        vec!["hello".to_string(), "hello".to_string(), "hola".to_string()],
        vec!["green".to_string(), "green".to_string(), "verde".to_string()],
    ]
}

#[test]
fn load_ods_grid() {
    let mut t = Translations::new();
    t.ods_grid("assets/lang.ods".to_string(), sample_grid(), "es");
    assert_eq!(t.tr("hello"), "hola");
    assert_eq!(t.tr("green"), "verde");
    assert_eq!(t.tr("invalid"), "invalid");
    let r = t.use_locale("en");
    match r {
        Ok(SwitchAction::ReadOdsFile { path, locale }) => {
            assert_eq!(path, "assets/lang.ods".to_string());
            assert_eq!(locale, "en".to_string());
        }
        other => panic!("expected a re-read request, got {:?}", other),
    }
}

#[test]
fn ods_grid_finds_locale_case_insensitively() {
    let mut t = Translations::new();
    t.ods_grid("assets/lang.ods".to_string(), sample_grid(), "ES");
    assert_eq!(t.tr("hello"), "hola");
}

#[test]
fn ods_grid_skips_blank_header_cells_but_keeps_columns() {
    let grid = vec![
        vec!["key".to_string(), "".to_string(), "es".to_string()],
        vec!["hello".to_string(), "hello".to_string(), "hola".to_string()],
    ];
    let mut t = Translations::new();
    t.ods_grid("assets/lang.ods".to_string(), grid, "es");
    // the blank cell is not an available locale, but "es" keeps column 2
    assert_eq!(t.tr("hello"), "hola");
    assert_eq!(t.use_locale("en"), Err(TranslationError::LocaleNotAvailable));
}

#[test]
fn merge_without_clearing_keeps_old_keys() {
    let mut t = Translations::new();
    t.data(vec!["es".to_string()], direct_pairs(), true);
    t.data(
        vec!["es".to_string()],
        vec![("blue".to_string(), "azul".to_string())],
        false,
    );
    assert_eq!(t.tr("hello"), "hola");
    assert_eq!(t.tr("blue"), "azul");
}

#[test]
fn data_overwrites_existing_keys() {
    let mut t = Translations::new();
    t.data(vec!["es".to_string()], direct_pairs(), true);
    t.data(
        vec!["es".to_string()],
        vec![("hello".to_string(), "buenas".to_string())],
        false,
    );
    assert_eq!(t.tr("hello"), "buenas");
}

#[test]
fn system_locale_without_source_is_rejected() {
    let mut t = Translations::new();
    let r = t.use_system_locale();
    assert_eq!(r, Err(TranslationError::NoReloadableSource));
}

#[test]
fn build_copies_the_table() {
    let mut t = Translations::new();
    t.csv_raw(CSV_DATA_RAW.to_string(), "es");
    let copy = t.build();
    assert_eq!(copy.tr("hello"), "hola");
    assert_eq!(copy, t);
    assert!(matches!(copy.path, TableFile::CsvRaw(_)));
}
