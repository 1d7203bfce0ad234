//! A localization table: locale-tagged columnar data (a CSV text or file,
//! or a spreadsheet grid) is parsed into a key-to-text mapping for one
//! active locale, served by lookups that fall back to the key itself, with
//! a locale-switch protocol that re-derives the mapping from the table's
//! recorded source.

pub mod csv_data;
pub mod locale;
pub mod table;
pub mod text;

pub use locale::LocaleCode;
pub use table::SwitchAction;
pub use table::TableFile;
pub use table::TranslationError;
pub use table::Translations;
pub use text::is_space_char;
pub use text::spec_trim;
pub use text::trim_str;
