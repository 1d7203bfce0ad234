//! The translation table: the active locale, a record of where the data
//! came from, the locales available in that source, and the derived
//! key-to-text mapping for the active locale.

use vstd::prelude::*;
use vstd::pervasive::VecAdditionalExecFns;
use vstd::string::StrSliceExecFns;

use crate::csv_data::csv_parse_rows;
use crate::csv_data::csv_rows_of;
use crate::locale::LocaleCode;
use crate::locale::code_view;
use crate::locale::codes_eq;
use crate::locale::spec_canonical;
use crate::locale::spec_parse;
use crate::text::spec_trim;
use crate::text::str_eq;
use crate::text::trim_str;

verus! {

/// The supported kinds of table storage; the stored path or text lets a
/// later locale switch re-run the same loading procedure.
#[derive(Debug, PartialEq, Eq, PartialOrd, Ord)]
pub enum TableFile {
    /// A CSV file, by path.
    Csv(String),
    /// Raw text in CSV format, retained whole.
    CsvRaw(String),
    /// A spreadsheet file, by path.
    Ods(String),
    /// No reloadable source: switching locale is rejected.
    NoSource,
}

/// Why a load or switch was rejected; the table is left unchanged.
#[derive(Clone, Copy, Debug, PartialEq, Eq)]
pub enum TranslationError {
    /// The source file is missing or unreadable.
    SourceUnavailable,
    /// The source decoded to nothing usable.
    SourceMalformed,
    /// The requested locale is absent from the available locales.
    LocaleNotAvailable,
    /// The table was built from direct data and records no source.
    NoReloadableSource,
}

/// What a locale switch asks of its caller: nothing more, or a re-read of
/// the recorded source file with the given target locale.
#[derive(Debug, PartialEq, Eq)]
pub enum SwitchAction {
    /// The switch completed from the retained raw text.
    Done,
    /// Re-read this CSV file and hand its text to `csv_file`.
    ReadCsvFile { path: String, locale: String },
    /// Re-read this spreadsheet's grid and hand it to `ods_grid`.
    ReadOdsFile { path: String, locale: String },
}

/// The main table type that stores translation data.
#[derive(Debug, PartialEq)]
pub struct Translations {
    /// The currently active locale.
    pub locale: LocaleCode,
    /// Where the data was last loaded from.
    pub path: TableFile,
    /// The locales the source offers, in column order.
    pub available_locales: Vec<LocaleCode>,
    /// The key-to-text pairs for the active locale.
    pub mappings: Vec<(String, String)>,
}

/// The mapping that a sequence of key-value pairs denotes; a later pair
/// overrides an earlier one with the same key.
pub open spec fn map_of(m: Seq<(String, String)>) -> Map<Seq<char>, Seq<char>>
    decreases m.len(),
{
    if m.len() == 0 {
        Map::empty()
    } else {
        map_of(m.drop_last()).insert(m.last().0@, m.last().1@)
    }
}

/// The mapping after inserting each pair in order, keys and values trimmed.
pub open spec fn insert_pairs(
    m: Map<Seq<char>, Seq<char>>,
    pairs: Seq<(String, String)>,
) -> Map<Seq<char>, Seq<char>>
    decreases pairs.len(),
{
    if pairs.len() == 0 {
        m
    } else {
        insert_pairs(
            m.insert(spec_trim(pairs[0].0@), spec_trim(pairs[0].1@)),
            pairs.drop_first(),
        )
    }
}

/// A key is in the mapping exactly when some pair holds it.
pub proof fn lemma_map_of_contains(m: Seq<(String, String)>, key: Seq<char>)
    ensures
        map_of(m).contains_key(key) <==> exists|i: int| 0 <= i < m.len() && m[i].0@ == key,
    decreases m.len(),
{
    if m.len() > 0 {
        lemma_map_of_contains(m.drop_last(), key);
        if m.last().0@ == key {
            assert(m[m.len() - 1].0@ == key);
        } else {
            if map_of(m).contains_key(key) {
                let i = choose|i: int| 0 <= i < m.drop_last().len() && m.drop_last()[i].0@ == key;
                assert(m[i].0@ == key);
            }
            if exists|i: int| 0 <= i < m.len() && m[i].0@ == key {
                let i = choose|i: int| 0 <= i < m.len() && m[i].0@ == key;
                assert(i < m.len() - 1);
                assert(m.drop_last()[i].0@ == key);
            }
        }
    }
}

/// With unique keys, the pair at any index gives that key's value.
pub proof fn lemma_map_of_value(m: Seq<(String, String)>, i: int)
    requires
        0 <= i < m.len(),
        forall|a: int, b: int| 0 <= a < b < m.len() ==> m[a].0@ != m[b].0@,
    ensures
        map_of(m).contains_key(m[i].0@),
        map_of(m)[m[i].0@] == m[i].1@,
    decreases m.len(),
{
    if i < m.len() - 1 {
        lemma_map_of_value(m.drop_last(), i);
        assert(m[i].0@ != m[m.len() - 1].0@);
    }
}

/// With unique keys, replacing the pair that holds a key is insertion.
proof fn lemma_map_of_update(m: Seq<(String, String)>, i: int, k: String, v: String)
    requires
        0 <= i < m.len(),
        m[i].0@ == k@,
        forall|a: int, b: int| 0 <= a < b < m.len() ==> m[a].0@ != m[b].0@,
    ensures
        map_of(m.update(i, (k, v))) == map_of(m).insert(k@, v@),
    decreases m.len(),
{
    let mu = m.update(i, (k, v));
    if i == m.len() - 1 {
        assert(mu.drop_last() =~= m.drop_last());
        assert(map_of(mu) =~= map_of(m).insert(k@, v@));
    } else {
        assert(mu.drop_last() =~= m.drop_last().update(i, (k, v)));
        lemma_map_of_update(m.drop_last(), i, k, v);
        assert(m[i].0@ != m[m.len() - 1].0@);
        assert(mu.last() == m.last());
        assert(map_of(mu) =~= map_of(m).insert(k@, v@));
    }
}

/// Folding one more pair onto the end inserts that pair last.
proof fn lemma_insert_pairs_snoc(
    m: Map<Seq<char>, Seq<char>>,
    pairs: Seq<(String, String)>,
    p: (String, String),
)
    ensures
        insert_pairs(m, pairs.push(p)) == insert_pairs(m, pairs).insert(
            spec_trim(p.0@),
            spec_trim(p.1@),
        ),
    decreases pairs.len(),
{
    let ps = pairs.push(p);
    assert(ps.len() == pairs.len() + 1);
    if pairs.len() == 0 {
        assert(ps[0] == p);
        assert(ps.drop_first() =~= Seq::<(String, String)>::empty());
        assert(insert_pairs(m, ps) == insert_pairs(
            m.insert(spec_trim(p.0@), spec_trim(p.1@)),
            ps.drop_first(),
        ));
        assert(insert_pairs(m, pairs) == m);
    } else {
        assert(ps[0] == pairs[0]);
        assert(ps.drop_first() =~= pairs.drop_first().push(p));
        let m2 = m.insert(spec_trim(pairs[0].0@), spec_trim(pairs[0].1@));
        assert(insert_pairs(m, ps) == insert_pairs(m2, ps.drop_first()));
        assert(insert_pairs(m, pairs) == insert_pairs(m2, pairs.drop_first()));
        lemma_insert_pairs_snoc(m2, pairs.drop_first(), p);
    }
}

impl Translations {
    /// The table's well-formedness: no two pairs hold the same key.
    pub open spec fn wf(self) -> bool {
        forall|i: int, j: int|
            0 <= i < j < self.mappings@.len() ==> self.mappings@[i].0@ != self.mappings@[j].0@
    }

    /// A freshly created table: no locale, no source, nothing mapped.
    pub open spec fn is_empty_table(self) -> bool {
        &&& code_view(self.locale) == (Seq::<char>::empty(), Seq::<char>::empty())
        &&& self.path == TableFile::NoSource
        &&& self.available_locales@ == Seq::<LocaleCode>::empty()
        &&& self.mappings@ == Seq::<(String, String)>::empty()
    }

    /// Creates an empty table.
    pub fn new() -> (r: Self)
        ensures
            r.is_empty_table(),
            r.wf(),
    {
        Translations::default()
    }

    /// The index of the first pair holding `k`, when one exists.
    fn find_key(m: &Vec<(String, String)>, k: &str) -> (r: Option<usize>)
        ensures
            r matches Some(i) ==> i < m@.len() && m@[i as int].0@ == k@,
            r is None ==> forall|j: int| 0 <= j < m@.len() ==> m@[j].0@ != k@,
    {
        let n = m.len();
        let mut i: usize = 0;
        while i < n
            invariant
                0 <= i <= n,
                n == m@.len(),
                forall|j: int| 0 <= j < i ==> m@[j].0@ != k@,
            decreases n - i,
        {
            if str_eq(m[i].0.as_str(), k) {
                return Some(i);
            }
            i += 1;
        }
        None
    }

    /// Inserts one pair, overwriting an existing pair with the same key.
    fn store(&mut self, k: String, v: String)
        requires
            old(self).wf(),
        ensures
            final(self).locale == old(self).locale,
            final(self).path == old(self).path,
            final(self).available_locales == old(self).available_locales,
            map_of(final(self).mappings@) == map_of(old(self).mappings@).insert(k@, v@),
            final(self).wf(),
    {
        let found = Self::find_key(&self.mappings, k.as_str());
        match found {
            Some(i) => {
                proof {
                    lemma_map_of_update(self.mappings@, i as int, k, v);
                }
                self.mappings.set(i, (k, v));
            }
            None => {
                proof {
                    let m = self.mappings@;
                    assert(m.push((k, v)).drop_last() =~= m);
                }
                self.mappings.push((k, v));
            }
        }
    }

    /// Loads raw data: the locale list is replaced by the trimmed, parsed
    /// names, and each trimmed key-value pair is merged into the mapping
    /// (cleared first when asked). The active locale and the recorded
    /// source are untouched, so a table built only this way cannot switch
    /// locale.
    pub fn data(
        &mut self,
        locales: Vec<String>,
        mapping: Vec<(String, String)>,
        clear_old_data: bool,
    )
        requires
            old(self).wf(),
        ensures
            final(self).locale == old(self).locale,
            final(self).path == old(self).path,
            final(self).available_locales@.len() == locales@.len(),
            forall|i: int|
                0 <= i < locales@.len() ==> code_view(final(self).available_locales@[i])
                    == spec_parse(spec_trim(locales@[i]@)),
            map_of(final(self).mappings@) == insert_pairs(
                if clear_old_data {
                    Map::<Seq<char>, Seq<char>>::empty()
                } else {
                    map_of(old(self).mappings@)
                },
                mapping@,
            ),
            final(self).wf(),
    {
        if clear_old_data {
            self.available_locales = Vec::new();
            self.mappings = Vec::new();
        }
        let ghost m0 = map_of(self.mappings@);
        let mut avail: Vec<LocaleCode> = Vec::new();
        let mut i: usize = 0;
        while i < locales.len()
            invariant
                0 <= i <= locales@.len(),
                avail@.len() == i,
                forall|j: int|
                    0 <= j < i ==> code_view(avail@[j]) == spec_parse(spec_trim(locales@[j]@)),
            decreases locales@.len() - i,
        {
            let t = trim_str(locales[i].as_str());
            avail.push(LocaleCode::parse(t.as_str()));
            i += 1;
        }
        self.available_locales = avail;
        let mut j: usize = 0;
        while j < mapping.len()
            invariant
                0 <= j <= mapping@.len(),
                self.wf(),
                self.locale == old(self).locale,
                self.path == old(self).path,
                self.available_locales@.len() == locales@.len(),
                forall|q: int|
                    0 <= q < locales@.len() ==> code_view(self.available_locales@[q])
                        == spec_parse(spec_trim(locales@[q]@)),
                map_of(self.mappings@) == insert_pairs(m0, mapping@.take(j as int)),
            decreases mapping@.len() - j,
        {
            let p = &mapping[j];
            let k = trim_str(p.0.as_str());
            let v = trim_str(p.1.as_str());
            proof {
                assert(mapping@.take(j + 1) =~= mapping@.take(j as int).push(mapping@[j as int]));
                lemma_insert_pairs_snoc(m0, mapping@.take(j as int), mapping@[j as int]);
            }
            self.store(k, v);
            j += 1;
        }
        proof {
            assert(mapping@.take(mapping@.len() as int) =~= mapping@);
        }
    }

    /// The short call to acquire a translation: the mapped text for the
    /// key under the active locale, or the key itself when no mapping
    /// exists.
    pub fn tr(&self, key: &str) -> (r: String)
        requires
            self.wf(),
        ensures
            map_of(self.mappings@).contains_key(key@) ==> r@ == map_of(self.mappings@)[key@],
            !map_of(self.mappings@).contains_key(key@) ==> r@ == key@,
    {
        let n = self.mappings.len();
        let mut i: usize = 0;
        while i < n
            invariant
                0 <= i <= n,
                n == self.mappings@.len(),
                self.wf(),
                forall|j: int| 0 <= j < i ==> self.mappings@[j].0@ != key@,
            decreases n - i,
        {
            let p = &self.mappings[i];
            if str_eq(p.0.as_str(), key) {
                proof {
                    lemma_map_of_value(self.mappings@, i as int);
                }
                return p.1.clone();
            }
            i += 1;
        }
        proof {
            lemma_map_of_contains(self.mappings@, key@);
        }
        key.to_owned()
    }

    /// Clones the table, easing insertion into shared state when chaining
    /// configuration calls.
    pub fn build(&self) -> (r: Self)
        ensures
            r.locale == self.locale,
            r.path == self.path,
            r.available_locales@ == self.available_locales@,
            r.mappings@ == self.mappings@,
    {
        self.clone()
    }
}

/// The header row of a parsed table; an empty table has an empty header.
pub open spec fn header_row(rows: Seq<Seq<Seq<char>>>) -> Seq<Seq<char>> {
    if rows.len() > 0 {
        rows[0]
    } else {
        Seq::empty()
    }
}

/// The rows below the header.
pub open spec fn data_rows(rows: Seq<Seq<Seq<char>>>) -> Seq<Seq<Seq<char>>> {
    if rows.len() > 0 {
        rows.drop_first()
    } else {
        Seq::empty()
    }
}

/// Every cell of a header row, trimmed.
pub open spec fn trim_all(h: Seq<Seq<char>>) -> Seq<Seq<char>> {
    h.map_values(|s: Seq<char>| spec_trim(s))
}

/// `i` is the first position of `h` holding exactly `loc`.
pub open spec fn found_at(h: Seq<Seq<char>>, loc: Seq<char>, i: int) -> bool {
    &&& 0 <= i < h.len()
    &&& h[i] == loc
    &&& forall|j: int| 0 <= j < i ==> h[j] != loc
}

/// The column of `loc` in `h` by exact, case-sensitive comparison; a
/// locale that is absent falls back to the first column.
pub open spec fn exact_index(h: Seq<Seq<char>>, loc: Seq<char>) -> int {
    if exists|i: int| found_at(h, loc, i) {
        choose|i: int| found_at(h, loc, i)
    } else {
        0
    }
}

/// The mapping that data rows derive for the column at `li`, inserted onto
/// `m` in row order: each row with more than `li` cells contributes its
/// trimmed first cell as key and its trimmed cell at `li` as value; shorter
/// rows are skipped.
pub open spec fn rows_map_from(
    m: Map<Seq<char>, Seq<char>>,
    rows: Seq<Seq<Seq<char>>>,
    li: int,
) -> Map<Seq<char>, Seq<char>>
    decreases rows.len(),
{
    if rows.len() == 0 {
        m
    } else {
        let r = rows[0];
        let m2 = if r.len() > li {
            m.insert(spec_trim(r[0]), spec_trim(r[li]))
        } else {
            m
        };
        rows_map_from(m2, rows.drop_first(), li)
    }
}

/// The mapping that data rows derive for the column at `li`.
pub open spec fn rows_map(rows: Seq<Seq<Seq<char>>>, li: int) -> Map<Seq<char>, Seq<char>> {
    rows_map_from(Map::empty(), rows, li)
}

/// Folding one more row onto the end contributes that row last.
proof fn lemma_rows_map_snoc(
    m: Map<Seq<char>, Seq<char>>,
    rows: Seq<Seq<Seq<char>>>,
    r: Seq<Seq<char>>,
    li: int,
)
    ensures
        rows_map_from(m, rows.push(r), li) == if r.len() > li {
            rows_map_from(m, rows, li).insert(spec_trim(r[0]), spec_trim(r[li]))
        } else {
            rows_map_from(m, rows, li)
        },
    decreases rows.len(),
{
    let rs = rows.push(r);
    assert(rs.len() == rows.len() + 1);
    if rows.len() == 0 {
        assert(rs[0] == r);
        assert(rs.drop_first() =~= Seq::<Seq<Seq<char>>>::empty());
        if r.len() > li {
            let m2 = m.insert(spec_trim(r[0]), spec_trim(r[li]));
            assert(rows_map_from(m, rs, li) == rows_map_from(m2, rs.drop_first(), li));
            assert(rows_map_from(m2, rs.drop_first(), li) == m2);
        } else {
            assert(rows_map_from(m, rs, li) == rows_map_from(m, rs.drop_first(), li));
            assert(rows_map_from(m, rs.drop_first(), li) == m);
        }
        assert(rows_map_from(m, rows, li) == m);
    } else {
        assert(rs[0] == rows[0]);
        assert(rs.drop_first() =~= rows.drop_first().push(r));
        let m2 = if rows[0].len() > li {
            m.insert(spec_trim(rows[0][0]), spec_trim(rows[0][li]))
        } else {
            m
        };
        assert(rows_map_from(m, rs, li) == rows_map_from(m2, rs.drop_first(), li));
        assert(rows_map_from(m, rows, li) == rows_map_from(m2, rows.drop_first(), li));
        lemma_rows_map_snoc(m2, rows.drop_first(), r, li);
    }
}

/// What a load from CSV-shaped records establishes: the active locale is
/// the parsed target, the available list parses every trimmed header
/// cell in column order, and the mapping is the one the data rows derive
/// for the target's column — the column whose trimmed header cell equals
/// the target exactly, or the first column when none does.
pub open spec fn csv_loaded(post: Translations, rows: Seq<Seq<Seq<char>>>, loc: Seq<char>) -> bool {
    let h = header_row(rows);
    let li = exact_index(trim_all(h), loc);
    &&& code_view(post.locale) == spec_parse(loc)
    &&& post.available_locales@.len() == h.len()
    &&& forall|i: int|
        0 <= i < h.len() ==> code_view(post.available_locales@[i]) == spec_parse(spec_trim(h[i]))
    &&& map_of(post.mappings@) == rows_map(data_rows(rows), li)
}

/// The codes that the non-blank cells of a header row denote, in column
/// order.
pub open spec fn header_codes(h: Seq<Seq<char>>) -> Seq<(Seq<char>, Seq<char>)>
    decreases h.len(),
{
    if h.len() == 0 {
        Seq::empty()
    } else if h.last().len() > 0 {
        header_codes(h.drop_last()).push(spec_parse(h.last()))
    } else {
        header_codes(h.drop_last())
    }
}

/// Both segments of each code in a list.
pub open spec fn code_views(cs: Seq<LocaleCode>) -> Seq<(Seq<char>, Seq<char>)> {
    cs.map_values(|c: LocaleCode| code_view(c))
}

/// `i` is the first column of `h` whose non-blank cell parses to a code
/// equal (case-insensitively) to `code`.
pub open spec fn ods_found_at(h: Seq<Seq<char>>, code: (Seq<char>, Seq<char>), i: int) -> bool {
    &&& 0 <= i < h.len()
    &&& h[i].len() > 0
    &&& codes_eq(spec_parse(h[i]), code)
    &&& forall|j: int| 0 <= j < i ==> !(h[j].len() > 0 && codes_eq(spec_parse(h[j]), code))
}

/// The column of `code` in `h` by case-insensitive locale comparison,
/// blank cells passed over but column positions preserved; a locale that
/// is absent falls back to the first column.
pub open spec fn ods_index(h: Seq<Seq<char>>, code: (Seq<char>, Seq<char>)) -> int {
    if exists|i: int| ods_found_at(h, code, i) {
        choose|i: int| ods_found_at(h, code, i)
    } else {
        0
    }
}

/// What a load from a spreadsheet grid establishes: the active locale is
/// the parsed target, the available list parses the non-blank header
/// cells in column order, and the mapping is the one the data rows derive
/// for the target's column, found case-insensitively at its original
/// column position.
pub open spec fn ods_loaded(post: Translations, grid: Seq<Seq<Seq<char>>>, loc: Seq<char>) -> bool {
    let h = header_row(grid);
    let li = ods_index(h, spec_parse(loc));
    &&& code_view(post.locale) == spec_parse(loc)
    &&& code_views(post.available_locales@) == header_codes(h)
    &&& map_of(post.mappings@) == rows_map(data_rows(grid), li)
}

/// Some code in `avail` equals `code`, case-insensitively.
pub open spec fn avail_has(avail: Seq<LocaleCode>, code: (Seq<char>, Seq<char>)) -> bool {
    exists|i: int| 0 <= i < avail.len() && codes_eq(code_view(avail[i]), code)
}

/// The locale-switch contract. A table without a reloadable source
/// rejects the switch with `NoReloadableSource`; a target absent from the
/// available locales (by case-insensitive comparison) is rejected with
/// `LocaleNotAvailable`; in both cases the table is unchanged. Otherwise
/// a raw-text source is re-parsed at once for the target's canonical
/// form, and a file-backed source leaves the table unchanged and asks the
/// caller to re-read the recorded path.
pub open spec fn switch_post(
    pre: Translations,
    loc: Seq<char>,
    post: Translations,
    r: Result<SwitchAction, TranslationError>,
) -> bool {
    let code = spec_parse(loc);
    let target = spec_canonical(code.0, code.1);
    if pre.path is NoSource {
        r == Result::<SwitchAction, TranslationError>::Err(TranslationError::NoReloadableSource)
            && post == pre
    } else if !avail_has(pre.available_locales@, code) {
        r == Result::<SwitchAction, TranslationError>::Err(TranslationError::LocaleNotAvailable)
            && post == pre
    } else {
        match pre.path {
            TableFile::CsvRaw(text) => {
                &&& r == Result::<SwitchAction, TranslationError>::Ok(SwitchAction::Done)
                &&& post.path == pre.path
                &&& csv_loaded(post, csv_rows_of(text@), target)
                &&& post.wf()
            }
            TableFile::Csv(p) => {
                &&& (r matches Ok(a) && a matches SwitchAction::ReadCsvFile { path, locale }
                    && path@ == p@ && locale@ == target)
                &&& post == pre
            }
            TableFile::Ods(p) => {
                &&& (r matches Ok(a) && a matches SwitchAction::ReadOdsFile { path, locale }
                    && path@ == p@ && locale@ == target)
                &&& post == pre
            }
            TableFile::NoSource => false,
        }
    }
}

/// Two positions that are each the first match are the same position.
proof fn lemma_found_at_unique(h: Seq<Seq<char>>, loc: Seq<char>, i: int, j: int)
    requires
        found_at(h, loc, i),
        found_at(h, loc, j),
    ensures
        i == j,
{
}

/// Two positions that are each the first case-insensitive match are the
/// same position.
proof fn lemma_ods_found_at_unique(h: Seq<Seq<char>>, code: (Seq<char>, Seq<char>), i: int, j: int)
    requires
        ods_found_at(h, code, i),
        ods_found_at(h, code, j),
    ensures
        i == j,
{
}

impl Translations {
    /// The first position of `loc` in `h` by exact comparison, or the
    /// first column when `loc` is absent.
    fn find_exact(h: &Vec<String>, loc: &str) -> (r: usize)
        ensures
            r as int == exact_index(h.deep_view(), loc@),
    {
        let n = h.len();
        let mut i: usize = 0;
        while i < n
            invariant
                0 <= i <= n,
                n == h@.len(),
                forall|j: int| 0 <= j < i ==> h@[j]@ != loc@,
            decreases n - i,
        {
            if str_eq(h[i].as_str(), loc) {
                proof {
                    let hd = h.deep_view();
                    assert(hd[i as int] == h@[i as int]@);
                    assert(forall|j: int| 0 <= j < i ==> hd[j] == h@[j]@);
                    assert(found_at(hd, loc@, i as int));
                    let w = choose|w: int| found_at(hd, loc@, w);
                    lemma_found_at_unique(hd, loc@, w, i as int);
                }
                return i;
            }
            i += 1;
        }
        proof {
            let hd = h.deep_view();
            assert(forall|j: int| 0 <= j < hd.len() ==> hd[j] == h@[j]@);
            assert forall|w: int| !found_at(hd, loc@, w) by {
                if 0 <= w < hd.len() {
                    assert(hd[w] != loc@);
                }
            }
        }
        0
    }

    /// Whether the requested code is among the available locales.
    fn contains_locale(&self, code: &LocaleCode) -> (r: bool)
        ensures
            r == avail_has(self.available_locales@, code_view(*code)),
    {
        let n = self.available_locales.len();
        let mut i: usize = 0;
        while i < n
            invariant
                0 <= i <= n,
                n == self.available_locales@.len(),
                forall|j: int|
                    0 <= j < i ==> !codes_eq(
                        code_view(self.available_locales@[j]),
                        code_view(*code),
                    ),
            decreases n - i,
        {
            let c = &self.available_locales[i];
            if c == code {
                return true;
            }
            i += 1;
        }
        false
    }

    /// The shared tail of the CSV loaders: consumes already-parsed
    /// records, the first of which is the header row of locale names, and
    /// loads the mapping for the target locale's column. The recorded
    /// source is untouched.
    pub fn load_rows(&mut self, rows: Vec<Vec<String>>, locale: &str)
        requires
            old(self).wf(),
        ensures
            final(self).path == old(self).path,
            csv_loaded(*final(self), rows.deep_view(), locale@),
            final(self).wf(),
    {
        let ghost rv = rows.deep_view();
        let mut rows = rows;
        let header: Vec<String> = if rows.len() > 0 {
            rows.remove(0)
        } else {
            Vec::new()
        };
        proof {
            assert(header.deep_view() =~= header_row(rv));
            assert(rows.deep_view() =~= data_rows(rv));
        }
        let ghost dv = rows.deep_view();
        let mut trimmed: Vec<String> = Vec::new();
        let mut t: usize = 0;
        while t < header.len()
            invariant
                0 <= t <= header@.len(),
                trimmed@.len() == t,
                forall|j: int| 0 <= j < t ==> trimmed@[j]@ == spec_trim(header@[j]@),
            decreases header@.len() - t,
        {
            trimmed.push(trim_str(header[t].as_str()));
            t += 1;
        }
        proof {
            assert(trimmed.deep_view() =~= trim_all(header.deep_view()));
        }
        let li = Self::find_exact(&trimmed, locale);
        let ghost lig = exact_index(trim_all(header_row(rv)), locale@);
        let mut pairs: Vec<(String, String)> = Vec::new();
        let mut y: usize = 0;
        while y < rows.len()
            invariant
                0 <= y <= rows@.len(),
                dv == rows.deep_view(),
                li as int == lig,
                insert_pairs(Map::<Seq<char>, Seq<char>>::empty(), pairs@) == rows_map_from(
                    Map::<Seq<char>, Seq<char>>::empty(),
                    dv.take(y as int),
                    lig,
                ),
            decreases rows@.len() - y,
        {
            let r = &rows[y];
            proof {
                assert(dv[y as int] == rows@[y as int].deep_view());
                assert(dv.take(y + 1) =~= dv.take(y as int).push(dv[y as int]));
                lemma_rows_map_snoc(
                    Map::<Seq<char>, Seq<char>>::empty(),
                    dv.take(y as int),
                    dv[y as int],
                    lig,
                );
            }
            if r.len() > li {
                let k = r[0].clone();
                let v = r[li].clone();
                proof {
                    lemma_insert_pairs_snoc(
                        Map::<Seq<char>, Seq<char>>::empty(),
                        pairs@,
                        (k, v),
                    );
                }
                pairs.push((k, v));
            }
            y += 1;
        }
        proof {
            assert(dv.take(rows@.len() as int) =~= dv);
        }
        self.locale = LocaleCode::parse(locale);
        self.data(header, pairs, true);
    }

    /// Loads translation data from a raw string in CSV format for a
    /// particular locale, retaining the text so that the locale can be
    /// switched later.
    pub fn csv_raw(&mut self, csv_data: String, locale: &str)
        requires
            old(self).wf(),
        ensures
            final(self).path == TableFile::CsvRaw(csv_data),
            csv_loaded(*final(self), csv_rows_of(csv_data@), locale@),
            final(self).wf(),
    {
        let rows = csv_parse_rows(csv_data.as_str());
        self.path = TableFile::CsvRaw(csv_data);
        self.load_rows(rows, locale);
    }

    /// Loads translation data from the text of a CSV file for a
    /// particular locale, recording the file's path so that a locale
    /// switch can ask for the file to be read again.
    pub fn csv_file(&mut self, path: String, content: String, locale: &str)
        requires
            old(self).wf(),
        ensures
            final(self).path == TableFile::Csv(path),
            csv_loaded(*final(self), csv_rows_of(content@), locale@),
            final(self).wf(),
    {
        let rows = csv_parse_rows(content.as_str());
        self.path = TableFile::Csv(path);
        self.load_rows(rows, locale);
    }

    /// Loads translation data from a spreadsheet's stringified cell grid
    /// for a particular locale, recording the file's path. Row 0 holds
    /// the locale names, blank cells passed over; the target's column is
    /// found by case-insensitive comparison at its original position.
    pub fn ods_grid(&mut self, path: String, grid: Vec<Vec<String>>, locale: &str)
        requires
            old(self).wf(),
        ensures
            final(self).path == TableFile::Ods(path),
            ods_loaded(*final(self), grid.deep_view(), locale@),
            final(self).wf(),
    {
        let ghost gv = grid.deep_view();
        self.path = TableFile::Ods(path);
        let target = LocaleCode::parse(locale);
        let ghost cv = spec_parse(locale@);
        let mut grid = grid;
        let header: Vec<String> = if grid.len() > 0 {
            grid.remove(0)
        } else {
            Vec::new()
        };
        proof {
            assert(header.deep_view() =~= header_row(gv));
            assert(grid.deep_view() =~= data_rows(gv));
        }
        let ghost hv = header.deep_view();
        let mut avail: Vec<LocaleCode> = Vec::new();
        let mut li: usize = 0;
        let mut found = false;
        let mut x: usize = 0;
        while x < header.len()
            invariant
                0 <= x <= header@.len(),
                hv == header.deep_view(),
                cv == code_view(target),
                code_views(avail@) == header_codes(hv.take(x as int)),
                found ==> ods_found_at(hv, cv, li as int),
                !found ==> li == 0,
                !found ==> forall|j: int|
                    0 <= j < x ==> !(hv[j].len() > 0 && codes_eq(spec_parse(hv[j]), cv)),
            decreases header@.len() - x,
        {
            proof {
                assert(hv[x as int] == header@[x as int]@);
                assert(hv.take(x + 1).drop_last() =~= hv.take(x as int));
                assert(hv.take(x + 1).last() == hv[x as int]);
            }
            let cell = &header[x];
            if !cell.as_str().is_empty() {
                let code = LocaleCode::parse(cell.as_str());
                if !found && code == target {
                    li = x;
                    found = true;
                }
                proof {
                    assert(hv[x as int].len() > 0);
                    assert(header_codes(hv.take(x + 1)) == header_codes(hv.take(x as int)).push(
                        spec_parse(hv[x as int]),
                    ));
                    assert(code_view(code) == spec_parse(hv[x as int]));
                }
                avail.push(code);
                proof {
                    assert(code_views(avail@) =~= header_codes(hv.take(x + 1)));
                }
            } else {
                proof {
                    assert(hv[x as int].len() == 0);
                    assert(header_codes(hv.take(x + 1)) == header_codes(hv.take(x as int)));
                }
            }
            x += 1;
        }
        proof {
            assert(hv.take(hv.len() as int) =~= hv);
            if found {
                let w = choose|w: int| ods_found_at(hv, cv, w);
                lemma_ods_found_at_unique(hv, cv, w, li as int);
            } else {
                assert forall|w: int| !ods_found_at(hv, cv, w) by {
                    if 0 <= w < hv.len() {
                        assert(!(hv[w].len() > 0 && codes_eq(spec_parse(hv[w]), cv)));
                    }
                }
            }
            assert(li as int == ods_index(hv, cv));
        }
        self.available_locales = avail;
        self.locale = target;
        self.mappings = Vec::new();
        let ghost dv = grid.deep_view();
        let ghost lig = li as int;
        let mut y: usize = 0;
        while y < grid.len()
            invariant
                0 <= y <= grid@.len(),
                dv == grid.deep_view(),
                li as int == lig,
                self.wf(),
                self.path == TableFile::Ods(path),
                self.locale == target,
                self.available_locales@ == avail@,
                map_of(self.mappings@) == rows_map_from(
                    Map::<Seq<char>, Seq<char>>::empty(),
                    dv.take(y as int),
                    lig,
                ),
            decreases grid@.len() - y,
        {
            proof {
                assert(dv[y as int] == grid@[y as int].deep_view());
                assert(dv.take(y + 1) =~= dv.take(y as int).push(dv[y as int]));
                lemma_rows_map_snoc(
                    Map::<Seq<char>, Seq<char>>::empty(),
                    dv.take(y as int),
                    dv[y as int],
                    lig,
                );
            }
            let r = &grid[y];
            if r.len() > li {
                let k = trim_str(r[0].as_str());
                let v = trim_str(r[li].as_str());
                self.store(k, v);
            }
            y += 1;
        }
        proof {
            assert(dv.take(grid@.len() as int) =~= dv);
        }
    }

    /// Changes the active locale to the new locale if available,
    /// re-deriving the mapping from the recorded source; a file-backed
    /// source asks the caller to re-read the file.
    pub fn use_locale(&mut self, locale: &str) -> (r: Result<SwitchAction, TranslationError>)
        requires
            old(self).wf(),
        ensures
            switch_post(*old(self), locale@, *final(self), r),
            final(self).wf(),
    {
        let is_none = match &self.path {
            TableFile::NoSource => true,
            _ => false,
        };
        if is_none {
            return Err(TranslationError::NoReloadableSource);
        }
        let code = LocaleCode::parse(locale);
        if !self.contains_locale(&code) {
            return Err(TranslationError::LocaleNotAvailable);
        }
        let target = code.canonical();
        let current = self.path.clone();
        match current {
            TableFile::Csv(p) => Ok(SwitchAction::ReadCsvFile { path: p, locale: target }),
            TableFile::CsvRaw(text) => {
                self.csv_raw(text, target.as_str());
                Ok(SwitchAction::Done)
            }
            TableFile::Ods(p) => Ok(SwitchAction::ReadOdsFile { path: p, locale: target }),
            TableFile::NoSource => {
                proof {
                    assert(false);
                }
                Err(TranslationError::NoReloadableSource)
            }
        }
    }

    /// Relies on `bevy_device_lang::get_lang`: the operating system's
    /// preferred language string, when one can be acquired. The result
    /// depends on the machine's environment, so nothing is promised of
    /// it.
    #[verifier::external_body]
    pub fn get_system_language() -> Option<String> {
        bevy_device_lang::get_lang()
    }

    /// A convenience call that hands `use_locale` the system's preferred
    /// language, or the first available locale's canonical form when none
    /// can be acquired; the outcome is that of `use_locale` for some such
    /// locale string.
    pub fn use_system_locale(&mut self) -> (r: Result<SwitchAction, TranslationError>)
        requires
            old(self).wf(),
        ensures
            exists|l: Seq<char>| switch_post(*old(self), l, *final(self), r),
            old(self).path is NoSource ==> r == Result::<SwitchAction, TranslationError>::Err(
                TranslationError::NoReloadableSource,
            ) && *final(self) == *old(self),
            final(self).wf(),
    {
        let lang = match Self::get_system_language() {
            Some(l) => l,
            None => {
                if self.available_locales.len() > 0 {
                    self.available_locales[0].canonical()
                } else {
                    String::new()
                }
            }
        };
        let r = self.use_locale(lang.as_str());
        proof {
            assert(switch_post(*old(self), lang@, *self, r));
        }
        r
    }
}

/// Switching locale twice in a row with the same target on a table whose
/// source is retained raw text drifts nowhere: the second switch leaves
/// the same mapping, the same available locales and the same active
/// locale as the first, since each switch re-derives them from the
/// retained text alone.
pub proof fn lemma_switch_idempotent(
    pre: Translations,
    mid: Translations,
    post: Translations,
    loc: Seq<char>,
    r1: Result<SwitchAction, TranslationError>,
    r2: Result<SwitchAction, TranslationError>,
)
    requires
        pre.path is CsvRaw,
        r1 is Ok,
        switch_post(pre, loc, mid, r1),
        switch_post(mid, loc, post, r2),
    ensures
        map_of(post.mappings@) == map_of(mid.mappings@),
        code_views(post.available_locales@) == code_views(mid.available_locales@),
        code_view(post.locale) == code_view(mid.locale),
{
    let code = spec_parse(loc);
    let target = spec_canonical(code.0, code.1);
    if !avail_has(mid.available_locales@, code) {
        assert(post == mid);
    } else {
        match pre.path {
            TableFile::CsvRaw(text) => {
                assert(csv_loaded(mid, csv_rows_of(text@), target));
                assert(mid.path == pre.path);
                assert(csv_loaded(post, csv_rows_of(text@), target));
                assert(code_views(post.available_locales@) =~= code_views(
                    mid.available_locales@,
                ));
            }
            _ => {
                assert(false);
            }
        }
    }
}

/// A locale switch never changes the recorded source, whatever its
/// outcome: a later switch can always re-run the same loading procedure.
pub proof fn lemma_switch_preserves_source(
    pre: Translations,
    loc: Seq<char>,
    post: Translations,
    r: Result<SwitchAction, TranslationError>,
)
    requires
        switch_post(pre, loc, post, r),
    ensures
        post.path == pre.path,
{
}

/// A rejected switch leaves the table exactly as it was: failures are
/// reported, never mixed into the table's last-good state.
pub proof fn lemma_switch_rejected_unchanged(
    pre: Translations,
    loc: Seq<char>,
    post: Translations,
    r: Result<SwitchAction, TranslationError>,
)
    requires
        switch_post(pre, loc, post, r),
        r is Err,
    ensures
        post == pre,
{
}

impl Default for Translations {
    /// The empty table.
    fn default() -> (r: Self)
        ensures
            r.is_empty_table(),
            r.wf(),
    {
        Translations {
            locale: LocaleCode::default(),
            path: TableFile::NoSource,
            available_locales: Vec::new(),
            mappings: Vec::new(),
        }
    }
}

impl Clone for TableFile {
    fn clone(&self) -> (r: Self)
        ensures
            r == *self,
    {
        match self {
            TableFile::Csv(p) => TableFile::Csv(p.clone()),
            TableFile::CsvRaw(t) => TableFile::CsvRaw(t.clone()),
            TableFile::Ods(p) => TableFile::Ods(p.clone()),
            TableFile::NoSource => TableFile::NoSource,
        }
    }
}

impl Clone for Translations {
    fn clone(&self) -> (r: Self)
        ensures
            r.locale == self.locale,
            r.path == self.path,
            r.available_locales@ == self.available_locales@,
            r.mappings@ == self.mappings@,
    {
        let mut avail: Vec<LocaleCode> = Vec::new();
        let mut i: usize = 0;
        while i < self.available_locales.len()
            invariant
                0 <= i <= self.available_locales@.len(),
                avail@.len() == i,
                forall|j: int| 0 <= j < i ==> avail@[j] == self.available_locales@[j],
            decreases self.available_locales@.len() - i,
        {
            avail.push(self.available_locales[i].clone());
            i += 1;
        }
        let mut pairs: Vec<(String, String)> = Vec::new();
        let mut j: usize = 0;
        while j < self.mappings.len()
            invariant
                0 <= j <= self.mappings@.len(),
                pairs@.len() == j,
                forall|q: int| 0 <= q < j ==> pairs@[q] == self.mappings@[q],
            decreases self.mappings@.len() - j,
        {
            let p = &self.mappings[j];
            pairs.push((p.0.clone(), p.1.clone()));
            j += 1;
        }
        proof {
            assert(avail@ =~= self.available_locales@);
            assert(pairs@ =~= self.mappings@);
        }
        Translations {
            locale: self.locale.clone(),
            path: self.path.clone(),
            available_locales: avail,
            mappings: pairs,
        }
    }
}

} // verus!
