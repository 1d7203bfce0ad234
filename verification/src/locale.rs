//! Locale codes: a language with an optional region, split on a fixed
//! delimiter, compared case-insensitively, and printed in a canonical form.

use vstd::prelude::*;
use vstd::string::StrSliceExecFns;
use vstd::string::StringExecFns;

use crate::text::is_space_char;
use crate::text::lower_of;
use crate::text::spec_trim;
use crate::text::to_lower;
use crate::text::trim_str;
use crate::text::lemma_trim_clean;
use crate::text::lemma_trim_is_infix;
use crate::text::lemma_trim_of_trimmed;

verus! {

/// The two segments commonly used to denote a locale: a language code and
/// an optional region code.
#[derive(Debug)]
pub struct LocaleCode {
    pub lang: String,
    pub region: String,
}

/// The position of the first delimiter in `s`, when there is one.
pub open spec fn find_delim(s: Seq<char>) -> Option<int>
    decreases s.len(),
{
    if s.len() == 0 {
        None
    } else if s[0] == '-' {
        Some(0int)
    } else {
        match find_delim(s.drop_first()) {
            Some(i) => Some(i + 1),
            None => None,
        }
    }
}

/// The language and region that parsing `s` yields: the string is split on
/// the first delimiter (no delimiter leaves the region empty), and both
/// parts are trimmed of surrounding whitespace.
pub open spec fn spec_parse(s: Seq<char>) -> (Seq<char>, Seq<char>) {
    match find_delim(s) {
        Some(i) => (
            spec_trim(s.subrange(0, i)),
            spec_trim(s.subrange(i + 1, s.len() as int)),
        ),
        None => (spec_trim(s), Seq::empty()),
    }
}

/// The canonical string form of a code: the language alone when the region
/// is empty, otherwise language, delimiter, region.
pub open spec fn spec_canonical(lang: Seq<char>, region: Seq<char>) -> Seq<char> {
    if region.len() == 0 {
        lang
    } else {
        lang + "-"@ + region
    }
}

/// Both segments of a code, as sequences of characters.
pub open spec fn code_view(c: LocaleCode) -> (Seq<char>, Seq<char>) {
    (c.lang@, c.region@)
}

/// Case-insensitive equality of two (language, region) pairs.
pub open spec fn codes_eq(a: (Seq<char>, Seq<char>), b: (Seq<char>, Seq<char>)) -> bool {
    lower_of(a.0) == lower_of(b.0) && lower_of(a.1) == lower_of(b.1)
}

/// If the character at `k` is the first delimiter of `s`, the delimiter
/// search finds exactly `k`.
proof fn lemma_find_delim_at(s: Seq<char>, k: int)
    requires
        0 <= k < s.len(),
        s[k] == '-',
        forall|j: int| 0 <= j < k ==> s[j] != '-',
    ensures
        find_delim(s) == Some(k),
    decreases s.len(),
{
    if k > 0 {
        lemma_find_delim_at(s.drop_first(), k - 1);
    }
}

/// What the delimiter search reports is right: a found position is the
/// first delimiter, and nothing found means there is none.
proof fn lemma_find_delim_sound(s: Seq<char>)
    ensures
        find_delim(s) matches Some(i) ==> 0 <= i < s.len() && s[i] == '-' && forall|j: int|
            0 <= j < i ==> s[j] != '-',
        find_delim(s) is None ==> forall|j: int| 0 <= j < s.len() ==> s[j] != '-',
    decreases s.len(),
{
    if s.len() == 0 {
    } else if s[0] == '-' {
    } else {
        lemma_find_delim_sound(s.drop_first());
        match find_delim(s.drop_first()) {
            Some(i) => {
                assert(s.drop_first()[i] == s[i + 1]);
                assert forall|j: int| 0 <= j < i + 1 implies s[j] != '-' by {
                    if j > 0 {
                        assert(s.drop_first()[j - 1] == s[j]);
                    }
                }
            }
            None => {
                assert forall|j: int| 0 <= j < s.len() implies s[j] != '-' by {
                    if j > 0 {
                        assert(s.drop_first()[j - 1] == s[j]);
                    }
                }
            }
        }
    }
}

/// If `s` holds no delimiter, the delimiter search finds none.
proof fn lemma_find_delim_none(s: Seq<char>)
    requires
        forall|j: int| 0 <= j < s.len() ==> s[j] != '-',
    ensures
        find_delim(s) is None,
    decreases s.len(),
{
    if s.len() > 0 {
        lemma_find_delim_none(s.drop_first());
    }
}

impl LocaleCode {
    /// The delimiter expected and produced when combining language and
    /// region codes.
    pub const REGION_DELIMITER: &'static str = "-";

    /// Splits any string into a locale code on the first delimiter; a
    /// string without one is a valid single-segment code. Never fails.
    pub fn parse(s: &str) -> (r: LocaleCode)
        ensures
            code_view(r) == spec_parse(s@),
    {
        let n = s.unicode_len();
        let mut i: usize = 0;
        while i < n && s.get_char(i) != '-'
            invariant
                0 <= i <= n,
                n == s@.len(),
                forall|j: int| 0 <= j < i ==> s@[j] != '-',
            decreases n - i,
        {
            i += 1;
        }
        if i < n {
            proof {
                lemma_find_delim_at(s@, i as int);
            }
            let lang_part = s.substring_char(0, i);
            let region_part = s.substring_char(i + 1, n);
            LocaleCode { lang: trim_str(lang_part), region: trim_str(region_part) }
        } else {
            proof {
                lemma_find_delim_none(s@);
            }
            LocaleCode { lang: trim_str(s), region: String::new() }
        }
    }

    /// The canonical string form of this code.
    pub fn canonical(&self) -> (r: String)
        ensures
            r@ == spec_canonical(self.lang@, self.region@),
    {
        if self.region.as_str().is_empty() {
            self.lang.clone()
        } else {
            let mut out = self.lang.clone();
            out.append(Self::REGION_DELIMITER);
            out.append(self.region.as_str());
            out
        }
    }
}

impl Clone for LocaleCode {
    fn clone(&self) -> (r: Self)
        ensures
            r == *self,
    {
        LocaleCode { lang: self.lang.clone(), region: self.region.clone() }
    }
}

impl Default for LocaleCode {
    /// The empty code: no language, no region.
    fn default() -> (r: Self)
        ensures
            r.lang@ == Seq::<char>::empty(),
            r.region@ == Seq::<char>::empty(),
    {
        LocaleCode { lang: String::new(), region: String::new() }
    }
}

impl PartialEq for LocaleCode {
    /// Case-insensitive comparison of both segments.
    fn eq(&self, other: &Self) -> bool {
        let l1 = to_lower(self.lang.as_str());
        let l2 = to_lower(other.lang.as_str());
        let r1 = to_lower(self.region.as_str());
        let r2 = to_lower(other.region.as_str());
        l1 == l2 && r1 == r2
    }
}

impl vstd::std_specs::cmp::PartialEqSpecImpl for LocaleCode {
    open spec fn obeys_eq_spec() -> bool {
        true
    }

    open spec fn eq_spec(&self, other: &Self) -> bool {
        codes_eq(code_view(*self), code_view(*other))
    }
}

/// Parsing inverts the canonical form of any parsed code: whatever string
/// a code was parsed from, printing the code canonically and parsing that
/// gives the code back unchanged.
pub proof fn lemma_parse_canonical_identity(s: Seq<char>)
    ensures
        spec_parse(spec_canonical(spec_parse(s).0, spec_parse(s).1)) == spec_parse(s),
{
    let lang = spec_parse(s).0;
    let region = spec_parse(s).1;
    lemma_find_delim_sound(s);
    match find_delim(s) {
        Some(i) => {
            let pre = s.subrange(0, i);
            let post = s.subrange(i + 1, s.len() as int);
            assert(forall|j: int| 0 <= j < pre.len() ==> pre[j] != '-');
            lemma_trim_is_infix(pre);
            let (k, m) = choose|k: int, m: int|
                0 <= k <= m <= pre.len() && spec_trim(pre) == pre.subrange(k, m);
            assert(forall|j: int| 0 <= j < lang.len() ==> lang[j] == pre[k + j]);
            assert(forall|j: int| 0 <= j < lang.len() ==> lang[j] != '-');
            lemma_trim_clean(pre);
            lemma_trim_clean(post);
            lemma_canonical_round_trip(lang, region);
        }
        None => {
            assert(forall|j: int| 0 <= j < s.len() ==> s[j] != '-');
            lemma_trim_is_infix(s);
            let (k, m) = choose|k: int, m: int|
                0 <= k <= m <= s.len() && spec_trim(s) == s.subrange(k, m);
            assert(forall|j: int| 0 <= j < lang.len() ==> lang[j] == s[k + j]);
            assert(forall|j: int| 0 <= j < lang.len() ==> lang[j] != '-');
            lemma_trim_clean(s);
            lemma_canonical_round_trip(lang, region);
        }
    }
}

/// Parsing inverts the canonical form: a code whose language holds no
/// delimiter and whose segments carry no whitespace at their ends — as
/// parsing itself produces for such inputs — is recovered exactly from its
/// canonical string.
pub proof fn lemma_canonical_round_trip(lang: Seq<char>, region: Seq<char>)
    requires
        forall|j: int| 0 <= j < lang.len() ==> lang[j] != '-',
        lang.len() > 0 ==> !is_space_char(lang[0]),
        lang.len() > 0 ==> !is_space_char(lang[lang.len() - 1]),
        region.len() > 0 ==> !is_space_char(region[0]),
        region.len() > 0 ==> !is_space_char(region[region.len() - 1]),
    ensures
        spec_parse(spec_canonical(lang, region)) == (lang, region),
{
    reveal_strlit("-");
    if region.len() == 0 {
        lemma_find_delim_none(lang);
        lemma_trim_of_trimmed(lang);
    } else {
        let s = lang + "-"@ + region;
        assert(s.len() == lang.len() + 1 + region.len());
        assert(s[lang.len() as int] == '-');
        assert(forall|j: int| 0 <= j < lang.len() ==> s[j] == lang[j]);
        lemma_find_delim_at(s, lang.len() as int);
        assert(s.subrange(0, lang.len() as int) =~= lang);
        assert(s.subrange(lang.len() as int + 1, s.len() as int) =~= region);
        lemma_trim_of_trimmed(lang);
        lemma_trim_of_trimmed(region);
    }
}

} // verus!
