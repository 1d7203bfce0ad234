//! Character and string helpers: whitespace trimming, string equality,
//! and case folding for case-insensitive locale comparison.

use vstd::prelude::*;
use vstd::string::StrSliceExecFns;

verus! {

/// Whitespace as Unicode's White_Space property defines it: the ASCII
/// controls tab through carriage return, space, next line, no-break space,
/// ogham space mark, the en-quad..hair-space block, line and paragraph
/// separators, narrow no-break space, medium mathematical space, and
/// ideographic space.
pub open spec fn is_space_char(c: char) -> bool {
    let u = c as u32;
    ||| u == 0x9
    ||| u == 0xA
    ||| u == 0xB
    ||| u == 0xC
    ||| u == 0xD
    ||| u == 0x20
    ||| u == 0x85
    ||| u == 0xA0
    ||| u == 0x1680
    ||| (0x2000 <= u && u <= 0x200A)
    ||| u == 0x2028
    ||| u == 0x2029
    ||| u == 0x202F
    ||| u == 0x205F
    ||| u == 0x3000
}

/// Whether `c` counts as whitespace for trimming.
pub fn char_is_space(c: char) -> (r: bool)
    ensures
        r == is_space_char(c),
{
    let u = c as u32;
    u == 0x9 || u == 0xA || u == 0xB || u == 0xC || u == 0xD || u == 0x20 || u == 0x85 || u == 0xA0
        || u == 0x1680 || (0x2000 <= u && u <= 0x200A) || u == 0x2028 || u == 0x2029 || u == 0x202F
        || u == 0x205F || u == 0x3000
}

/// The sequence with its leading whitespace removed.
pub open spec fn drop_leading(s: Seq<char>) -> Seq<char>
    decreases s.len(),
{
    if s.len() > 0 && is_space_char(s[0]) {
        drop_leading(s.drop_first())
    } else {
        s
    }
}

/// The sequence with its trailing whitespace removed.
pub open spec fn drop_trailing(s: Seq<char>) -> Seq<char>
    decreases s.len(),
{
    if s.len() > 0 && is_space_char(s.last()) {
        drop_trailing(s.drop_last())
    } else {
        s
    }
}

/// The sequence with whitespace removed from both ends.
pub open spec fn spec_trim(s: Seq<char>) -> Seq<char> {
    drop_trailing(drop_leading(s))
}

/// If the first `k` characters are whitespace and the character at `k`
/// (when there is one) is not, dropping leading whitespace keeps exactly
/// the suffix from `k` on.
proof fn lemma_drop_leading_at(s: Seq<char>, k: int)
    requires
        0 <= k <= s.len(),
        forall|j: int| 0 <= j < k ==> is_space_char(s[j]),
        k == s.len() || !is_space_char(s[k]),
    ensures
        drop_leading(s) == s.subrange(k, s.len() as int),
    decreases s.len(),
{
    if k == 0 {
        assert(s.subrange(0, s.len() as int) =~= s);
    } else {
        assert(is_space_char(s[0]));
        lemma_drop_leading_at(s.drop_first(), k - 1);
        assert(s.drop_first().subrange(k - 1, s.drop_first().len() as int) =~= s.subrange(
            k,
            s.len() as int,
        ));
    }
}

/// If every character from `m` on is whitespace and the character before
/// `m` (when there is one) is not, dropping trailing whitespace keeps
/// exactly the prefix up to `m`.
proof fn lemma_drop_trailing_at(s: Seq<char>, m: int)
    requires
        0 <= m <= s.len(),
        forall|j: int| m <= j < s.len() ==> is_space_char(s[j]),
        m == 0 || !is_space_char(s[m - 1]),
    ensures
        drop_trailing(s) == s.subrange(0, m),
    decreases s.len(),
{
    if m == s.len() {
        if s.len() > 0 && is_space_char(s.last()) {
            assert(!is_space_char(s[m - 1]));
            assert(false);
        }
        assert(s.subrange(0, m) =~= s);
    } else {
        assert(is_space_char(s.last()));
        lemma_drop_trailing_at(s.drop_last(), m);
        assert(s.drop_last().subrange(0, m) =~= s.subrange(0, m));
    }
}

/// A sequence without whitespace at either end trims to itself.
pub proof fn lemma_trim_of_trimmed(s: Seq<char>)
    requires
        s.len() > 0 ==> !is_space_char(s[0]),
        s.len() > 0 ==> !is_space_char(s[s.len() - 1]),
    ensures
        spec_trim(s) == s,
{
    lemma_drop_leading_at(s, 0);
    assert(s.subrange(0, s.len() as int) =~= s);
    lemma_drop_trailing_at(s, s.len() as int);
}

/// Dropping leading whitespace keeps some suffix of the sequence.
proof fn lemma_drop_leading_is_suffix(s: Seq<char>)
    ensures
        exists|k: int| 0 <= k <= s.len() && drop_leading(s) == s.subrange(k, s.len() as int),
    decreases s.len(),
{
    if s.len() > 0 && is_space_char(s[0]) {
        lemma_drop_leading_is_suffix(s.drop_first());
        let k = choose|k: int|
            0 <= k <= s.drop_first().len() && drop_leading(s.drop_first()) == s.drop_first()
                .subrange(k, s.drop_first().len() as int);
        assert(s.drop_first().subrange(k, s.drop_first().len() as int) =~= s.subrange(
            k + 1,
            s.len() as int,
        ));
        assert(drop_leading(s) == s.subrange(k + 1, s.len() as int));
    } else {
        assert(s.subrange(0, s.len() as int) =~= s);
        assert(drop_leading(s) == s.subrange(0, s.len() as int));
    }
}

/// Dropping trailing whitespace keeps some prefix of the sequence.
proof fn lemma_drop_trailing_is_prefix(s: Seq<char>)
    ensures
        exists|m: int| 0 <= m <= s.len() && drop_trailing(s) == s.subrange(0, m),
    decreases s.len(),
{
    if s.len() > 0 && is_space_char(s.last()) {
        lemma_drop_trailing_is_prefix(s.drop_last());
        let m = choose|m: int|
            0 <= m <= s.drop_last().len() && drop_trailing(s.drop_last()) == s.drop_last()
                .subrange(0, m);
        assert(s.drop_last().subrange(0, m) =~= s.subrange(0, m));
        assert(drop_trailing(s) == s.subrange(0, m));
    } else {
        assert(s.subrange(0, s.len() as int) =~= s);
        assert(drop_trailing(s) == s.subrange(0, s.len() as int));
    }
}

/// A trimmed sequence is a contiguous piece of the original.
pub proof fn lemma_trim_is_infix(s: Seq<char>)
    ensures
        exists|k: int, m: int| 0 <= k <= m <= s.len() && spec_trim(s) == s.subrange(k, m),
{
    lemma_drop_leading_is_suffix(s);
    let k = choose|k: int|
        0 <= k <= s.len() && drop_leading(s) == s.subrange(k, s.len() as int);
    let u = drop_leading(s);
    lemma_drop_trailing_is_prefix(u);
    let m = choose|m: int| 0 <= m <= u.len() && drop_trailing(u) == u.subrange(0, m);
    assert(u.subrange(0, m) =~= s.subrange(k, k + m));
    assert(0 <= k <= k + m <= s.len() && spec_trim(s) == s.subrange(k, k + m));
}

/// What remains after dropping leading whitespace starts with none.
proof fn lemma_drop_leading_first(s: Seq<char>)
    ensures
        drop_leading(s).len() > 0 ==> !is_space_char(drop_leading(s)[0]),
    decreases s.len(),
{
    if s.len() > 0 && is_space_char(s[0]) {
        lemma_drop_leading_first(s.drop_first());
    }
}

/// What remains after dropping trailing whitespace ends with none.
proof fn lemma_drop_trailing_last(s: Seq<char>)
    ensures
        drop_trailing(s).len() > 0 ==> !is_space_char(drop_trailing(s).last()),
    decreases s.len(),
{
    if s.len() > 0 && is_space_char(s.last()) {
        lemma_drop_trailing_last(s.drop_last());
    }
}

/// A trimmed sequence carries no whitespace at either end.
pub proof fn lemma_trim_clean(s: Seq<char>)
    ensures
        spec_trim(s).len() > 0 ==> !is_space_char(spec_trim(s)[0]),
        spec_trim(s).len() > 0 ==> !is_space_char(spec_trim(s)[spec_trim(s).len() - 1]),
{
    let u = drop_leading(s);
    lemma_drop_leading_first(s);
    lemma_drop_trailing_last(u);
    lemma_drop_trailing_is_prefix(u);
    let m = choose|m: int| 0 <= m <= u.len() && drop_trailing(u) == u.subrange(0, m);
    if spec_trim(s).len() > 0 {
        assert(spec_trim(s)[0] == u[0]);
        assert(spec_trim(s)[spec_trim(s).len() - 1] == spec_trim(s).last());
    }
}

/// A copy of `s` with leading and trailing whitespace removed.
pub fn trim_str(s: &str) -> (r: String)
    ensures
        r@ == spec_trim(s@),
{
    let n = s.unicode_len();
    let mut a: usize = 0;
    while a < n && char_is_space(s.get_char(a))
        invariant
            0 <= a <= n,
            n == s@.len(),
            forall|j: int| 0 <= j < a ==> is_space_char(s@[j]),
        decreases n - a,
    {
        a += 1;
    }
    let mut b: usize = n;
    while b > a && char_is_space(s.get_char(b - 1))
        invariant
            a <= b <= n,
            n == s@.len(),
            forall|j: int| 0 <= j < a ==> is_space_char(s@[j]),
            a == n || !is_space_char(s@[a as int]),
            forall|j: int| b <= j < n ==> is_space_char(s@[j]),
        decreases b,
    {
        b -= 1;
    }
    let t = s.substring_char(a, b);
    proof {
        lemma_drop_leading_at(s@, a as int);
        let u = s@.subrange(a as int, n as int);
        lemma_drop_trailing_at(u, b - a);
        assert(u.subrange(0, b - a) =~= s@.subrange(a as int, b as int));
    }
    t.to_owned()
}

/// Whether two string slices hold the same characters.
pub fn str_eq(a: &str, b: &str) -> (r: bool)
    ensures
        r == (a@ == b@),
{
    let n = a.unicode_len();
    if n != b.unicode_len() {
        return false;
    }
    let mut i: usize = 0;
    while i < n
        invariant
            0 <= i <= n,
            n == a@.len(),
            n == b@.len(),
            forall|j: int| 0 <= j < i ==> a@[j] == b@[j],
        decreases n - i,
    {
        if a.get_char(i) != b.get_char(i) {
            return false;
        }
        i += 1;
    }
    proof {
        assert(a@ =~= b@);
    }
    true
}

/// The lowercase form of a sequence of characters, as Unicode defines it.
pub uninterp spec fn lower_of(s: Seq<char>) -> Seq<char>;

/// Relies on `str::to_lowercase`: the lowercase form of a string, which
/// depends on the string's characters alone.
#[verifier::external_body]
pub(crate) fn to_lower(s: &str) -> (r: String)
    ensures
        r@ == lower_of(s@),
{
    s.to_lowercase()
}

} // verus!
