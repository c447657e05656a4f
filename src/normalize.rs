use vstd::prelude::*;
use crate::table::{Column, ColumnData, Table, TableError};

verus! {

/// Unicode's White_Space property, the class that the pattern `\s` matches.
pub open spec fn is_white_space(c: char) -> bool {
    ('\u{9}' <= c && c <= '\u{d}') || c == ' ' || c == '\u{85}' || c == '\u{a0}' || c
        == '\u{1680}' || ('\u{2000}' <= c && c <= '\u{200a}') || c == '\u{2028}' || c
        == '\u{2029}' || c == '\u{202f}' || c == '\u{205f}' || c == '\u{3000}'
}

/// `s` with every whitespace character deleted.
pub open spec fn without_white_space(s: Seq<char>) -> Seq<char> {
    s.filter(|c: char| !is_white_space(c))
}

/// The lowercase mapping of a string, as Unicode defines it.
pub uninterp spec fn lower_of(s: Seq<char>) -> Seq<char>;

/// The canonical form of a column name: lowercased, all whitespace removed.
pub open spec fn canonical(s: Seq<char>) -> Seq<char> {
    without_white_space(lower_of(s))
}

/// No two entries of `s` are equal.
pub open spec fn all_distinct(s: Seq<Seq<char>>) -> bool {
    forall|a: int, b: int| 0 <= a < s.len() && 0 <= b < s.len() && a != b ==> s[a] != s[b]
}

pub open spec fn canonical_names(t: Table) -> Seq<Seq<char>> {
    t.names().map_values(|n: Seq<char>| canonical(n))
}

/// Relies on regex::Regex::replace_all with the pattern `\s+` and an empty
/// replacement: every run of White_Space characters is deleted, the rest kept in order.
#[verifier::external_body]
fn remove_white_space(s: &str) -> (r: String)
    ensures
        r@ == without_white_space(s@),
{
    regex::Regex::new(r"\s+").unwrap().replace_all(s, "").into_owned()
}

/// Relies on str::to_lowercase: the result depends on the characters alone.
#[verifier::external_body]
fn lowercase(s: &str) -> (r: String)
    ensures
        r@ == lower_of(s@),
{
    s.to_lowercase()
}

/// The canonical form of a raw column name.
pub fn canonical_name(raw: &String) -> (r: String)
    ensures
        r@ == canonical(raw@),
{
    let lower = lowercase(raw.as_str());
    remove_white_space(lower.as_str())
}

/// Whether the names are pairwise distinct.
pub fn names_distinct(names: &Vec<String>) -> (r: bool)
    ensures
        r == all_distinct(names@.map_values(|s: String| s@)),
{
    let ghost v = names@.map_values(|s: String| s@);
    let mut a: usize = 0;
    while a < names.len()
        invariant
            a <= names@.len(),
            v == names@.map_values(|s: String| s@),
            forall|x: int, y: int| 0 <= x < a && 0 <= y < names@.len() && x != y ==> v[x] != v[y],
        decreases names@.len() - a,
    {
        let mut b: usize = 0;
        while b < names.len()
            invariant
                a < names@.len(),
                b <= names@.len(),
                v == names@.map_values(|s: String| s@),
                forall|x: int, y: int|
                    0 <= x < a && 0 <= y < names@.len() && x != y ==> v[x] != v[y],
                forall|y: int| 0 <= y < b && a != y ==> v[a as int] != v[y],
            decreases names@.len() - b,
        {
            if a != b && names[a] == names[b] {
                assert(v[a as int] == v[b as int]);
                return false;
            }
            b = b + 1;
        }
        a = a + 1;
    }
    true
}

/// Rewrites every column name into canonical form, in place. Row data is kept.
/// When two names would become equal the table is left as it was.
pub fn normalize_columns(t: &mut Table) -> (r: Result<(), TableError>)
    ensures
        r is Ok <==> all_distinct(canonical_names(*old(t))),
        r is Err ==> r == Err::<(), TableError>(TableError::DuplicateColumn) && *final(t) == *old(t),
        r is Ok ==> final(t).names() == canonical_names(*old(t)) && final(t).columns@.len()
            == old(t).columns@.len() && forall|c: int|
            0 <= c < old(t).columns@.len() ==> (#[trigger] final(t).columns@[c]).data
                == old(t).columns@[c].data,
{
    let ghost orig = *t;
    let mut names: Vec<String> = Vec::new();
    let mut c: usize = 0;
    while c < t.columns.len()
        invariant
            *t == orig,
            c <= orig.columns@.len(),
            names@.len() == c,
            forall|d: int| 0 <= d < c ==> names@[d]@ == canonical(orig.columns@[d].name@),
        decreases orig.columns@.len() - c,
    {
        names.push(canonical_name(&t.columns[c].name));
        c = c + 1;
    }
    assert(names@.map_values(|s: String| s@) =~= canonical_names(orig));
    if !names_distinct(&names) {
        return Err(TableError::DuplicateColumn);
    }
    let n: usize = t.columns.len();
    let mut rest: Vec<Column> = Vec::new();
    std::mem::swap(&mut rest, &mut t.columns);
    let mut out: Vec<Column> = Vec::new();
    let mut k: usize = 0;
    while rest.len() > 0
        invariant
            names@.len() == orig.columns@.len(),
            forall|d: int| 0 <= d < names@.len() ==> names@[d]@ == canonical(orig.columns@[d].name@),
            n == orig.columns@.len(),
            k + rest@.len() == orig.columns@.len(),
            rest@ == orig.columns@.subrange(k as int, orig.columns@.len() as int),
            out@.len() == k,
            forall|d: int|
                0 <= d < k ==> (#[trigger] out@[d]).data == orig.columns@[d].data
                    && out@[d].name@ == names@[d]@,
        decreases rest@.len(),
    {
        let col = rest.remove(0);
        out.push(Column { name: names[k].clone(), data: col.data });
        k = k + 1;
    }
    t.columns = out;
    assert(t.names() =~= canonical_names(orig));
    Ok(())
}

/// `s` holds no whitespace character.
pub open spec fn free_of_white_space(s: Seq<char>) -> bool {
    forall|i: int| 0 <= i < s.len() ==> !is_white_space(#[trigger] s[i])
}

/// A name already in canonical form: free of whitespace and fixed by lowercasing.
pub open spec fn is_canonical(s: Seq<char>) -> bool {
    free_of_white_space(s) && lower_of(s) == s
}

proof fn lemma_removal_keeps_clean(s: Seq<char>)
    requires
        free_of_white_space(s),
    ensures
        without_white_space(s) == s,
    decreases s.len(),
{
    reveal(Seq::filter);
    if s.len() > 0 {
        assert(free_of_white_space(s.drop_last()));
        lemma_removal_keeps_clean(s.drop_last());
        assert(s.drop_last().push(s.last()) =~= s);
    }
}

/// A canonical name holds no whitespace character, whatever the raw name held.
pub proof fn canonical_has_no_white_space(raw: Seq<char>)
    ensures
        free_of_white_space(canonical(raw)),
{
    broadcast use Seq::lemma_filter_pred;
    let f = canonical(raw);
    assert forall|i: int| 0 <= i < f.len() implies !is_white_space(#[trigger] f[i]) by {
        lower_of(raw).lemma_filter_pred(|c: char| !is_white_space(c), i);
    }
}

/// Normalizing a name that is already canonical leaves it unchanged.
pub proof fn canonical_name_is_fixed(s: Seq<char>)
    requires
        is_canonical(s),
    ensures
        canonical(s) == s,
{
    lemma_removal_keeps_clean(s);
}

/// Normalizing a name twice gives what normalizing it once gives, for every name
/// whose canonical form lowercasing leaves alone.
pub proof fn normalizing_twice_is_once(raw: Seq<char>)
    requires
        lower_of(canonical(raw)) == canonical(raw),
    ensures
        canonical(canonical(raw)) == canonical(raw),
{
    canonical_has_no_white_space(raw);
    canonical_name_is_fixed(canonical(raw));
}

/// On a table whose names are all canonical, normalization computes the names
/// the table already has.
pub proof fn normalizing_canonical_table_keeps_names(t: Table)
    requires
        forall|c: int| 0 <= c < t.columns@.len() ==> is_canonical(#[trigger] t.columns@[c].name@),
    ensures
        canonical_names(t) == t.names(),
{
    assert forall|c: int| 0 <= c < t.columns@.len() implies #[trigger] canonical_names(t)[c]
        == t.names()[c] by {
        canonical_name_is_fixed(t.columns@[c].name@);
    }
    assert(canonical_names(t) =~= t.names());
}

} // verus!
