//! Reading an embedding table from the lines of a text file: each line is a
//! word followed by its components, separated by whitespace.
use vstd::prelude::*;
use vstd::utf8::encode_utf8;
use crate::decimal::{component_value, parse_component};
use crate::table::{upsert, EntryView, Table};
use crate::vector::{in_limit, valid, MAX_DIM};

verus! {

/// Why a row is refused.
#[derive(Debug, Clone, Copy, PartialEq, Eq, Structural)]
pub enum RowError {
    /// The number of components differs from the table's dimension.
    WrongFieldCount,
    /// A component is not a decimal number within range.
    BadNumber,
}

/// A refused row: its line number (from 1) and the reason.
#[derive(Debug, Clone, Copy, PartialEq, Eq, Structural)]
pub struct ParseError {
    pub line: usize,
    pub kind: RowError,
}

/// What to do with a refused row.
#[derive(Debug, Clone, Copy, PartialEq, Eq, Structural)]
pub enum Policy {
    /// The first refused row fails the whole load.
    Strict,
    /// Refused rows are skipped and reported.
    Lenient,
}

/// A loaded table with the rows that were skipped.
pub struct Loaded {
    pub table: Table,
    pub skipped: Vec<ParseError>,
}

/// The whitespace-separated fields of a line.
pub uninterp spec fn whitespace_fields(line: Seq<char>) -> Seq<Seq<char>>;

/// Relies on `str::split_whitespace`: the fields of a line, in order.
#[verifier::external_body]
fn split_fields(line: &str) -> (r: Vec<String>)
    ensures
        r@.map_values(|f: String| f@) == whitespace_fields(line@),
{
    line.split_whitespace().map(|f| f.to_string()).collect()
}

/// The dimension in force and the entries read so far.
pub type LoadState = (Option<nat>, Seq<EntryView>);

/// Why the row with `fields` is refused under the dimension `dim`, if it is.
pub open spec fn row_error(fields: Seq<Seq<char>>, dim: Option<nat>) -> Option<RowError> {
    let count = fields.len() - 1;
    if count < 1 || count > MAX_DIM || (dim is Some && dim->0 != count) {
        Some(RowError::WrongFieldCount)
    } else if exists|j: int|
        1 <= j < fields.len() && component_value(encode_utf8(#[trigger] fields[j])) is None {
        Some(RowError::BadNumber)
    } else {
        None
    }
}

/// The vector of an accepted row.
pub open spec fn row_vector(fields: Seq<Seq<char>>) -> Seq<i64> {
    Seq::new((fields.len() - 1) as nat, |j: int| component_value(encode_utf8(fields[j + 1]))->0 as i64)
}

/// The state after an accepted row.
pub open spec fn accept(st: LoadState, fields: Seq<Seq<char>>) -> LoadState {
    (Some((fields.len() - 1) as nat), upsert(st.1, fields[0], row_vector(fields)))
}

/// Whether `line` is a row that is refused in state `st`.
pub open spec fn refused(st: LoadState, line: Seq<char>) -> bool {
    whitespace_fields(line).len() > 0 && row_error(whitespace_fields(line), st.0) is Some
}

/// Whether `line` is a row that is accepted in state `st`.
pub open spec fn accepted(st: LoadState, line: Seq<char>) -> bool {
    whitespace_fields(line).len() > 0 && row_error(whitespace_fields(line), st.0) is None
}

/// The state after the first `n` lines when refused rows are skipped; blank
/// lines are ignored.
pub open spec fn lenient_load(lines: Seq<String>, n: int, expected: Option<nat>) -> LoadState
    decreases n,
{
    if n <= 0 {
        (expected, Seq::empty())
    } else {
        let st = lenient_load(lines, n - 1, expected);
        if accepted(st, lines[n - 1]@) {
            accept(st, whitespace_fields(lines[n - 1]@))
        } else {
            st
        }
    }
}

/// The rows skipped among the first `n` lines.
pub open spec fn skipped_rows(lines: Seq<String>, n: int, expected: Option<nat>) -> Seq<ParseError>
    decreases n,
{
    if n <= 0 {
        Seq::empty()
    } else {
        let st = lenient_load(lines, n - 1, expected);
        let prev = skipped_rows(lines, n - 1, expected);
        if refused(st, lines[n - 1]@) {
            prev.push(
                ParseError {
                    line: n as usize,
                    kind: row_error(whitespace_fields(lines[n - 1]@), st.0)->0,
                },
            )
        } else {
            prev
        }
    }
}

/// The state after the first `n` lines when a refused row ends the load.
pub open spec fn strict_load(lines: Seq<String>, n: int, expected: Option<nat>) -> Result<LoadState, ParseError>
    decreases n,
{
    if n <= 0 {
        Ok((expected, Seq::empty()))
    } else {
        match strict_load(lines, n - 1, expected) {
            Err(e) => Err(e),
            Ok(st) => if refused(st, lines[n - 1]@) {
                Err(
                    ParseError {
                        line: n as usize,
                        kind: row_error(whitespace_fields(lines[n - 1]@), st.0)->0,
                    },
                )
            } else if accepted(st, lines[n - 1]@) {
                Ok(accept(st, whitespace_fields(lines[n - 1]@)))
            } else {
                Ok(st)
            },
        }
    }
}

/// The dimension of the table a state describes.
pub open spec fn state_dim(st: LoadState) -> nat {
    match st.0 {
        Some(d) => d,
        None => 0,
    }
}

/// Once a strict load has failed, later lines do not change the error.
proof fn lemma_strict_error_persists(lines: Seq<String>, k: int, n: int, expected: Option<nat>)
    requires
        0 <= k <= n,
        strict_load(lines, k, expected) is Err,
    ensures
        strict_load(lines, n, expected) == strict_load(lines, k, expected),
    decreases n - k,
{
    if n > k {
        lemma_strict_error_persists(lines, k, n - 1, expected);
    }
}

/// An optional dimension as a mathematical one.
pub open spec fn dim_of(d: Option<usize>) -> Option<nat> {
    match d {
        Some(x) => Some(x as nat),
        None => None,
    }
}

/// Checks the fields of a row under the dimension `dim` and reads its vector.
fn parse_row(fields: &Vec<String>, dim: Option<usize>) -> (r: Result<Vec<i64>, RowError>)
    requires
        fields@.len() > 0,
    ensures
        ({
            let fv = fields@.map_values(|f: String| f@);
            match r {
                Err(k) => row_error(fv, dim_of(dim)) == Some(k),
                Ok(v) => row_error(fv, dim_of(dim)) is None && v@ == row_vector(fv) && valid(v@),
            }
        }),
{
    let ghost fv = fields@.map_values(|f: String| f@);
    let count = fields.len() - 1;
    let wrong = match dim {
        Some(d) => d != count,
        None => false,
    };
    if count < 1 || count > MAX_DIM || wrong {
        return Err(RowError::WrongFieldCount);
    }
    let mut v: Vec<i64> = Vec::new();
    let mut j: usize = 1;
    while j < fields.len()
        invariant
            fv == fields@.map_values(|f: String| f@),
            1 <= j <= fields@.len(),
            fv.len() == fields@.len(),
            !(dim_of(dim) is Some && dim_of(dim)->0 != fv.len() - 1),
            !(fv.len() - 1 < 1 || fv.len() - 1 > MAX_DIM),
            v@.len() == j - 1,
            forall|k: int| 1 <= k < j ==> component_value(encode_utf8(#[trigger] fv[k])) is Some,
            forall|k: int| 0 <= k < j - 1 ==> v@[k] == component_value(encode_utf8(fv[k + 1]))->0 as i64,
            forall|k: int| 0 <= k < j - 1 ==> in_limit(#[trigger] v@[k] as int),
        decreases fields@.len() - j,
    {
        let c = parse_component(fields[j].as_str());
        assert(fv[j as int] == fields@[j as int]@);
        match c {
            None => {
                assert(component_value(encode_utf8(fv[j as int])) is None);
                assert(row_error(fv, dim_of(dim)) == Some(RowError::BadNumber));
                return Err(RowError::BadNumber);
            },
            Some(x) => {
                v.push(x);
            },
        }
        j += 1;
    }
    assert(v@ =~= row_vector(fv));
    Ok(v)
}

/// Reads a table from the lines of a file. The dimension is `expected_dim`
/// when given, else that of the first accepted row. Blank lines are ignored;
/// a later row for a known word replaces its vector. Under `Policy::Strict`
/// the first refused row fails the load; under `Policy::Lenient` refused rows
/// are skipped and listed.
pub fn load(lines: &Vec<String>, expected_dim: Option<usize>, policy: Policy) -> (r: Result<Loaded, ParseError>)
    requires
        expected_dim is Some ==> expected_dim->0 <= MAX_DIM,
    ensures
        policy == Policy::Lenient ==> {
            let st = lenient_load(lines@, lines@.len() as int, dim_of(expected_dim));
            &&& r is Ok
            &&& r->Ok_0.table.wf()
            &&& r->Ok_0.table.entries() == st.1
            &&& r->Ok_0.table.dimension() == state_dim(st)
            &&& r->Ok_0.skipped@ == skipped_rows(lines@, lines@.len() as int, dim_of(expected_dim))
        },
        policy == Policy::Strict ==> {
            let s = strict_load(lines@, lines@.len() as int, dim_of(expected_dim));
            &&& (r is Err <==> s is Err)
            &&& r is Err ==> r->Err_0 == s->Err_0
            &&& r is Ok ==> {
                &&& r->Ok_0.table.wf()
                &&& r->Ok_0.table.entries() == s->Ok_0.1
                &&& r->Ok_0.table.dimension() == state_dim(s->Ok_0)
                &&& r->Ok_0.skipped@.len() == 0
            }
        },
{
    let ghost exp = dim_of(expected_dim);
    let mut dim = expected_dim;
    let mut table = Table::new(
        match expected_dim {
            Some(d) => d,
            None => 0,
        },
    );
    let mut skipped: Vec<ParseError> = Vec::new();
    let mut i: usize = 0;
    while i < lines.len()
        invariant
            i <= lines@.len(),
            exp == dim_of(expected_dim),
            table.wf(),
            dim is Some ==> dim->0 <= MAX_DIM,
            dim is None ==> table.entries().len() == 0,
            lenient_load(lines@, i as int, exp) == (dim_of(dim), table.entries()),
            table.dimension() == state_dim(lenient_load(lines@, i as int, exp)),
            skipped@ == skipped_rows(lines@, i as int, exp),
            policy == Policy::Strict ==> strict_load(lines@, i as int, exp) == Ok::<LoadState, ParseError>(
                lenient_load(lines@, i as int, exp),
            ) && skipped@.len() == 0,
        decreases lines@.len() - i,
    {
        let fields = split_fields(lines[i].as_str());
        let ghost fv = fields@.map_values(|f: String| f@);
        assert(fv == whitespace_fields(lines@[i as int]@));
        assert(fv.len() == fields@.len());
        if fields.len() > 0 {
            match parse_row(&fields, dim) {
                Err(kind) => {
                    let e = ParseError { line: i + 1, kind };
                    if policy == Policy::Strict {
                        proof {
                            lemma_strict_error_persists(lines@, i + 1, lines@.len() as int, exp);
                        }
                        return Err(e);
                    }
                    skipped.push(e);
                },
                Ok(v) => {
                    let count = fields.len() - 1;
                    if dim.is_none() {
                        table = Table::new(count);
                        dim = Some(count);
                    }
                    assert(fv[0] == fields@[0]@);
                    table.insert(fields[0].clone(), v);
                    dim = Some(count);
                },
            }
        }
        i += 1;
    }
    Ok(Loaded { table, skipped })
}

/// With a given dimension, the dimension never changes while loading.
proof fn lemma_dimension_fixed(lines: Seq<String>, n: int, d: nat)
    ensures
        lenient_load(lines, n, Some(d)).0 == Some(d),
    decreases n,
{
    if n > 0 {
        lemma_dimension_fixed(lines, n - 1, d);
    }
}

/// A strict load that succeeds reads what a lenient one reads.
proof fn lemma_strict_ok_is_lenient(lines: Seq<String>, n: int, expected: Option<nat>)
    ensures
        strict_load(lines, n, expected) is Ok ==> strict_load(lines, n, expected)->Ok_0
            == lenient_load(lines, n, expected),
    decreases n,
{
    if n > 0 {
        lemma_strict_ok_is_lenient(lines, n - 1, expected);
    }
}

/// Dropping a line `k` that is refused where it stands leaves the lenient
/// load unchanged.
proof fn lemma_lenient_without(lines: Seq<String>, k: int, n: int, expected: Option<nat>)
    requires
        0 <= k < lines.len(),
        0 <= n <= lines.len(),
        refused(lenient_load(lines, k, expected), lines[k]@),
    ensures
        n <= k ==> lenient_load(lines, n, expected) == lenient_load(lines.remove(k), n, expected),
        n > k ==> lenient_load(lines, n, expected) == lenient_load(lines.remove(k), n - 1, expected),
    decreases n,
{
    let rest = lines.remove(k);
    if n > 0 {
        lemma_lenient_without(lines, k, n - 1, expected);
        if n <= k {
            assert(rest[n - 1] == lines[n - 1]);
        } else if n > k + 1 {
            assert(rest[n - 2] == lines[n - 1]);
        }
    }
}

/// A strict load fails at a line no later than the lines it has read.
proof fn lemma_strict_error_line(lines: Seq<String>, n: int, expected: Option<nat>)
    requires
        n <= usize::MAX,
    ensures
        strict_load(lines, n, expected) is Err ==> 1 <= strict_load(lines, n, expected)->Err_0.line
            <= n,
    decreases n,
{
    if n > 0 {
        lemma_strict_error_line(lines, n - 1, expected);
    }
}

/// A strict load that meets no refused row succeeds.
proof fn lemma_strict_ok_without_refusal(lines: Seq<String>, n: int, expected: Option<nat>)
    requires
        0 <= n <= lines.len(),
        forall|j: int| 0 <= j < n ==> !refused(#[trigger] lenient_load(lines, j, expected), lines[j]@),
    ensures
        strict_load(lines, n, expected) == Ok::<LoadState, ParseError>(lenient_load(lines, n, expected)),
    decreases n,
{
    if n > 0 {
        lemma_strict_ok_without_refusal(lines, n - 1, expected);
    }
}

/// A row whose number of components differs from the dimension in force
/// where it stands (the one given, else that of the first accepted row)
/// fails a strict load, at that line unless an earlier row already failed
/// it, while a lenient load reads exactly the table that the lines without
/// that row give.
pub proof fn law_wrong_field_count(lines: Seq<String>, k: int, expected: Option<nat>, d: nat)
    requires
        0 <= k < lines.len() <= usize::MAX,
        lenient_load(lines, k, expected).0 == Some(d),
        whitespace_fields(lines[k]@).len() > 0,
        whitespace_fields(lines[k]@).len() - 1 != d,
    ensures
        strict_load(lines, lines.len() as int, expected) is Err,
        strict_load(lines, lines.len() as int, expected)->Err_0.line <= k + 1,
        (forall|j: int| 0 <= j < k ==> !refused(#[trigger] lenient_load(lines, j, expected), lines[j]@))
            ==> strict_load(lines, lines.len() as int, expected)->Err_0 == (ParseError {
            line: (k + 1) as usize,
            kind: RowError::WrongFieldCount,
        }),
        lenient_load(lines, lines.len() as int, expected) == lenient_load(
            lines.remove(k),
            lines.len() - 1,
            expected,
        ),
{
    lemma_strict_ok_is_lenient(lines, k, expected);
    lemma_strict_error_line(lines, k, expected);
    if strict_load(lines, k, expected) is Err {
        lemma_strict_error_persists(lines, k, k + 1, expected);
    }
    assert(strict_load(lines, k + 1, expected) is Err);
    lemma_strict_error_persists(lines, k + 1, lines.len() as int, expected);
    if forall|j: int| 0 <= j < k ==> !refused(#[trigger] lenient_load(lines, j, expected), lines[j]@) {
        lemma_strict_ok_without_refusal(lines, k, expected);
    }
    lemma_lenient_without(lines, k, lines.len() as int, expected);
}

/// The same law when the dimension is given: every row whose number of
/// components differs from it is such a row.
pub proof fn law_wrong_field_count_given_dimension(lines: Seq<String>, k: int, d: nat)
    requires
        0 <= k < lines.len() <= usize::MAX,
        whitespace_fields(lines[k]@).len() > 0,
        whitespace_fields(lines[k]@).len() - 1 != d,
    ensures
        strict_load(lines, lines.len() as int, Some(d)) is Err,
        lenient_load(lines, lines.len() as int, Some(d)) == lenient_load(
            lines.remove(k),
            lines.len() - 1,
            Some(d),
        ),
{
    lemma_dimension_fixed(lines, k, d);
    law_wrong_field_count(lines, k, Some(d), d);
}

} // verus!
