//! Rendering of difference records as comma-separated text.
use crate::diff::{compare_dbc_files, dbc_diff, rviews, ComparisonResult, RecordView, ResultType};
use crate::model::Dbc;
use crate::text::{chars_of, string_of};
use vstd::prelude::*;

verus! {

pub open spec fn needs_quotes(f: Seq<char>) -> bool {
    f.contains(',') || f.contains('"') || f.contains('\n')
}

/// The text with each double quote doubled.
pub open spec fn doubled_quotes(f: Seq<char>) -> Seq<char>
    decreases f.len(),
{
    if f.len() == 0 {
        Seq::empty()
    } else if f.last() == '"' {
        doubled_quotes(f.drop_last()) + seq!['"', '"']
    } else {
        doubled_quotes(f.drop_last()).push(f.last())
    }
}

/// A field as it stands in a row: wrapped in double quotes, inner ones
/// doubled, when it holds a comma, a double quote or a newline.
pub open spec fn escaped(f: Seq<char>) -> Seq<char> {
    if needs_quotes(f) {
        seq!['"'] + doubled_quotes(f) + seq!['"']
    } else {
        f
    }
}

fn escaped_chars(f: &Vec<char>) -> (r: Vec<char>)
    ensures
        r@ == escaped(f@),
{
    let mut quote = false;
    let mut i: usize = 0;
    while i < f.len()
        invariant
            i <= f.len(),
            quote == (exists|j: int| 0 <= j < i && (f@[j] == ',' || f@[j] == '"' || f@[j] == '\n')),
        decreases f.len() - i,
    {
        if f[i] == ',' || f[i] == '"' || f[i] == '\n' {
            quote = true;
        }
        i = i + 1;
    }
    proof {
        if quote {
            let j = choose|j: int| 0 <= j < f.len() && (f@[j] == ',' || f@[j] == '"' || f@[j] == '\n');
            if f@[j] == ',' {
                assert(f@.contains(','));
            } else if f@[j] == '"' {
                assert(f@.contains('"'));
            } else {
                assert(f@.contains('\n'));
            }
        }
    }
    if !quote {
        return f.clone();
    }
    let mut out: Vec<char> = Vec::new();
    out.push('"');
    let mut k: usize = 0;
    while k < f.len()
        invariant
            k <= f.len(),
            out@ == seq!['"'] + doubled_quotes(f@.take(k as int)),
        decreases f.len() - k,
    {
        assert(f@.take(k + 1).drop_last() =~= f@.take(k as int));
        if f[k] == '"' {
            out.push('"');
            out.push('"');
        } else {
            out.push(f[k]);
        }
        k = k + 1;
        assert(out@ =~= seq!['"'] + doubled_quotes(f@.take(k as int)));
    }
    assert(f@.take(k as int) =~= f@);
    out.push('"');
    out
}

/// The field as it stands in a row of comma-separated text.
pub fn escape_csv_field(field: &str) -> (r: String)
    ensures
        r@ == escaped(field@),
{
    let v = chars_of(field);
    let e = escaped_chars(&v);
    string_of(&e)
}

pub open spec fn kind_text(k: ResultType) -> Seq<char> {
    match k {
        ResultType::Message => "Message"@,
        ResultType::Signal => "Signal"@,
    }
}

/// One record as a line of text.
pub open spec fn csv_row(r: RecordView) -> Seq<char> {
    escaped(kind_text(r.kind)) + seq![','] + escaped(r.message) + seq![','] + escaped(r.signal) + seq![',']
        + escaped(r.field) + seq![','] + escaped(r.dbc1) + seq![','] + escaped(r.dbc2) + seq!['\n']
}

pub open spec fn csv_header() -> Seq<char> {
    "Type,Message,Signal,Field,DBC1,DBC2\n"@
}

pub open spec fn csv_rows(rs: Seq<RecordView>) -> Seq<char>
    decreases rs.len(),
{
    if rs.len() == 0 {
        Seq::empty()
    } else {
        csv_rows(rs.drop_last()) + csv_row(rs.last())
    }
}

fn push_escaped(out: &mut String, f: &str)
    ensures
        final(out)@ == old(out)@ + escaped(f@),
{
    let e = escape_csv_field(f);
    out.append(e.as_str());
}

fn push_separator(out: &mut String, c: &str)
    ensures
        final(out)@ == old(out)@ + c@,
{
    out.append(c);
}

fn csv_row_text(r: &ComparisonResult) -> (s: String)
    ensures
        s@ == csv_row(r@),
{
    proof {
        reveal_strlit(",");
        reveal_strlit("\n");
        assert(","@ =~= seq![',']);
        assert("\n"@ =~= seq!['\n']);
    }
    let mut out = String::new();
    match r.result_type {
        ResultType::Message => push_escaped(&mut out, "Message"),
        ResultType::Signal => push_escaped(&mut out, "Signal"),
    }
    push_separator(&mut out, ",");
    push_escaped(&mut out, r.message.as_str());
    push_separator(&mut out, ",");
    push_escaped(&mut out, r.signal.as_str());
    push_separator(&mut out, ",");
    push_escaped(&mut out, r.field.as_str());
    push_separator(&mut out, ",");
    push_escaped(&mut out, r.dbc1.as_str());
    push_separator(&mut out, ",");
    push_escaped(&mut out, r.dbc2.as_str());
    push_separator(&mut out, "\n");
    assert(out@ =~= csv_row(r@));
    out
}

/// The records as comma-separated text: a header line, then one line per record.
pub fn comparison_to_csv(results: &Vec<ComparisonResult>) -> (r: String)
    ensures
        r@ == csv_header() + csv_rows(rviews(results@)),
{
    let mut out = String::new();
    out.append("Type,Message,Signal,Field,DBC1,DBC2\n");
    let ghost rv = rviews(results@);
    let mut i: usize = 0;
    assert(out@ =~= csv_header() + csv_rows(rv.take(0)));
    while i < results.len()
        invariant
            i <= results.len(),
            rv == rviews(results@),
            out@ == csv_header() + csv_rows(rv.take(i as int)),
        decreases results.len() - i,
    {
        let ghost before = out@;
        let row = csv_row_text(&results[i]);
        out.append(row.as_str());
        assert(rv.take(i + 1).drop_last() =~= rv.take(i as int));
        assert(out@ =~= csv_header() + csv_rows(rv.take(i + 1)));
        i = i + 1;
    }
    assert(rv.take(i as int) =~= rv);
    out
}

/// The comparison of two databases as comma-separated text.
pub fn compare_dbc_to_csv(dbc1: &Dbc, dbc2: &Dbc) -> (r: String)
    ensures
        r@ == csv_header() + csv_rows(dbc_diff(dbc1@, dbc2@)),
{
    let results = compare_dbc_files(dbc1, dbc2);
    comparison_to_csv(&results)
}

} // verus!
