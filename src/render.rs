//! The tab-separated report text: a header line, then one line per member of
//! each duplicate group.

use crate::duplicates::{is_duplicate_report, DuplicateEntry};
use crate::index::FileIndex;
use time::OffsetDateTime;
use vstd::prelude::*;
use vstd::string::*;

verus! {

/// The earliest modification time that can be rendered: the first second of
/// year -9999, UTC.
pub const MIN_RENDERABLE_MTIME: i64 = -377705116800;

/// The latest modification time that can be rendered: the last second of year
/// 9999, UTC.
pub const MAX_RENDERABLE_MTIME: i64 = 253402300799;

/// Why a report could not be rendered.
#[derive(Clone, Debug)]
pub enum ReportError {
    /// A member's modification time lies outside the calendar range.
    TimestampOutOfRange { path: String, mtime: i64 },
}

/// The calendar rendering, in UTC, of a modification time given in seconds
/// since the Unix epoch.
pub uninterp spec fn rendered_timestamp(secs: i64) -> Seq<char>;

/// Whether a modification time lies in the renderable range.
pub open spec fn renderable(secs: i64) -> bool {
    MIN_RENDERABLE_MTIME <= secs <= MAX_RENDERABLE_MTIME
}

/// Relies on `time::OffsetDateTime::from_unix_timestamp`, which succeeds
/// exactly for the seconds from the start of year -9999 to the end of year
/// 9999 (the crate is built without large dates), and on the `Display` of the
/// resulting UTC date-time, which depends on those seconds alone.
#[verifier::external_body]
fn format_timestamp(secs: i64) -> (r: Option<String>)
    ensures
        r.is_some() == renderable(secs),
        r matches Some(s) ==> s@ == rendered_timestamp(secs),
{
    match OffsetDateTime::from_unix_timestamp(secs) {
        Ok(t) => Some(t.to_string()),
        Err(_) => None,
    }
}

/// The decimal digit for `d` below ten.
pub open spec fn digit_char(d: nat) -> char {
    seq!['0', '1', '2', '3', '4', '5', '6', '7', '8', '9'][d as int]
}

/// The decimal digits of `n`, most significant first, without padding.
pub open spec fn decimal_digits(n: nat) -> Seq<char>
    decreases n,
{
    if n < 10 {
        seq![digit_char(n)]
    } else {
        decimal_digits(n / 10).push(digit_char(n % 10))
    }
}

/// Relies on the `Display` of `u64` (through `to_string`): its decimal digits,
/// with no sign and no padding.
#[verifier::external_body]
fn decimal_string(n: u64) -> (r: String)
    ensures
        r@ == decimal_digits(n as nat),
{
    n.to_string()
}

/// The header line of the report.
pub open spec fn header_line() -> Seq<char> {
    "Group\tPath\tLast Modified"@
}

/// The report line of one group member.
pub open spec fn member_line(group: u64, path: Seq<char>, stamp: Seq<char>) -> Seq<char> {
    decimal_digits(group as nat) + "\t"@ + path + "\t"@ + stamp
}

/// The whole report for `rows`, one line each after the header.
pub open spec fn report_lines(rows: Seq<DuplicateEntry>) -> Seq<Seq<char>> {
    seq![header_line()] + rows.map_values(
        |e: DuplicateEntry| member_line(e.group, e.path@, rendered_timestamp(e.mtime)),
    )
}

/// The views of a list of lines.
pub open spec fn line_views(lines: Seq<String>) -> Seq<Seq<char>> {
    lines.map_values(|l: String| l@)
}

/// Whether `i` is the first row whose modification time cannot be rendered.
pub open spec fn first_unrenderable(rows: Seq<DuplicateEntry>, i: int) -> bool {
    &&& 0 <= i < rows.len()
    &&& !renderable(rows[i].mtime)
    &&& forall|j: int| 0 <= j < i ==> renderable(#[trigger] rows[j].mtime)
}

/// The header line.
pub fn header() -> (r: String)
    ensures
        r@ == header_line(),
{
    proof {
        reveal_strlit("Group\tPath\tLast Modified");
    }
    String::from_str("Group\tPath\tLast Modified")
}

/// The line for `entry`, given its rendered modification time `stamp`.
pub fn render_line(entry: &DuplicateEntry, stamp: &str) -> (r: String)
    ensures
        r@ == member_line(entry.group, entry.path@, stamp@),
{
    proof {
        reveal_strlit("\t");
    }
    let mut line = decimal_string(entry.group);
    line.append("\t");
    line.append(entry.path.as_str());
    line.append("\t");
    line.append(stamp);
    line
}

/// The report for `rows`: the header, then one line per row in the given
/// order. Fails on the first row whose modification time lies outside the
/// renderable range.
pub fn render_report(rows: &Vec<DuplicateEntry>) -> (r: Result<Vec<String>, ReportError>)
    ensures
        r.is_ok() == (forall|i: int| 0 <= i < rows@.len() ==> renderable(#[trigger] rows@[i].mtime)),
        r matches Ok(lines) ==> line_views(lines@) == report_lines(rows@),
        r matches Err(ReportError::TimestampOutOfRange { path, mtime }) ==> exists|i: int|
            first_unrenderable(rows@, i) && path@ == rows@[i].path@ && mtime == rows@[i].mtime,
{
    let mut lines: Vec<String> = Vec::new();
    lines.push(header());
    let mut i: usize = 0;
    while i < rows.len()
        invariant
            i <= rows@.len(),
            forall|j: int| 0 <= j < i ==> renderable(#[trigger] rows@[j].mtime),
            line_views(lines@) == report_lines(rows@.take(i as int)),
        decreases rows@.len() - i,
    {
        let row = &rows[i];
        match format_timestamp(row.mtime) {
            Some(stamp) => {
                let line = render_line(row, stamp.as_str());
                let ghost pre = lines@;
                lines.push(line);
                assert(rows@.take(i as int + 1) =~= rows@.take(i as int).push(rows@[i as int]));
                assert(line_views(lines@) =~= line_views(pre).push(line@));
                assert(report_lines(rows@.take(i as int + 1)) =~= report_lines(rows@.take(i as int)).push(
                    line@,
                ));
            },
            None => {
                assert(first_unrenderable(rows@, i as int));
                return Err(ReportError::TimestampOutOfRange { path: row.path.clone(), mtime: row.mtime });
            },
        }
        i = i + 1;
    }
    assert(rows@.take(rows@.len() as int) =~= rows@);
    Ok(lines)
}

/// The report of an index: the header, then one line per member of each
/// duplicate group, in group order and path order within a group.
pub fn index_report(index: &FileIndex) -> (r: Result<Vec<String>, ReportError>)
    requires
        index.wf(),
    ensures
        exists|rows: Seq<DuplicateEntry>|
            {
                &&& is_duplicate_report(index@, rows)
                &&& r.is_ok() == (forall|i: int| 0 <= i < rows.len() ==> renderable(#[trigger] rows[i].mtime))
                &&& r matches Ok(lines) ==> line_views(lines@) == report_lines(rows)
            },
{
    let rows = index.duplicate_rows();
    let r = render_report(&rows);
    assert(is_duplicate_report(index@, rows@));
    r
}

/// The glyph of a progress spinner after `count` files: it turns through
/// `|`, `/`, `-` and a backslash, in that order.
pub open spec fn spinner_glyph(count: u64) -> char {
    seq!['|', '/', '-', '\\'][(count % 4) as int]
}

/// The spinner glyph to show after `count` files.
pub fn spinner_frame(count: u64) -> (r: char)
    ensures
        r == spinner_glyph(count),
{
    let glyphs: [char; 4] = ['|', '/', '-', '\\'];
    let r = glyphs[(count % 4) as usize];
    assert(glyphs@ =~= seq!['|', '/', '-', '\\']);
    r
}

} // verus!
