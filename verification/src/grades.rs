//! Grade data and its Markdown table.
use vstd::prelude::*;

use crate::dates::{date_text_of, format_timestamp, formattable};
use crate::text::{
    all_ws, ascii_chars, ascii_only, chars_to_string, int_str, is_blank, pad_right, push_int,
    push_padded, str_to_chars,
};

verus! {

/// One course's grades for one user, as the remote source reports them.
pub struct CourseGrades {
    pub courseid: i64,
    pub userid: i64,
    pub gradeitems: Vec<GradeItem>,
}

/// One graded item.
pub struct GradeItem {
    pub id: i64,
    pub itemname: Option<String>,
    pub itemmodule: Option<String>,
    pub iteminstance: i64,
    pub itemnumber: Option<i64>,
    pub idnumber: Option<String>,
    pub categoryid: Option<i64>,
    pub cmid: Option<i64>,
    pub graderaw: Option<i64>,
    pub gradedatesubmitted: Option<i64>,
    pub gradedategraded: Option<i64>,
    pub grademin: i64,
    pub grademax: i64,
    pub feedback: Option<String>,
    pub courseid: Option<i64>,
}

/// The printable name of a graded item.
pub open spec fn grade_name(g: GradeItem) -> Seq<char> {
    match g.itemname {
        Some(n) => ascii_only(n@),
        None => Seq::empty(),
    }
}

/// Whether a graded item gets a table row: it is named, and not blankly.
pub open spec fn grade_included(g: GradeItem) -> bool {
    g.itemname is Some && !all_ws(grade_name(g))
}

/// The name column's width: the widest included name, nine at least.
pub open spec fn name_width(grades: Seq<GradeItem>) -> int
    decreases grades.len(),
{
    if grades.len() == 0 {
        9
    } else {
        let rest = name_width(grades.drop_first());
        if grade_included(grades[0]) && grade_name(grades[0]).len() > rest {
            grade_name(grades[0]).len() as int
        } else {
            rest
        }
    }
}

/// `n` dashes.
pub open spec fn dashes(n: int) -> Seq<char>
    decreases n,
{
    if n <= 0 {
        Seq::empty()
    } else {
        dashes(n - 1) + seq!['-']
    }
}

/// The not-available marker.
pub open spec fn na_text() -> Seq<char> {
    seq!['N', '/', 'A']
}

/// A grade's date column.
pub open spec fn grade_date_text(g: GradeItem) -> Seq<char> {
    match g.gradedategraded {
        Some(d) => date_text_of(d),
        None => na_text(),
    }
}

/// A grade's range column.
pub open spec fn grade_range_text(g: GradeItem) -> Seq<char> {
    int_str(g.grademin as int) + seq![' ', '-', ' '] + int_str(g.grademax as int)
}

/// A grade's value column.
pub open spec fn grade_value_text(g: GradeItem) -> Seq<char> {
    match g.graderaw {
        Some(v) => int_str(v as int),
        None => na_text(),
    }
}

/// One table row, or nothing for a blankly-named item.
pub open spec fn grade_row(g: GradeItem, w: int) -> Seq<char> {
    if grade_included(g) {
        seq!['|', ' '] + pad_right(grade_name(g), w) + seq![' ', '|', ' '] + pad_right(
            grade_date_text(g),
            19,
        ) + seq![' ', '|', ' '] + pad_right(grade_range_text(g), 12) + seq![' ', '|', ' ']
            + pad_right(grade_value_text(g), 5) + seq![' ', '|', '\n']
    } else {
        Seq::empty()
    }
}

/// The table rows, in order.
pub open spec fn grade_rows(grades: Seq<GradeItem>, w: int) -> Seq<char>
    decreases grades.len(),
{
    if grades.len() == 0 {
        Seq::empty()
    } else {
        grade_row(grades[0], w) + grade_rows(grades.drop_first(), w)
    }
}

/// The table's title and column headers.
pub open spec fn grades_header(w: int) -> Seq<char> {
    "# Grades: \n\n| "@ + pad_right("Item Name"@, w) + seq![' ', '|', ' '] + pad_right(
        "Graded On"@,
        19,
    ) + seq![' ', '|', ' '] + pad_right("Range"@, 12) + seq![' ', '|', ' '] + pad_right(
        "Grade"@,
        5,
    ) + seq![' ', '|', '\n', '|'] + dashes(w + 2) + seq!['|'] + dashes(21) + seq!['|'] + dashes(14)
        + seq!['|'] + dashes(7) + seq!['|', '\n']
}

/// The whole grades table.
pub open spec fn grades_md(grades: Seq<GradeItem>) -> Seq<char> {
    grades_header(name_width(grades)) + grade_rows(grades, name_width(grades))
}

/// Whether a graded item gets a table row.
fn included(g: &GradeItem) -> (r: bool)
    ensures
        r == grade_included(*g),
{
    match &g.itemname {
        Some(n) => {
            let chars = str_to_chars(n.as_str());
            let name = ascii_chars(&chars);
            !is_blank(&name)
        },
        None => false,
    }
}

/// The printable name of a graded item.
fn printable_name(g: &GradeItem) -> (r: Vec<char>)
    ensures
        r@ == grade_name(*g),
{
    match &g.itemname {
        Some(n) => {
            let chars = str_to_chars(n.as_str());
            ascii_chars(&chars)
        },
        None => Vec::new(),
    }
}

/// The name column's width over the items from `i` on.
fn width_from(grades: &Vec<GradeItem>, i: usize) -> (r: usize)
    requires
        i <= grades@.len(),
    ensures
        r as int == name_width(grades@.skip(i as int)),
    decreases grades@.len() - i,
{
    if i == grades.len() {
        proof {
            assert(grades@.skip(i as int) =~= Seq::<GradeItem>::empty());
        }
        return 9;
    }
    let rest = width_from(grades, i + 1);
    proof {
        assert(grades@.skip(i as int)[0] == grades@[i as int]);
        assert(grades@.skip(i as int).drop_first() =~= grades@.skip(i + 1));
    }
    let g = &grades[i];
    if included(g) {
        let name = printable_name(g);
        if name.len() > rest {
            return name.len();
        }
    }
    rest
}

/// Splitting a dash run.
proof fn lemma_dashes_add(a: int, b: int)
    requires
        a >= 0,
        b >= 0,
    ensures
        dashes(a + b) == dashes(a) + dashes(b),
    decreases b,
{
    if b == 0 {
        assert(dashes(a) + dashes(0) =~= dashes(a));
    } else {
        lemma_dashes_add(a, b - 1);
        assert(dashes(a + b) == dashes(a + b - 1) + seq!['-']);
        assert(dashes(a) + (dashes(b - 1) + seq!['-']) =~= (dashes(a) + dashes(b - 1)) + seq![
            '-',
        ]);
    }
}

/// Append `n` dashes.
fn push_dashes(out: &mut Vec<char>, n: usize)
    ensures
        final(out)@ == old(out)@ + dashes(n as int),
{
    let mut p: usize = 0;
    proof {
        assert(old(out)@ + dashes(0) =~= old(out)@);
    }
    while p < n
        invariant
            p <= n,
            out@ == old(out)@ + dashes(p as int),
        decreases n - p,
    {
        out.push('-');
        proof {
            assert(dashes(p + 1) =~= dashes(p as int).push('-'));
            assert(old(out)@ + dashes(p + 1) =~= (old(out)@ + dashes(p as int)).push('-'));
        }
        p = p + 1;
    }
}

/// Append one item's table row.
#[verifier::rlimit(60)]
fn push_row(out: &mut Vec<char>, g: &GradeItem, w: usize)
    requires
        g.gradedategraded is Some ==> formattable(g.gradedategraded.unwrap()),
    ensures
        final(out)@ == old(out)@ + grade_row(*g, w as int),
{
    if !included(g) {
        proof {
            assert(final(out)@ =~= old(out)@ + grade_row(*g, w as int));
        }
        return ;
    }
    let name = printable_name(g);
    out.push('|');
    out.push(' ');
    push_padded(out, &name, w);
    out.push(' ');
    out.push('|');
    out.push(' ');
    let date: Vec<char> = match &g.gradedategraded {
        Some(d) => {
            let text = format_timestamp(*d);
            str_to_chars(text.as_str())
        },
        None => {
            let mut v: Vec<char> = Vec::new();
            v.push('N');
            v.push('/');
            v.push('A');
            proof {
                assert(v@ =~= na_text());
            }
            v
        },
    };
    push_padded(out, &date, 19);
    out.push(' ');
    out.push('|');
    out.push(' ');
    let mut range: Vec<char> = Vec::new();
    push_int(&mut range, g.grademin);
    range.push(' ');
    range.push('-');
    range.push(' ');
    push_int(&mut range, g.grademax);
    proof {
        assert(range@ =~= grade_range_text(*g));
    }
    push_padded(out, &range, 12);
    out.push(' ');
    out.push('|');
    out.push(' ');
    let value: Vec<char> = match &g.graderaw {
        Some(v) => {
            let mut t: Vec<char> = Vec::new();
            push_int(&mut t, *v);
            t
        },
        None => {
            let mut v: Vec<char> = Vec::new();
            v.push('N');
            v.push('/');
            v.push('A');
            proof {
                assert(v@ =~= na_text());
            }
            v
        },
    };
    push_padded(out, &value, 5);
    out.push(' ');
    out.push('|');
    out.push('\n');
    proof {
        assert(final(out)@ =~= old(out)@ + grade_row(*g, w as int));
    }
}

/// Append the rows of the items from `i` on.
fn push_rows(out: &mut Vec<char>, grades: &Vec<GradeItem>, i: usize, w: usize)
    requires
        i <= grades@.len(),
        forall|k: int|
            0 <= k < grades@.len() ==> ((#[trigger] grades@[k]).gradedategraded is Some
                ==> formattable(grades@[k].gradedategraded.unwrap())),
    ensures
        final(out)@ == old(out)@ + grade_rows(grades@.skip(i as int), w as int),
    decreases grades@.len() - i,
{
    if i == grades.len() {
        proof {
            assert(grades@.skip(i as int) =~= Seq::<GradeItem>::empty());
            assert(final(out)@ =~= old(out)@ + grade_rows(grades@.skip(i as int), w as int));
        }
        return ;
    }
    push_row(out, &grades[i], w);
    push_rows(out, grades, i + 1, w);
    proof {
        assert(grades@.skip(i as int)[0] == grades@[i as int]);
        assert(grades@.skip(i as int).drop_first() =~= grades@.skip(i + 1));
    }
}

/// Render the grades as a Markdown table: a title, padded column headers
/// for name, date, range and grade, a dashed separator, and one row per
/// named item — blankly-named items are left out, and absent dates or raw
/// grades print as not available.
pub fn parse_grades(grades: Vec<GradeItem>) -> (r: String)
    requires
        forall|k: int|
            0 <= k < grades@.len() ==> ((#[trigger] grades@[k]).gradedategraded is Some
                ==> formattable(grades@[k].gradedategraded.unwrap())),
    ensures
        r@ == grades_md(grades@),
{
    let w = width_from(&grades, 0);
    proof {
        assert(grades@.skip(0) =~= grades@);
    }
    let mut out: Vec<char> = Vec::new();
    let mut title = str_to_chars("# Grades: \n\n| ");
    out.append(&mut title);
    let mut head_name = str_to_chars("Item Name");
    push_padded(&mut out, &head_name, w);
    let mut sep1 = str_to_chars(" | ");
    out.append(&mut sep1);
    let head_date = str_to_chars("Graded On");
    push_padded(&mut out, &head_date, 19);
    let mut sep2 = str_to_chars(" | ");
    out.append(&mut sep2);
    let head_range = str_to_chars("Range");
    push_padded(&mut out, &head_range, 12);
    let mut sep3 = str_to_chars(" | ");
    out.append(&mut sep3);
    let head_grade = str_to_chars("Grade");
    push_padded(&mut out, &head_grade, 5);
    let mut sep4 = str_to_chars(" |\n|");
    out.append(&mut sep4);
    push_dashes(&mut out, w);
    push_dashes(&mut out, 2);
    proof {
        lemma_dashes_add(w as int, 2);
    }
    out.push('|');
    push_dashes(&mut out, 21);
    out.push('|');
    push_dashes(&mut out, 14);
    out.push('|');
    push_dashes(&mut out, 7);
    out.push('|');
    out.push('\n');
    proof {
        reveal_strlit("# Grades: \n\n| ");
        reveal_strlit(" | ");
        reveal_strlit(" |\n|");
        assert(" | "@ =~= seq![' ', '|', ' ']);
        assert(" |\n|"@ =~= seq![' ', '|', '\n', '|']);
        assert(out@ =~= grades_header(w as int));
    }
    push_rows(&mut out, &grades, 0, w);
    chars_to_string(&out)
}

} // verus!
