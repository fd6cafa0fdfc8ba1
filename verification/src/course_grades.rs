//! The grade-report response and its cleanup: every displayed cell is
//! reduced to its plain text.
use vstd::prelude::*;

use crate::parser::ch;
use crate::store::{
    clone_opt_string, first_with_key, lemma_first_match_at, lemma_first_with_key_bounds, opt_view,
};
use crate::text::{chars_to_string, is_ws, str_to_chars};

verus! {

/// The whole grade-report response.
pub struct ApiResponse {
    pub tables: Vec<Table>,
}

/// One course's grade table.
pub struct Table {
    pub courseid: u32,
    pub userid: u32,
    pub userfullname: String,
    pub maxdepth: u8,
    pub tabledata: Vec<TableData>,
}

/// One row of a grade table.
pub struct TableData {
    pub itemname: Option<ItemDetails>,
    pub leader: Option<ItemDetails>,
    pub weight: Option<ItemDetails>,
    pub grade: Option<ItemDetails>,
    pub range: Option<ItemDetails>,
    pub feedback: Option<ItemDetails>,
    pub contributiontocoursetotal: Option<ItemDetails>,
    pub parentcategories: Option<Vec<u32>>,
}

/// One cell of a grade table.
pub struct ItemDetails {
    pub class: String,
    pub colspan: Option<u8>,
    pub content: Option<String>,
    pub id: Option<String>,
    pub rowspan: Option<u8>,
    pub headers: Option<String>,
}

/// The text of an HTML fragment: everything outside tags; a tag without a
/// closing bracket ends the text.
pub open spec fn strip_tags(s: Seq<char>) -> Seq<char>
    decreases s.len(),
    when true
    via strip_tags_decreases
{
    if s.len() == 0 {
        Seq::empty()
    } else if s[0] == '<' {
        let g = first_with_key(s, ch(), '>');
        if g == -1 {
            Seq::empty()
        } else {
            strip_tags(s.skip(g + 1))
        }
    } else {
        seq![s[0]] + strip_tags(s.drop_first())
    }
}

#[via_fn]
proof fn strip_tags_decreases(s: Seq<char>) {
    if s.len() > 0 && s[0] == '<' {
        lemma_first_with_key_bounds(s, ch(), '>');
    }
}

/// `s` without leading whitespace.
pub open spec fn trim_start(s: Seq<char>) -> Seq<char>
    decreases s.len(),
{
    if s.len() > 0 && is_ws(s[0]) {
        trim_start(s.drop_first())
    } else {
        s
    }
}

/// `s` without trailing whitespace.
pub open spec fn trim_end(s: Seq<char>) -> Seq<char>
    decreases s.len(),
{
    if s.len() > 0 && is_ws(s.last()) {
        trim_end(s.drop_last())
    } else {
        s
    }
}

/// `s` without leading or trailing whitespace.
pub open spec fn trim_text(s: Seq<char>) -> Seq<char> {
    trim_end(trim_start(s))
}

/// What a displayed cell is reduced to.
pub open spec fn sanitized(s: Seq<char>) -> Seq<char> {
    trim_text(strip_tags(s))
}

proof fn lemma_trim_start_at(s: Seq<char>, a: int)
    requires
        0 <= a <= s.len(),
        forall|j: int| 0 <= j < a ==> is_ws(#[trigger] s[j]),
        a < s.len() ==> !is_ws(s[a]),
    ensures
        trim_start(s) == s.skip(a),
    decreases s.len(),
{
    if a == 0 {
        assert(s.skip(0) =~= s);
    } else {
        assert(is_ws(s[0]));
        assert forall|j: int| 0 <= j < a - 1 implies is_ws(#[trigger] s.drop_first()[j]) by {
            assert(s.drop_first()[j] == s[j + 1]);
        }
        if a - 1 < s.drop_first().len() {
            assert(s.drop_first()[a - 1] == s[a]);
        }
        lemma_trim_start_at(s.drop_first(), a - 1);
        assert(s.drop_first().skip(a - 1) =~= s.skip(a));
    }
}

proof fn lemma_trim_end_at(s: Seq<char>, b: int)
    requires
        0 <= b <= s.len(),
        forall|j: int| b <= j < s.len() ==> is_ws(#[trigger] s[j]),
        b > 0 ==> !is_ws(s[b - 1]),
    ensures
        trim_end(s) == s.take(b),
    decreases s.len(),
{
    if b == s.len() {
        if s.len() > 0 {
            assert(!is_ws(s.last()));
        }
        assert(s.take(b) =~= s);
    } else {
        assert(is_ws(s.last()));
        assert forall|j: int| b <= j < s.drop_last().len() implies is_ws(
            #[trigger] s.drop_last()[j],
        ) by {
            assert(s.drop_last()[j] == s[j]);
        }
        if b > 0 {
            assert(s.drop_last()[b - 1] == s[b - 1]);
        }
        lemma_trim_end_at(s.drop_last(), b);
        assert(s.drop_last().take(b) =~= s.take(b));
    }
}

/// The tagless text from position `i` on.
fn strip_from(s: &Vec<char>, i: usize) -> (r: Vec<char>)
    requires
        i <= s@.len(),
    ensures
        r@ == strip_tags(s@.skip(i as int)),
    decreases s@.len() - i,
{
    let ghost tail = s@.skip(i as int);
    let n = s.len();
    if i == n {
        assert(tail =~= Seq::<char>::empty());
        return Vec::new();
    }
    let c = s[i];
    proof {
        assert(tail[0] == s@[i as int]);
        assert(tail.drop_first() =~= s@.skip(i + 1));
    }
    if c != '<' {
        let mut out: Vec<char> = Vec::new();
        out.push(c);
        let mut rest = strip_from(s, i + 1);
        out.append(&mut rest);
        proof {
            assert(out@ =~= seq![tail[0]] + strip_tags(tail.drop_first()));
        }
        return out;
    }
    let mut j: usize = i + 1;
    while j < n && s[j] != '>'
        invariant
            i + 1 <= j <= n,
            n == s@.len(),
            s@[i as int] == '<',
            forall|q: int| i < q < j ==> #[trigger] s@[q] != '>',
        decreases n - j,
    {
        j = j + 1;
    }
    if j == n {
        proof {
            assert forall|q: int| 0 <= q < tail.len() implies #[trigger] ch()(tail[q]) != '>' by {
                if q > 0 {
                    assert(tail[q] == s@[i + q]);
                }
            }
            lemma_first_with_key_bounds(tail, ch(), '>');
        }
        return Vec::new();
    }
    proof {
        assert forall|q: int| 0 <= q < j - i implies #[trigger] ch()(tail[q]) != '>' by {
            if q > 0 {
                assert(tail[q] == s@[i + q]);
            }
        }
        assert(ch()(tail[j - i]) == '>');
        lemma_first_match_at(tail, ch(), '>', j - i);
        assert(tail.skip(j - i + 1) =~= s@.skip(j + 1));
    }
    strip_from(s, j + 1)
}

/// Whitespace trimmed from both ends.
fn trim_chars(s: Vec<char>) -> (r: Vec<char>)
    ensures
        r@ == trim_text(s@),
{
    let n = s.len();
    let mut a: usize = 0;
    while a < n && (s[a] == ' ' || s[a] == '\t' || s[a] == '\n' || s[a] == '\r')
        invariant
            a <= n,
            n == s@.len(),
            forall|j: int| 0 <= j < a ==> is_ws(#[trigger] s@[j]),
        decreases n - a,
    {
        a = a + 1;
    }
    proof {
        lemma_trim_start_at(s@, a as int);
    }
    let ghost started = s@.skip(a as int);
    let mut b: usize = n;
    while b > a && (s[b - 1] == ' ' || s[b - 1] == '\t' || s[b - 1] == '\n' || s[b - 1] == '\r')
        invariant
            a <= b <= n,
            n == s@.len(),
            forall|j: int| b <= j < n ==> is_ws(#[trigger] s@[j]),
        decreases b,
    {
        b = b - 1;
    }
    proof {
        assert forall|j: int| b - a <= j < started.len() implies is_ws(#[trigger] started[j]) by {
            assert(started[j] == s@[a + j]);
        }
        if b > a {
            assert(started[b - a - 1] == s@[b - 1]);
        }
        lemma_trim_end_at(started, b - a);
    }
    let mut out: Vec<char> = Vec::new();
    let mut k: usize = a;
    while k < b
        invariant
            a <= k <= b <= n,
            n == s@.len(),
            out@ =~= s@.subrange(a as int, k as int),
        decreases b - k,
    {
        out.push(s[k]);
        proof {
            assert(s@.subrange(a as int, k + 1) =~= s@.subrange(a as int, k as int).push(
                s@[k as int],
            ));
        }
        k = k + 1;
    }
    proof {
        assert(started.take(b - a) =~= s@.subrange(a as int, b as int));
    }
    out
}

/// Reduce an HTML fragment to its trimmed plain text.
pub fn sanitize_html(input: &str) -> (r: String)
    ensures
        r@ == sanitized(input@),
{
    let chars = str_to_chars(input);
    proof {
        assert(chars@.skip(0) =~= chars@);
    }
    let stripped = strip_from(&chars, 0);
    let trimmed = trim_chars(stripped);
    chars_to_string(&trimmed)
}

/// A displayed cell with its content reduced to plain text.
pub open spec fn item_sanitized(o: ItemDetails, n: ItemDetails) -> bool {
    &&& n.class == o.class
    &&& n.colspan == o.colspan
    &&& opt_view(n.content) == (match o.content {
        Some(c) => Some(sanitized(c@)),
        None => None,
    })
    &&& n.id == o.id
    &&& n.rowspan == o.rowspan
    &&& n.headers == o.headers
}

/// An optional cell, sanitized when present.
pub open spec fn opt_item_sanitized(o: Option<ItemDetails>, n: Option<ItemDetails>) -> bool {
    match (o, n) {
        (Some(a), Some(b)) => item_sanitized(a, b),
        (None, None) => true,
        _ => false,
    }
}

/// The view of a row's category path.
pub open spec fn opt_cats_view(o: Option<Vec<u32>>) -> Option<Seq<u32>> {
    match o {
        Some(v) => Some(v@),
        None => None,
    }
}

/// A table row with its displayed cells sanitized: the name, grade and
/// feedback cells are reduced to plain text, everything else is kept.
pub open spec fn data_sanitized(o: TableData, n: TableData) -> bool {
    &&& opt_item_sanitized(o.itemname, n.itemname)
    &&& n.leader == o.leader
    &&& n.weight == o.weight
    &&& opt_item_sanitized(o.grade, n.grade)
    &&& n.range == o.range
    &&& opt_item_sanitized(o.feedback, n.feedback)
    &&& n.contributiontocoursetotal == o.contributiontocoursetotal
    &&& opt_cats_view(n.parentcategories) == opt_cats_view(o.parentcategories)
}

/// A grade table with every row sanitized.
pub open spec fn table_sanitized(o: Table, n: Table) -> bool {
    &&& n.courseid == o.courseid
    &&& n.userid == o.userid
    &&& n.userfullname == o.userfullname
    &&& n.maxdepth == o.maxdepth
    &&& n.tabledata@.len() == o.tabledata@.len()
    &&& forall|i: int|
        0 <= i < o.tabledata@.len() ==> data_sanitized(
            o.tabledata@[i],
            #[trigger] n.tabledata@[i],
        )
}

/// A sanitized copy of a displayed cell.
fn sanitize_item(o: &ItemDetails) -> (r: ItemDetails)
    ensures
        item_sanitized(*o, r),
{
    let content = match &o.content {
        Some(c) => Some(sanitize_html(c.as_str())),
        None => None,
    };
    ItemDetails {
        class: o.class.clone(),
        colspan: o.colspan,
        content,
        id: clone_opt_string(&o.id),
        rowspan: o.rowspan,
        headers: clone_opt_string(&o.headers),
    }
}

/// A sanitized copy of an optional cell.
fn sanitize_opt_item(o: &Option<ItemDetails>) -> (r: Option<ItemDetails>)
    ensures
        opt_item_sanitized(*o, r),
{
    match o {
        Some(item) => Some(sanitize_item(item)),
        None => None,
    }
}

/// Reduce the displayed cells of every table to plain text: the item
/// names, grades and feedback are stripped of markup and trimmed; all
/// other fields pass through.
pub fn process_grades(response: ApiResponse) -> (r: crate::process_result::ProcessResult)
    ensures
        match r {
            crate::process_result::ProcessResult::Grades(tables) => {
                &&& tables@.len() == response.tables@.len()
                &&& forall|i: int|
                    0 <= i < response.tables@.len() ==> table_sanitized(
                        response.tables@[i],
                        #[trigger] tables@[i],
                    )
            },
            _ => false,
        },
{
    let mut out: Vec<Table> = Vec::new();
    let tn = response.tables.len();
    let mut i: usize = 0;
    while i < tn
        invariant
            i <= tn,
            tn == response.tables@.len(),
            out@.len() == i,
            forall|q: int|
                0 <= q < i ==> table_sanitized(response.tables@[q], #[trigger] out@[q]),
        decreases tn - i,
    {
        let t = &response.tables[i];
        let mut rows: Vec<TableData> = Vec::new();
        let rn = t.tabledata.len();
        let mut j: usize = 0;
        while j < rn
            invariant
                j <= rn,
                i < response.tables@.len(),
                *t == response.tables@[i as int],
                rn == t.tabledata@.len(),
                rows@.len() == j,
                forall|q: int|
                    0 <= q < j ==> data_sanitized(t.tabledata@[q], #[trigger] rows@[q]),
            decreases rn - j,
        {
            let d = &t.tabledata[j];
            let row = TableData {
                itemname: sanitize_opt_item(&d.itemname),
                leader: clone_opt_item(&d.leader),
                weight: clone_opt_item(&d.weight),
                grade: sanitize_opt_item(&d.grade),
                range: clone_opt_item(&d.range),
                feedback: sanitize_opt_item(&d.feedback),
                contributiontocoursetotal: clone_opt_item(&d.contributiontocoursetotal),
                parentcategories: clone_opt_cats(&d.parentcategories),
            };
            rows.push(row);
            j = j + 1;
        }
        out.push(
            Table {
                courseid: t.courseid,
                userid: t.userid,
                userfullname: t.userfullname.clone(),
                maxdepth: t.maxdepth,
                tabledata: rows,
            },
        );
        i = i + 1;
    }
    crate::process_result::ProcessResult::Grades(out)
}

/// A copy of an optional cell.
fn clone_opt_item(o: &Option<ItemDetails>) -> (r: Option<ItemDetails>)
    ensures
        r == *o,
{
    match o {
        Some(item) => Some(
            ItemDetails {
                class: item.class.clone(),
                colspan: item.colspan,
                content: clone_opt_string(&item.content),
                id: clone_opt_string(&item.id),
                rowspan: item.rowspan,
                headers: clone_opt_string(&item.headers),
            },
        ),
        None => None,
    }
}

/// A copy of a row's category path.
fn clone_opt_cats(o: &Option<Vec<u32>>) -> (r: Option<Vec<u32>>)
    ensures
        match (o, &r) {
            (Some(a), Some(b)) => a@ == b@,
            (None, None) => true,
            _ => false,
        },
{
    match o {
        Some(v) => {
            let mut out: Vec<u32> = Vec::new();
            let n = v.len();
            let mut i: usize = 0;
            while i < n
                invariant
                    i <= n,
                    n == v@.len(),
                    out@ =~= v@.take(i as int),
                decreases n - i,
            {
                out.push(v[i]);
                proof {
                    assert(v@.take(i + 1) =~= v@.take(i as int).push(v@[i as int]));
                }
                i = i + 1;
            }
            proof {
                assert(v@.take(n as int) =~= v@);
            }
            Some(out)
        },
        None => None,
    }
}

} // verus!
