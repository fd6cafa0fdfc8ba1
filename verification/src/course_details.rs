//! Join-style reconstruction: the flat rows a multi-table join would
//! produce, and the grouped nested document built from the same tables.
//!
//! The grouping collects, per (section, module) group, the distinct content
//! rows and the distinct page/file rows independently, so a module with
//! several content items and a page with several files never multiplies
//! rows into a cross product. Rows are emitted in ascending local-id
//! (insertion) order throughout, never collapsed by a non-deterministic
//! grouping key.
use vstd::prelude::*;

use crate::response::CustomError;
use crate::store::{
    filter_rows, filter_rows_idx, lemma_filter_idx_take_step, lemma_filter_take_step,
    lemma_take_all, opt_view, ContentRow, FileRow, ModuleRow, PageRow, SectionRow, Store,
};
use crate::course::{in_course, in_module, in_section, of_page};

verus! {

/// One flat row of the joined view of a course.
pub struct CourseDetails {
    pub section_name: Option<String>,
    pub section_summary: Option<String>,
    pub module_name: Option<String>,
    pub module_description: Option<String>,
    pub content_id: Option<i64>,
    pub content_filename: Option<String>,
    pub content_fileurl: Option<String>,
    pub content_localpath: Option<String>,
    pub page_name: Option<String>,
    pub page_content: Option<String>,
    pub file_id: Option<i64>,
    pub file_filename: Option<String>,
    pub file_fileurl: Option<String>,
    pub file_localpath: Option<String>,
}

/// The nested document grouped back out of the flat rows.
pub struct ParseCourseDetails {
    pub courseid: Option<i64>,
    pub sections: Vec<SectionDetails>,
}

/// A section group of the nested document.
pub struct SectionDetails {
    pub section_name: Option<String>,
    pub section_summary: Option<String>,
    pub modules: Vec<ModuleDetails>,
}

/// A module group: its distinct content rows and its distinct page/file
/// rows, collected independently.
pub struct ModuleDetails {
    pub module_name: Option<String>,
    pub module_description: Option<String>,
    pub content: Vec<ContentDetails>,
    pub pages: Vec<PageDetails>,
}

/// One content row of a module group.
pub struct ContentDetails {
    pub content_id: Option<i64>,
    pub content_filename: Option<String>,
    pub content_fileurl: Option<String>,
    pub content_localpath: Option<String>,
}

/// One page of a module group with its attachments.
pub struct PageDetails {
    pub page_name: Option<String>,
    pub page_content: Option<String>,
    pub files: Vec<FileDetails>,
}

/// One attachment row of a page.
pub struct FileDetails {
    pub file_id: Option<i64>,
    pub file_filename: Option<String>,
    pub file_fileurl: Option<String>,
    pub file_localpath: Option<String>,
}

/// What a downloadable entry hands the attachment downloader: its filename
/// and its URL, if it carries both.
pub trait GetFileData {
    fn get_file_data(&self) -> Option<(String, String)>;
}

impl GetFileData for ContentDetails {
    fn get_file_data(&self) -> Option<(String, String)> {
        match (&self.content_filename, &self.content_fileurl) {
            (Some(n), Some(u)) => Some((n.clone(), u.clone())),
            _ => None,
        }
    }
}

impl GetFileData for FileDetails {
    fn get_file_data(&self) -> Option<(String, String)> {
        match (&self.file_filename, &self.file_fileurl) {
            (Some(n), Some(u)) => Some((n.clone(), u.clone())),
            _ => None,
        }
    }
}

/// The page rows attached to one module by its course-module id.
pub open spec fn page_of_module(moduleid: i64) -> spec_fn(PageRow) -> bool {
    |p: PageRow| p.coursemodule == moduleid
}

/// The content entry a stored content row and its position group into.
pub open spec fn content_details_matches(pos: int, r: ContentRow, node: ContentDetails) -> bool {
    &&& node.content_id == Some((pos + 1) as i64)
    &&& opt_view(node.content_filename) == Some(r.filename@)
    &&& opt_view(node.content_fileurl) == Some(r.fileurl@)
    &&& opt_view(node.content_localpath) == opt_view(r.localpath)
}

/// The file entry a stored file row and its position group into.
pub open spec fn file_details_matches(pos: int, r: FileRow, node: FileDetails) -> bool {
    &&& node.file_id == Some((pos + 1) as i64)
    &&& opt_view(node.file_filename) == Some(r.filename@)
    &&& opt_view(node.file_fileurl) == Some(r.fileurl@)
    &&& opt_view(node.file_localpath) == opt_view(r.localpath)
}

/// The page group a stored page row collects into: its own columns and
/// exactly its file rows, in stored order.
pub open spec fn page_details_matches(store: Store, r: PageRow, node: PageDetails) -> bool {
    let frows = filter_rows_idx(store.files@, of_page(r.pageid));
    &&& opt_view(node.page_name) == opt_view(r.name)
    &&& opt_view(node.page_content) == opt_view(r.content)
    &&& node.files@.len() == frows.len()
    &&& forall|k: int|
        0 <= k < frows.len() ==> file_details_matches(
            frows[k].0,
            frows[k].1,
            #[trigger] node.files@[k],
        )
}

/// The module group a stored module row collects into: its own columns,
/// exactly its content rows, and exactly its pages, in stored order.
pub open spec fn module_details_matches(store: Store, r: ModuleRow, node: ModuleDetails) -> bool {
    let crows = filter_rows_idx(store.contents@, in_module(r.moduleid));
    let prows = filter_rows(store.pages@, page_of_module(r.moduleid));
    &&& opt_view(node.module_name) == Some(r.name@)
    &&& opt_view(node.module_description) == opt_view(r.description)
    &&& node.content@.len() == crows.len()
    &&& forall|k: int|
        0 <= k < crows.len() ==> content_details_matches(
            crows[k].0,
            crows[k].1,
            #[trigger] node.content@[k],
        )
    &&& node.pages@.len() == prows.len()
    &&& forall|k: int|
        0 <= k < prows.len() ==> page_details_matches(store, prows[k], #[trigger] node.pages@[k])
}

/// The section group a stored section row collects into.
pub open spec fn section_details_matches(store: Store, r: SectionRow, node: SectionDetails) -> bool {
    let mrows = filter_rows(store.modules@, in_section(r.sectionid));
    &&& opt_view(node.section_name) == Some(r.name@)
    &&& opt_view(node.section_summary) == Some(r.summary@)
    &&& node.modules@.len() == mrows.len()
    &&& forall|j: int|
        0 <= j < mrows.len() ==> module_details_matches(store, mrows[j], #[trigger] node.modules@[j])
}

/// The whole grouped document of one course.
pub open spec fn course_details_matches(store: Store, courseid: i64, t: ParseCourseDetails) -> bool {
    let srows = filter_rows(store.sections@, in_course(courseid));
    &&& t.courseid == Some(courseid)
    &&& t.sections@.len() == srows.len()
    &&& forall|i: int|
        0 <= i < srows.len() ==> section_details_matches(store, srows[i], #[trigger] t.sections@[i])
}

/// The file rows of one page, grouped as file entries with their local
/// ids.
fn collect_file_details(store: &Store, pageid: i64) -> (r: Vec<FileDetails>)
    requires
        store.files@.len() < 0x7fff_ffff_ffff_ffff,
    ensures
        r@.len() == filter_rows_idx(store.files@, of_page(pageid)).len(),
        forall|k: int|
            0 <= k < r@.len() ==> file_details_matches(
                filter_rows_idx(store.files@, of_page(pageid))[k].0,
                filter_rows_idx(store.files@, of_page(pageid))[k].1,
                #[trigger] r@[k],
            ),
{
    let mut out: Vec<FileDetails> = Vec::new();
    let n = store.files.len();
    let mut i: usize = 0;
    while i < n
        invariant
            i <= n,
            n == store.files@.len(),
            n < 0x7fff_ffff_ffff_ffff,
            out@.len() == filter_rows_idx(store.files@.take(i as int), of_page(pageid)).len(),
            forall|k: int|
                0 <= k < out@.len() ==> file_details_matches(
                    filter_rows_idx(store.files@.take(i as int), of_page(pageid))[k].0,
                    filter_rows_idx(store.files@.take(i as int), of_page(pageid))[k].1,
                    #[trigger] out@[k],
                ),
        decreases n - i,
    {
        let f = &store.files[i];
        if f.page_id == pageid {
            out.push(
                FileDetails {
                    file_id: Some((i + 1) as i64),
                    file_filename: Some(f.filename.clone()),
                    file_fileurl: Some(f.fileurl.clone()),
                    file_localpath: crate::store::clone_opt_string(&f.localpath),
                },
            );
        }
        proof {
            lemma_filter_idx_take_step(store.files@, of_page(pageid), i as int);
        }
        i = i + 1;
    }
    proof {
        lemma_take_all(store.files@);
    }
    out
}

/// The pages of one module, grouped with their attachments.
fn collect_page_details(store: &Store, moduleid: i64) -> (r: Vec<PageDetails>)
    requires
        store.files@.len() < 0x7fff_ffff_ffff_ffff,
    ensures
        r@.len() == filter_rows(store.pages@, page_of_module(moduleid)).len(),
        forall|k: int|
            0 <= k < r@.len() ==> page_details_matches(
                *store,
                filter_rows(store.pages@, page_of_module(moduleid))[k],
                #[trigger] r@[k],
            ),
{
    let mut out: Vec<PageDetails> = Vec::new();
    let n = store.pages.len();
    let mut i: usize = 0;
    while i < n
        invariant
            i <= n,
            n == store.pages@.len(),
            store.files@.len() < 0x7fff_ffff_ffff_ffff,
            out@.len() == filter_rows(store.pages@.take(i as int), page_of_module(moduleid)).len(),
            forall|k: int|
                0 <= k < out@.len() ==> page_details_matches(
                    *store,
                    filter_rows(store.pages@.take(i as int), page_of_module(moduleid))[k],
                    #[trigger] out@[k],
                ),
        decreases n - i,
    {
        let p = &store.pages[i];
        if p.coursemodule == moduleid {
            let files = collect_file_details(store, p.pageid);
            out.push(
                PageDetails {
                    page_name: crate::store::clone_opt_string(&p.name),
                    page_content: crate::store::clone_opt_string(&p.content),
                    files,
                },
            );
        }
        proof {
            lemma_filter_take_step(store.pages@, page_of_module(moduleid), i as int);
        }
        i = i + 1;
    }
    proof {
        lemma_take_all(store.pages@);
    }
    out
}

/// The content rows of one module, grouped as content entries with their
/// local ids.
fn collect_content_details(store: &Store, moduleid: i64) -> (r: Vec<ContentDetails>)
    requires
        store.contents@.len() < 0x7fff_ffff_ffff_ffff,
    ensures
        r@.len() == filter_rows_idx(store.contents@, in_module(moduleid)).len(),
        forall|k: int|
            0 <= k < r@.len() ==> content_details_matches(
                filter_rows_idx(store.contents@, in_module(moduleid))[k].0,
                filter_rows_idx(store.contents@, in_module(moduleid))[k].1,
                #[trigger] r@[k],
            ),
{
    let mut out: Vec<ContentDetails> = Vec::new();
    let n = store.contents.len();
    let mut i: usize = 0;
    while i < n
        invariant
            i <= n,
            n == store.contents@.len(),
            n < 0x7fff_ffff_ffff_ffff,
            out@.len() == filter_rows_idx(store.contents@.take(i as int), in_module(moduleid)).len(),
            forall|k: int|
                0 <= k < out@.len() ==> content_details_matches(
                    filter_rows_idx(store.contents@.take(i as int), in_module(moduleid))[k].0,
                    filter_rows_idx(store.contents@.take(i as int), in_module(moduleid))[k].1,
                    #[trigger] out@[k],
                ),
        decreases n - i,
    {
        let c = &store.contents[i];
        if c.module_id == moduleid {
            out.push(
                ContentDetails {
                    content_id: Some((i + 1) as i64),
                    content_filename: Some(c.filename.clone()),
                    content_fileurl: Some(c.fileurl.clone()),
                    content_localpath: crate::store::clone_opt_string(&c.localpath),
                },
            );
        }
        proof {
            lemma_filter_idx_take_step(store.contents@, in_module(moduleid), i as int);
        }
        i = i + 1;
    }
    proof {
        lemma_take_all(store.contents@);
    }
    out
}

/// The module groups of one section.
fn collect_module_details(store: &Store, sectionid: i64) -> (r: Vec<ModuleDetails>)
    requires
        store.contents@.len() < 0x7fff_ffff_ffff_ffff,
        store.files@.len() < 0x7fff_ffff_ffff_ffff,
    ensures
        r@.len() == filter_rows(store.modules@, in_section(sectionid)).len(),
        forall|j: int|
            0 <= j < r@.len() ==> module_details_matches(
                *store,
                filter_rows(store.modules@, in_section(sectionid))[j],
                #[trigger] r@[j],
            ),
{
    let mut out: Vec<ModuleDetails> = Vec::new();
    let n = store.modules.len();
    let mut i: usize = 0;
    while i < n
        invariant
            i <= n,
            n == store.modules@.len(),
            store.contents@.len() < 0x7fff_ffff_ffff_ffff,
            store.files@.len() < 0x7fff_ffff_ffff_ffff,
            out@.len() == filter_rows(store.modules@.take(i as int), in_section(sectionid)).len(),
            forall|j: int|
                0 <= j < out@.len() ==> module_details_matches(
                    *store,
                    filter_rows(store.modules@.take(i as int), in_section(sectionid))[j],
                    #[trigger] out@[j],
                ),
        decreases n - i,
    {
        let m = &store.modules[i];
        if m.section_id == sectionid {
            let content = collect_content_details(store, m.moduleid);
            let pages = collect_page_details(store, m.moduleid);
            out.push(
                ModuleDetails {
                    module_name: Some(m.name.clone()),
                    module_description: crate::store::clone_opt_string(&m.description),
                    content,
                    pages,
                },
            );
        }
        proof {
            lemma_filter_take_step(store.modules@, in_section(sectionid), i as int);
        }
        i = i + 1;
    }
    proof {
        lemma_take_all(store.modules@);
    }
    out
}

/// The flat row one attachment joins into.
pub open spec fn file_flat_row(
    s: SectionDetails,
    m: ModuleDetails,
    p: PageDetails,
    f: FileDetails,
) -> CourseDetails {
    CourseDetails {
        section_name: s.section_name,
        section_summary: s.section_summary,
        module_name: m.module_name,
        module_description: m.module_description,
        content_id: None,
        content_filename: None,
        content_fileurl: None,
        content_localpath: None,
        page_name: p.page_name,
        page_content: p.page_content,
        file_id: f.file_id,
        file_filename: f.file_filename,
        file_fileurl: f.file_fileurl,
        file_localpath: f.file_localpath,
    }
}

/// The flat row a page without attachments joins into.
pub open spec fn page_flat_row(s: SectionDetails, m: ModuleDetails, p: PageDetails) -> CourseDetails {
    CourseDetails {
        section_name: s.section_name,
        section_summary: s.section_summary,
        module_name: m.module_name,
        module_description: m.module_description,
        content_id: None,
        content_filename: None,
        content_fileurl: None,
        content_localpath: None,
        page_name: p.page_name,
        page_content: p.page_content,
        file_id: None,
        file_filename: None,
        file_fileurl: None,
        file_localpath: None,
    }
}

/// The flat row one content item joins into.
pub open spec fn content_flat_row(
    s: SectionDetails,
    m: ModuleDetails,
    c: ContentDetails,
) -> CourseDetails {
    CourseDetails {
        section_name: s.section_name,
        section_summary: s.section_summary,
        module_name: m.module_name,
        module_description: m.module_description,
        content_id: c.content_id,
        content_filename: c.content_filename,
        content_fileurl: c.content_fileurl,
        content_localpath: c.content_localpath,
        page_name: None,
        page_content: None,
        file_id: None,
        file_filename: None,
        file_fileurl: None,
        file_localpath: None,
    }
}

/// The flat row a leafless module joins into.
pub open spec fn module_flat_row(s: SectionDetails, m: ModuleDetails) -> CourseDetails {
    CourseDetails {
        section_name: s.section_name,
        section_summary: s.section_summary,
        module_name: m.module_name,
        module_description: m.module_description,
        content_id: None,
        content_filename: None,
        content_fileurl: None,
        content_localpath: None,
        page_name: None,
        page_content: None,
        file_id: None,
        file_filename: None,
        file_fileurl: None,
        file_localpath: None,
    }
}

/// The flat row an empty section joins into.
pub open spec fn section_flat_row(s: SectionDetails) -> CourseDetails {
    CourseDetails {
        section_name: s.section_name,
        section_summary: s.section_summary,
        module_name: None,
        module_description: None,
        content_id: None,
        content_filename: None,
        content_fileurl: None,
        content_localpath: None,
        page_name: None,
        page_content: None,
        file_id: None,
        file_filename: None,
        file_fileurl: None,
        file_localpath: None,
    }
}

/// One page's flat rows: one per attachment, or one bare page row.
pub open spec fn page_rows_flat(s: SectionDetails, m: ModuleDetails, p: PageDetails) -> Seq<
    CourseDetails,
> {
    if p.files@.len() == 0 {
        seq![page_flat_row(s, m, p)]
    } else {
        p.files@.map(|i: int, f: FileDetails| file_flat_row(s, m, p, f))
    }
}

/// The flat rows of a module's pages, in order.
pub open spec fn pages_rows_flat(s: SectionDetails, m: ModuleDetails, ps: Seq<PageDetails>) -> Seq<
    CourseDetails,
>
    decreases ps.len(),
{
    if ps.len() == 0 {
        Seq::empty()
    } else {
        page_rows_flat(s, m, ps[0]) + pages_rows_flat(s, m, ps.drop_first())
    }
}

/// One module's flat rows: its content rows, then its page and file rows,
/// or one bare module row when it owns nothing.
pub open spec fn module_rows_flat(s: SectionDetails, m: ModuleDetails) -> Seq<CourseDetails> {
    if m.content@.len() == 0 && m.pages@.len() == 0 {
        seq![module_flat_row(s, m)]
    } else {
        m.content@.map(|i: int, c: ContentDetails| content_flat_row(s, m, c)) + pages_rows_flat(
            s,
            m,
            m.pages@,
        )
    }
}

/// The flat rows of a section's modules, in order.
pub open spec fn modules_rows_flat(s: SectionDetails, ms: Seq<ModuleDetails>) -> Seq<CourseDetails>
    decreases ms.len(),
{
    if ms.len() == 0 {
        Seq::empty()
    } else {
        module_rows_flat(s, ms[0]) + modules_rows_flat(s, ms.drop_first())
    }
}

/// One section's flat rows, or one bare section row when it is empty.
pub open spec fn section_rows_flat(s: SectionDetails) -> Seq<CourseDetails> {
    if s.modules@.len() == 0 {
        seq![section_flat_row(s)]
    } else {
        modules_rows_flat(s, s.modules@)
    }
}

/// The whole document's flat rows, in order.
pub open spec fn flat_rows(t: ParseCourseDetails) -> Seq<CourseDetails>
    decreases t.sections@.len(),
{
    flat_rows_from(t.sections@)
}

/// The flat rows of a list of sections.
pub open spec fn flat_rows_from(ss: Seq<SectionDetails>) -> Seq<CourseDetails>
    decreases ss.len(),
{
    if ss.len() == 0 {
        Seq::empty()
    } else {
        section_rows_flat(ss[0]) + flat_rows_from(ss.drop_first())
    }
}

/// A copy of a section's own columns into a row template.
fn clone_section_fields(s: &SectionDetails) -> (r: CourseDetails)
    ensures
        r == section_flat_row(*s),
{
    CourseDetails {
        section_name: crate::store::clone_opt_string(&s.section_name),
        section_summary: crate::store::clone_opt_string(&s.section_summary),
        module_name: None,
        module_description: None,
        content_id: None,
        content_filename: None,
        content_fileurl: None,
        content_localpath: None,
        page_name: None,
        page_content: None,
        file_id: None,
        file_filename: None,
        file_fileurl: None,
        file_localpath: None,
    }
}

/// One page's flat rows.
fn flat_page(s: &SectionDetails, m: &ModuleDetails, p: &PageDetails) -> (r: Vec<CourseDetails>)
    ensures
        r@ == page_rows_flat(*s, *m, *p),
{
    let mut out: Vec<CourseDetails> = Vec::new();
    if p.files.len() == 0 {
        let mut row = clone_section_fields(s);
        row.module_name = crate::store::clone_opt_string(&m.module_name);
        row.module_description = crate::store::clone_opt_string(&m.module_description);
        row.page_name = crate::store::clone_opt_string(&p.page_name);
        row.page_content = crate::store::clone_opt_string(&p.page_content);
        assert(row == page_flat_row(*s, *m, *p));
        out.push(row);
        proof {
            assert(out@ =~= page_rows_flat(*s, *m, *p));
        }
        return out;
    }
    let n = p.files.len();
    let mut k: usize = 0;
    while k < n
        invariant
            k <= n,
            n == p.files@.len(),
            out@ =~= p.files@.take(k as int).map(
                |i: int, f: FileDetails| file_flat_row(*s, *m, *p, f),
            ),
        decreases n - k,
    {
        let f = &p.files[k];
        let mut row = clone_section_fields(s);
        row.module_name = crate::store::clone_opt_string(&m.module_name);
        row.module_description = crate::store::clone_opt_string(&m.module_description);
        row.page_name = crate::store::clone_opt_string(&p.page_name);
        row.page_content = crate::store::clone_opt_string(&p.page_content);
        row.file_id = f.file_id;
        row.file_filename = crate::store::clone_opt_string(&f.file_filename);
        row.file_fileurl = crate::store::clone_opt_string(&f.file_fileurl);
        row.file_localpath = crate::store::clone_opt_string(&f.file_localpath);
        assert(row == file_flat_row(*s, *m, *p, p.files@[k as int]));
        out.push(row);
        proof {
            assert(p.files@.take(k + 1) =~= p.files@.take(k as int).push(p.files@[k as int]));
            assert(p.files@.take(k + 1).map(
                |i: int, f: FileDetails| file_flat_row(*s, *m, *p, f),
            ) =~= p.files@.take(k as int).map(
                |i: int, f: FileDetails| file_flat_row(*s, *m, *p, f),
            ).push(file_flat_row(*s, *m, *p, p.files@[k as int])));
        }
        k = k + 1;
    }
    proof {
        assert(p.files@.take(n as int) =~= p.files@);
    }
    out
}

/// One module's flat rows.
fn flat_module(s: &SectionDetails, m: &ModuleDetails) -> (r: Vec<CourseDetails>)
    ensures
        r@ == module_rows_flat(*s, *m),
{
    let mut out: Vec<CourseDetails> = Vec::new();
    if m.content.len() == 0 && m.pages.len() == 0 {
        let mut row = clone_section_fields(s);
        row.module_name = crate::store::clone_opt_string(&m.module_name);
        row.module_description = crate::store::clone_opt_string(&m.module_description);
        assert(row == module_flat_row(*s, *m));
        out.push(row);
        proof {
            assert(out@ =~= module_rows_flat(*s, *m));
        }
        return out;
    }
    let cn = m.content.len();
    let mut k: usize = 0;
    while k < cn
        invariant
            k <= cn,
            cn == m.content@.len(),
            out@ =~= m.content@.take(k as int).map(
                |i: int, c: ContentDetails| content_flat_row(*s, *m, c),
            ),
        decreases cn - k,
    {
        let c = &m.content[k];
        let mut row = clone_section_fields(s);
        row.module_name = crate::store::clone_opt_string(&m.module_name);
        row.module_description = crate::store::clone_opt_string(&m.module_description);
        row.content_id = c.content_id;
        row.content_filename = crate::store::clone_opt_string(&c.content_filename);
        row.content_fileurl = crate::store::clone_opt_string(&c.content_fileurl);
        row.content_localpath = crate::store::clone_opt_string(&c.content_localpath);
        assert(row == content_flat_row(*s, *m, m.content@[k as int]));
        out.push(row);
        proof {
            assert(m.content@.take(k + 1) =~= m.content@.take(k as int).push(
                m.content@[k as int],
            ));
            assert(m.content@.take(k + 1).map(
                |i: int, c: ContentDetails| content_flat_row(*s, *m, c),
            ) =~= m.content@.take(k as int).map(
                |i: int, c: ContentDetails| content_flat_row(*s, *m, c),
            ).push(content_flat_row(*s, *m, m.content@[k as int])));
        }
        k = k + 1;
    }
    proof {
        assert(m.content@.take(cn as int) =~= m.content@);
    }
    let pn = m.pages.len();
    let mut q: usize = 0;
    while q < pn
        invariant
            q <= pn,
            pn == m.pages@.len(),
            cn == m.content@.len(),
            out@ =~= m.content@.map(|i: int, c: ContentDetails| content_flat_row(*s, *m, c))
                + pages_rows_flat(*s, *m, m.pages@.take(q as int)),
        decreases pn - q,
    {
        let mut rows = flat_page(s, m, &m.pages[q]);
        out.append(&mut rows);
        proof {
            assert(m.pages@.take(q + 1) =~= m.pages@.take(q as int).push(m.pages@[q as int]));
            lemma_pages_rows_flat_push(*s, *m, m.pages@.take(q as int), m.pages@[q as int]);
        }
        q = q + 1;
    }
    proof {
        assert(m.pages@.take(pn as int) =~= m.pages@);
    }
    out
}

/// Appending one page extends its module's flat rows at the end.
proof fn lemma_pages_rows_flat_push(
    s: SectionDetails,
    m: ModuleDetails,
    ps: Seq<PageDetails>,
    p: PageDetails,
)
    ensures
        pages_rows_flat(s, m, ps.push(p)) == pages_rows_flat(s, m, ps) + page_rows_flat(s, m, p),
    decreases ps.len(),
{
    if ps.len() == 0 {
        assert(ps.push(p).drop_first() =~= Seq::<PageDetails>::empty());
        assert(ps.push(p)[0] == p);
        assert(pages_rows_flat(s, m, Seq::<PageDetails>::empty()) == Seq::<CourseDetails>::empty());
        assert(pages_rows_flat(s, m, ps.push(p)) == page_rows_flat(s, m, p) + Seq::<
            CourseDetails,
        >::empty());
        assert(page_rows_flat(s, m, p) + Seq::<CourseDetails>::empty() =~= page_rows_flat(
            s,
            m,
            p,
        ));
        assert(pages_rows_flat(s, m, ps) + page_rows_flat(s, m, p) =~= page_rows_flat(s, m, p));
    } else {
        assert(ps.push(p)[0] == ps[0]);
        assert(ps.push(p).drop_first() =~= ps.drop_first().push(p));
        lemma_pages_rows_flat_push(s, m, ps.drop_first(), p);
        assert((page_rows_flat(s, m, ps[0]) + (pages_rows_flat(s, m, ps.drop_first())
            + page_rows_flat(s, m, p))) =~= ((page_rows_flat(s, m, ps[0]) + pages_rows_flat(
            s,
            m,
            ps.drop_first(),
        )) + page_rows_flat(s, m, p)));
    }
}

/// The flat rows of the sections from index `i` on.
fn flat_sections(sections: &Vec<SectionDetails>, i: usize) -> (r: Vec<CourseDetails>)
    requires
        i <= sections@.len(),
    ensures
        r@ == flat_rows_from(sections@.skip(i as int)),
    decreases sections@.len() - i,
{
    if i == sections.len() {
        proof {
            assert(sections@.skip(i as int) =~= Seq::<SectionDetails>::empty());
        }
        return Vec::new();
    }
    let s = &sections[i];
    let mut out: Vec<CourseDetails> = Vec::new();
    if s.modules.len() == 0 {
        let row = clone_section_fields(s);
        out.push(row);
        proof {
            assert(out@ =~= section_rows_flat(sections@[i as int]));
        }
    } else {
        let mn = s.modules.len();
        let mut j: usize = 0;
        while j < mn
            invariant
                j <= mn,
                i < sections@.len(),
                *s == sections@[i as int],
                mn == s.modules@.len(),
                mn > 0,
                out@ =~= modules_rows_flat(*s, s.modules@.take(j as int)),
            decreases mn - j,
        {
            let mut rows = flat_module(s, &s.modules[j]);
            out.append(&mut rows);
            proof {
                assert(s.modules@.take(j + 1) =~= s.modules@.take(j as int).push(
                    s.modules@[j as int],
                ));
                lemma_modules_rows_flat_push(*s, s.modules@.take(j as int), s.modules@[j as int]);
            }
            j = j + 1;
        }
        proof {
            assert(s.modules@.take(mn as int) =~= s.modules@);
            assert(out@ =~= section_rows_flat(sections@[i as int]));
        }
    }
    let mut rest = flat_sections(sections, i + 1);
    out.append(&mut rest);
    proof {
        assert(sections@.skip(i as int)[0] == sections@[i as int]);
        assert(sections@.skip(i as int).drop_first() =~= sections@.skip(i + 1));
    }
    out
}

/// Appending one module extends its section's flat rows at the end.
proof fn lemma_modules_rows_flat_push(s: SectionDetails, ms: Seq<ModuleDetails>, m: ModuleDetails)
    ensures
        modules_rows_flat(s, ms.push(m)) == modules_rows_flat(s, ms) + module_rows_flat(s, m),
    decreases ms.len(),
{
    if ms.len() == 0 {
        assert(ms.push(m).drop_first() =~= Seq::<ModuleDetails>::empty());
        assert(ms.push(m)[0] == m);
        assert(modules_rows_flat(s, Seq::<ModuleDetails>::empty()) == Seq::<CourseDetails>::empty());
        assert(modules_rows_flat(s, ms.push(m)) == module_rows_flat(s, m) + Seq::<
            CourseDetails,
        >::empty());
        assert(module_rows_flat(s, m) + Seq::<CourseDetails>::empty() =~= module_rows_flat(s, m));
        assert(modules_rows_flat(s, ms) + module_rows_flat(s, m) =~= module_rows_flat(s, m));
    } else {
        assert(ms.push(m)[0] == ms[0]);
        assert(ms.push(m).drop_first() =~= ms.drop_first().push(m));
        lemma_modules_rows_flat_push(s, ms.drop_first(), m);
        assert((module_rows_flat(s, ms[0]) + (modules_rows_flat(s, ms.drop_first())
            + module_rows_flat(s, m))) =~= ((module_rows_flat(s, ms[0]) + modules_rows_flat(
            s,
            ms.drop_first(),
        )) + module_rows_flat(s, m)));
    }
}

/// The flat rows a single deterministic outer join over the course's
/// tables would emit: one row per leaf, in stored order, each carrying its
/// section's, module's and leaf's columns — never collapsed by a
/// non-deterministic grouping key.
pub fn get_course_details(t: &ParseCourseDetails) -> (r: Vec<CourseDetails>)
    ensures
        r@ == flat_rows(*t),
{
    proof {
        assert(t.sections@.skip(0) =~= t.sections@);
    }
    flat_sections(&t.sections, 0)
}

/// Group one course's stored rows into the nested document. A course with
/// no stored sections is reported as "not yet synced", never as a silent
/// empty document.
pub fn parse_course_details(store: &Store, courseid: i64) -> (r: Result<
    ParseCourseDetails,
    CustomError,
>)
    requires
        store.contents@.len() < 0x7fff_ffff_ffff_ffff,
        store.files@.len() < 0x7fff_ffff_ffff_ffff,
    ensures
        r is Ok <==> filter_rows(store.sections@, in_course(courseid)).len() > 0,
        match r {
            Ok(t) => course_details_matches(*store, courseid, t),
            Err(e) => e is Other,
        },
{
    let mut out: Vec<SectionDetails> = Vec::new();
    let n = store.sections.len();
    let mut i: usize = 0;
    while i < n
        invariant
            i <= n,
            n == store.sections@.len(),
            store.contents@.len() < 0x7fff_ffff_ffff_ffff,
            store.files@.len() < 0x7fff_ffff_ffff_ffff,
            out@.len() == filter_rows(store.sections@.take(i as int), in_course(courseid)).len(),
            forall|q: int|
                0 <= q < out@.len() ==> section_details_matches(
                    *store,
                    filter_rows(store.sections@.take(i as int), in_course(courseid))[q],
                    #[trigger] out@[q],
                ),
        decreases n - i,
    {
        let s = &store.sections[i];
        if s.courseid == courseid {
            let modules = collect_module_details(store, s.sectionid);
            out.push(
                SectionDetails {
                    section_name: Some(s.name.clone()),
                    section_summary: Some(s.summary.clone()),
                    modules,
                },
            );
        }
        proof {
            lemma_filter_take_step(store.sections@, in_course(courseid), i as int);
        }
        i = i + 1;
    }
    proof {
        lemma_take_all(store.sections@);
    }
    if out.len() == 0 {
        return Err(
            CustomError::Other("no stored rows for this course; run a fetch first".to_owned()),
        );
    }
    Ok(ParseCourseDetails { courseid: Some(courseid), sections: out })
}

} // verus!
