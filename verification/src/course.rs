//! The assembled course tree and the staged retrieval that builds it.
//!
//! The assembler re-joins the normalized tables into the nested
//! section -> module -> content tree: sections of a course, each section's
//! modules, each module's content items, all in stored (insertion) order.
//! Where a page shares a module's course-module id, the combine step
//! overwrites the module's description with the page's content and replaces
//! its attached files by the page's files.
use vstd::prelude::*;

use crate::store::{
    filter_rows, last_match, lemma_filter_take_step, lemma_last_match_at, lemma_take_all,
    opt_view, ContentRow, FileRow, ModuleRow, PageRow, SectionRow, Store,
};

verus! {

/// A section of the assembled tree.
pub struct CourseSection {
    pub id: i64,
    pub name: String,
    pub summary: String,
    pub courseid: Option<i64>,
    pub modules: Vec<CourseModule>,
}

/// A module of the assembled tree.
pub struct CourseModule {
    pub id: i64,
    pub name: String,
    pub instance: Option<i64>,
    pub contextid: Option<i64>,
    pub description: Option<String>,
    pub contents: Option<Vec<CourseFile>>,
    pub section_id: Option<i64>,
}

/// A file of the assembled tree: a module's content item or a page's
/// attachment.
pub struct CourseFile {
    pub filename: Option<String>,
    pub filepath: Option<String>,
    pub fileurl: Option<String>,
    pub timemodified: Option<i64>,
    pub module_id: Option<i64>,
}

/// The pages read back from the store, shaped for the combine step.
pub struct Pages {
    pub pages: Vec<Page>,
    pub warnings: Vec<String>,
}

/// A page read back from the store with its attachments.
pub struct Page {
    pub id: i64,
    pub coursemodule: i64,
    pub course: i64,
    pub name: Option<String>,
    pub intro: Option<String>,
    pub introfiles: Vec<CourseFile>,
    pub content: Option<String>,
    pub contentfiles: Vec<CourseFile>,
    pub revision: i64,
    pub timemodified: Option<i64>,
}

/// The section rows of one course.
pub open spec fn in_course(courseid: i64) -> spec_fn(SectionRow) -> bool {
    |r: SectionRow| r.courseid == courseid
}

/// The module rows of one section.
pub open spec fn in_section(sectionid: i64) -> spec_fn(ModuleRow) -> bool {
    |m: ModuleRow| m.section_id == sectionid
}

/// The content rows of one module.
pub open spec fn in_module(moduleid: i64) -> spec_fn(ContentRow) -> bool {
    |c: ContentRow| c.module_id == moduleid
}

/// The file rows of one page.
pub open spec fn of_page(pageid: i64) -> spec_fn(FileRow) -> bool {
    |f: FileRow| f.page_id == pageid
}

/// The tree file a content row is read back as.
pub open spec fn content_node_matches(r: ContentRow, f: CourseFile) -> bool {
    &&& opt_view(f.filename) == Some(r.filename@)
    &&& opt_view(f.fileurl) == Some(r.fileurl@)
    &&& opt_view(f.filepath) == opt_view(r.localpath)
    &&& f.timemodified == r.timemodified
    &&& f.module_id == Some(r.module_id)
}

/// The tree file a page's file row is read back as.
pub open spec fn file_node_matches(r: FileRow, f: CourseFile) -> bool {
    &&& opt_view(f.filename) == Some(r.filename@)
    &&& opt_view(f.fileurl) == Some(r.fileurl@)
    &&& opt_view(f.filepath) == opt_view(r.localpath)
    &&& f.timemodified == r.timemodified
    &&& f.module_id is None
}

/// The tree module a module row is read back as: the row's own columns,
/// and exactly its content rows, in stored order.
pub open spec fn module_node_matches(store: Store, r: ModuleRow, node: CourseModule) -> bool {
    let crows = filter_rows(store.contents@, in_module(r.moduleid));
    &&& node.id == r.moduleid
    &&& node.name@ == r.name@
    &&& node.instance == r.instance
    &&& node.contextid == r.contextid
    &&& opt_view(node.description) == opt_view(r.description)
    &&& node.section_id == Some(r.section_id)
    &&& match node.contents {
        Some(v) => crows.len() > 0 && v@.len() == crows.len() && (forall|k: int|
            0 <= k < crows.len() ==> content_node_matches(crows[k], #[trigger] v@[k])),
        None => crows.len() == 0,
    }
}

/// The tree section a section row is read back as: the row's own columns,
/// and exactly its module rows, in stored order.
pub open spec fn section_node_matches(store: Store, r: SectionRow, node: CourseSection) -> bool {
    let mrows = filter_rows(store.modules@, in_section(r.sectionid));
    &&& node.id == r.sectionid
    &&& node.name@ == r.name@
    &&& node.summary@ == r.summary@
    &&& node.courseid == Some(r.courseid)
    &&& node.modules@.len() == mrows.len()
    &&& forall|j: int|
        0 <= j < mrows.len() ==> module_node_matches(store, mrows[j], #[trigger] node.modules@[j])
}

/// The page a page row is read back as: its attachments are the union of
/// the intro's and the content's files, which the store keeps in one table.
pub open spec fn page_node_matches(store: Store, r: PageRow, node: Page) -> bool {
    let frows = filter_rows(store.files@, of_page(r.pageid));
    &&& node.id == r.pageid
    &&& node.coursemodule == r.coursemodule
    &&& node.course == r.courseid
    &&& opt_view(node.name) == opt_view(r.name)
    &&& opt_view(node.intro) == opt_view(r.intro)
    &&& opt_view(node.content) == opt_view(r.content)
    &&& node.revision == r.revision
    &&& node.timemodified == r.timemodified
    &&& node.introfiles@.len() == 0
    &&& node.contentfiles@.len() == frows.len()
    &&& forall|k: int|
        0 <= k < frows.len() ==> file_node_matches(frows[k], #[trigger] node.contentfiles@[k])
}

/// A copy of a tree file.
pub fn clone_course_file(f: &CourseFile) -> (r: CourseFile)
    ensures
        r == *f,
{
    CourseFile {
        filename: crate::store::clone_opt_string(&f.filename),
        filepath: crate::store::clone_opt_string(&f.filepath),
        fileurl: crate::store::clone_opt_string(&f.fileurl),
        timemodified: f.timemodified,
        module_id: f.module_id,
    }
}

/// The content rows of one module, read back as tree files in stored
/// order.
fn collect_contents(store: &Store, moduleid: i64) -> (r: Vec<CourseFile>)
    ensures
        r@.len() == filter_rows(store.contents@, in_module(moduleid)).len(),
        forall|k: int|
            0 <= k < r@.len() ==> content_node_matches(
                filter_rows(store.contents@, in_module(moduleid))[k],
                #[trigger] r@[k],
            ),
{
    let mut out: Vec<CourseFile> = Vec::new();
    let n = store.contents.len();
    let mut i: usize = 0;
    while i < n
        invariant
            i <= n,
            n == store.contents@.len(),
            out@.len() == filter_rows(store.contents@.take(i as int), in_module(moduleid)).len(),
            forall|k: int|
                0 <= k < out@.len() ==> content_node_matches(
                    filter_rows(store.contents@.take(i as int), in_module(moduleid))[k],
                    #[trigger] out@[k],
                ),
        decreases n - i,
    {
        let c = &store.contents[i];
        if c.module_id == moduleid {
            out.push(
                CourseFile {
                    filename: Some(c.filename.clone()),
                    filepath: crate::store::clone_opt_string(&c.localpath),
                    fileurl: Some(c.fileurl.clone()),
                    timemodified: c.timemodified,
                    module_id: Some(c.module_id),
                },
            );
        }
        proof {
            lemma_filter_take_step(store.contents@, in_module(moduleid), i as int);
        }
        i = i + 1;
    }
    proof {
        lemma_take_all(store.contents@);
    }
    out
}

/// The module rows of one section, read back as tree modules in stored
/// order, each with its content items.
fn collect_modules(store: &Store, sectionid: i64) -> (r: Vec<CourseModule>)
    ensures
        r@.len() == filter_rows(store.modules@, in_section(sectionid)).len(),
        forall|j: int|
            0 <= j < r@.len() ==> module_node_matches(
                *store,
                filter_rows(store.modules@, in_section(sectionid))[j],
                #[trigger] r@[j],
            ),
{
    let mut out: Vec<CourseModule> = Vec::new();
    let n = store.modules.len();
    let mut i: usize = 0;
    while i < n
        invariant
            i <= n,
            n == store.modules@.len(),
            out@.len() == filter_rows(store.modules@.take(i as int), in_section(sectionid)).len(),
            forall|j: int|
                0 <= j < out@.len() ==> module_node_matches(
                    *store,
                    filter_rows(store.modules@.take(i as int), in_section(sectionid))[j],
                    #[trigger] out@[j],
                ),
        decreases n - i,
    {
        let m = &store.modules[i];
        if m.section_id == sectionid {
            let files = collect_contents(store, m.moduleid);
            let contents = if files.len() == 0 {
                None
            } else {
                Some(files)
            };
            out.push(
                CourseModule {
                    id: m.moduleid,
                    name: m.name.clone(),
                    instance: m.instance,
                    contextid: m.contextid,
                    description: crate::store::clone_opt_string(&m.description),
                    contents,
                    section_id: Some(m.section_id),
                },
            );
        }
        proof {
            lemma_filter_take_step(store.modules@, in_section(sectionid), i as int);
        }
        i = i + 1;
    }
    proof {
        lemma_take_all(store.modules@);
    }
    out
}

/// Staged retrieval: the sections of one course, each with its modules and
/// their content items, all in stored (insertion) order. An unknown course
/// yields an empty tree, which is not an error here.
pub fn retrieve_course_structure(store: &Store, courseid: i64) -> (r: Vec<CourseSection>)
    ensures
        r@.len() == filter_rows(store.sections@, in_course(courseid)).len(),
        forall|i: int|
            0 <= i < r@.len() ==> section_node_matches(
                *store,
                filter_rows(store.sections@, in_course(courseid))[i],
                #[trigger] r@[i],
            ),
{
    let mut out: Vec<CourseSection> = Vec::new();
    let n = store.sections.len();
    let mut i: usize = 0;
    while i < n
        invariant
            i <= n,
            n == store.sections@.len(),
            out@.len() == filter_rows(store.sections@.take(i as int), in_course(courseid)).len(),
            forall|q: int|
                0 <= q < out@.len() ==> section_node_matches(
                    *store,
                    filter_rows(store.sections@.take(i as int), in_course(courseid))[q],
                    #[trigger] out@[q],
                ),
        decreases n - i,
    {
        let s = &store.sections[i];
        if s.courseid == courseid {
            let modules = collect_modules(store, s.sectionid);
            out.push(
                CourseSection {
                    id: s.sectionid,
                    name: s.name.clone(),
                    summary: s.summary.clone(),
                    courseid: Some(s.courseid),
                    modules,
                },
            );
        }
        proof {
            lemma_filter_take_step(store.sections@, in_course(courseid), i as int);
        }
        i = i + 1;
    }
    proof {
        lemma_take_all(store.sections@);
    }
    out
}

/// The file rows of one page, read back as tree files in stored order.
fn collect_page_files(store: &Store, pageid: i64) -> (r: Vec<CourseFile>)
    ensures
        r@.len() == filter_rows(store.files@, of_page(pageid)).len(),
        forall|k: int|
            0 <= k < r@.len() ==> file_node_matches(
                filter_rows(store.files@, of_page(pageid))[k],
                #[trigger] r@[k],
            ),
{
    let mut out: Vec<CourseFile> = Vec::new();
    let n = store.files.len();
    let mut i: usize = 0;
    while i < n
        invariant
            i <= n,
            n == store.files@.len(),
            out@.len() == filter_rows(store.files@.take(i as int), of_page(pageid)).len(),
            forall|k: int|
                0 <= k < out@.len() ==> file_node_matches(
                    filter_rows(store.files@.take(i as int), of_page(pageid))[k],
                    #[trigger] out@[k],
                ),
        decreases n - i,
    {
        let f = &store.files[i];
        if f.page_id == pageid {
            out.push(
                CourseFile {
                    filename: Some(f.filename.clone()),
                    filepath: crate::store::clone_opt_string(&f.localpath),
                    fileurl: Some(f.fileurl.clone()),
                    timemodified: f.timemodified,
                    module_id: None,
                },
            );
        }
        proof {
            lemma_filter_take_step(store.files@, of_page(pageid), i as int);
        }
        i = i + 1;
    }
    proof {
        lemma_take_all(store.files@);
    }
    out
}

/// All stored pages read back with their attachments, in stored order, for
/// the combine step.
pub fn retrieve_pages(store: &Store) -> (r: Pages)
    ensures
        r.pages@.len() == store.pages@.len(),
        forall|i: int|
            0 <= i < store.pages@.len() ==> page_node_matches(
                *store,
                store.pages@[i],
                #[trigger] r.pages@[i],
            ),
{
    let mut out: Vec<Page> = Vec::new();
    let n = store.pages.len();
    let mut i: usize = 0;
    while i < n
        invariant
            i <= n,
            n == store.pages@.len(),
            out@.len() == i,
            forall|q: int|
                0 <= q < i ==> page_node_matches(*store, store.pages@[q], #[trigger] out@[q]),
        decreases n - i,
    {
        let p = &store.pages[i];
        let files = collect_page_files(store, p.pageid);
        out.push(
            Page {
                id: p.pageid,
                coursemodule: p.coursemodule,
                course: p.courseid,
                name: crate::store::clone_opt_string(&p.name),
                intro: crate::store::clone_opt_string(&p.intro),
                introfiles: Vec::new(),
                content: crate::store::clone_opt_string(&p.content),
                contentfiles: files,
                revision: p.revision,
                timemodified: p.timemodified,
            },
        );
        i = i + 1;
    }
    Pages { pages: out, warnings: Vec::new() }
}

/// All stored file rows, read back as tree files in stored order, for the
/// download step.
pub fn get_all_files(store: &Store) -> (r: Vec<CourseFile>)
    ensures
        r@.len() == store.files@.len(),
        forall|k: int|
            0 <= k < r@.len() ==> file_node_matches(store.files@[k], #[trigger] r@[k]),
{
    let mut out: Vec<CourseFile> = Vec::new();
    let n = store.files.len();
    let mut i: usize = 0;
    while i < n
        invariant
            i <= n,
            n == store.files@.len(),
            out@.len() == i,
            forall|k: int|
                0 <= k < i ==> file_node_matches(store.files@[k], #[trigger] out@[k]),
        decreases n - i,
    {
        let f = &store.files[i];
        out.push(
            CourseFile {
                filename: Some(f.filename.clone()),
                filepath: crate::store::clone_opt_string(&f.localpath),
                fileurl: Some(f.fileurl.clone()),
                timemodified: f.timemodified,
                module_id: None,
            },
        );
        i = i + 1;
    }
    out
}

/// The pages that can overwrite a module's description: those that carry
/// content and share the module's course-module id.
pub open spec fn combine_pred(moduleid: i64) -> spec_fn(Page) -> bool {
    |p: Page| p.content is Some && p.coursemodule == moduleid
}

/// What the combine step leaves of one module: untouched when no page
/// matches it; otherwise its description is the last matching page's
/// content and its files are that page's content files followed by its
/// intro files.
pub open spec fn module_combined(m0: CourseModule, pgs: Seq<Page>, m1: CourseModule) -> bool {
    let q = last_match(pgs, combine_pred(m0.id));
    if q == -1 {
        m1 == m0
    } else {
        &&& m1.id == m0.id
        &&& m1.name == m0.name
        &&& m1.instance == m0.instance
        &&& m1.contextid == m0.contextid
        &&& m1.section_id == m0.section_id
        &&& opt_view(m1.description) == opt_view(pgs[q].content)
        &&& match m1.contents {
            Some(v) => v@ == pgs[q].contentfiles@ + pgs[q].introfiles@,
            None => false,
        }
    }
}

impl CourseSection {
    /// Merge page data into this section's modules: where a page with
    /// content shares a module's course-module id, the module's description
    /// becomes the page's content and its files become the page's files.
    /// Merging the same pages again leaves the modules as they are.
    pub fn combine(&mut self, pages_root: &Pages)
        ensures
            final(self).id == old(self).id,
            final(self).name == old(self).name,
            final(self).summary == old(self).summary,
            final(self).courseid == old(self).courseid,
            final(self).modules@.len() == old(self).modules@.len(),
            forall|j: int|
                0 <= j < old(self).modules@.len() ==> module_combined(
                    old(self).modules@[j],
                    pages_root.pages@,
                    #[trigger] final(self).modules@[j],
                ),
    {
        let n = self.modules.len();
        let mut j: usize = 0;
        while j < n
            invariant
                j <= n,
                n == self.modules@.len(),
                self.id == old(self).id,
                self.name == old(self).name,
                self.summary == old(self).summary,
                self.courseid == old(self).courseid,
                self.modules@.len() == old(self).modules@.len(),
                forall|q: int|
                    0 <= q < j ==> module_combined(
                        old(self).modules@[q],
                        pages_root.pages@,
                        #[trigger] self.modules@[q],
                    ),
                forall|q: int| j <= q < n ==> self.modules@[q] == old(self).modules@[q],
            decreases n - j,
        {
            let moduleid = self.modules[j].id;
            let pn = pages_root.pages.len();
            let mut best: Option<usize> = None;
            let mut p: usize = 0;
            while p < pn
                invariant
                    p <= pn,
                    pn == pages_root.pages@.len(),
                    match best {
                        Some(q) => q < p && combine_pred(moduleid)(pages_root.pages@[q as int])
                            && forall|t: int|
                            q < t < p ==> !combine_pred(moduleid)(#[trigger] pages_root.pages@[t]),
                        None => forall|t: int|
                            0 <= t < p ==> !combine_pred(moduleid)(#[trigger] pages_root.pages@[t]),
                    },
                decreases pn - p,
            {
                let pg = &pages_root.pages[p];
                if pg.content.is_some() && pg.coursemodule == moduleid {
                    best = Some(p);
                }
                p = p + 1;
            }
            match best {
                Some(q) => {
                    proof {
                        lemma_last_match_at(
                            pages_root.pages@,
                            combine_pred(moduleid),
                            q as int,
                        );
                    }
                    let pg = &pages_root.pages[q];
                    let description = match &pg.content {
                        Some(c) => Some(c.clone()),
                        None => unreached(),
                    };
                    let mut files: Vec<CourseFile> = Vec::new();
                    let cn = pg.contentfiles.len();
                    let mut k: usize = 0;
                    while k < cn
                        invariant
                            k <= cn,
                            cn == pg.contentfiles@.len(),
                            files@ =~= pg.contentfiles@.take(k as int),
                        decreases cn - k,
                    {
                        files.push(clone_course_file(&pg.contentfiles[k]));
                        proof {
                            assert(pg.contentfiles@.take(k + 1) =~= pg.contentfiles@.take(
                                k as int,
                            ).push(pg.contentfiles@[k as int]));
                        }
                        k = k + 1;
                    }
                    proof {
                        assert(pg.contentfiles@.take(cn as int) =~= pg.contentfiles@);
                    }
                    let an = pg.introfiles.len();
                    let mut a: usize = 0;
                    while a < an
                        invariant
                            a <= an,
                            an == pg.introfiles@.len(),
                            files@ =~= pg.contentfiles@ + pg.introfiles@.take(a as int),
                        decreases an - a,
                    {
                        files.push(clone_course_file(&pg.introfiles[a]));
                        proof {
                            assert(pg.introfiles@.take(a + 1) =~= pg.introfiles@.take(
                                a as int,
                            ).push(pg.introfiles@[a as int]));
                            assert(pg.contentfiles@ + pg.introfiles@.take(a + 1) =~= (
                            pg.contentfiles@ + pg.introfiles@.take(a as int)).push(
                                pg.introfiles@[a as int],
                            ));
                        }
                        a = a + 1;
                    }
                    proof {
                        assert(pg.introfiles@.take(an as int) =~= pg.introfiles@);
                    }
                    let m = &self.modules[j];
                    let merged = CourseModule {
                        id: m.id,
                        name: m.name.clone(),
                        instance: m.instance,
                        contextid: m.contextid,
                        description,
                        contents: Some(files),
                        section_id: m.section_id,
                    };
                    self.modules.set(j, merged);
                },
                None => {
                    proof {
                        crate::store::lemma_last_match(pages_root.pages@, combine_pred(moduleid));
                    }
                },
            }
            j = j + 1;
        }
    }
}

/// Law: the combine step is idempotent. Two modules combined from the same
/// module against the same pages carry the same data: merging twice with
/// the same pages cannot change the result again.
pub proof fn lemma_combine_idempotent(
    m0: CourseModule,
    pgs: Seq<Page>,
    m1: CourseModule,
    m2: CourseModule,
)
    requires
        module_combined(m0, pgs, m1),
        module_combined(m1, pgs, m2),
    ensures
        m2.id == m1.id,
        m2.name == m1.name,
        m2.instance == m1.instance,
        m2.contextid == m1.contextid,
        m2.section_id == m1.section_id,
        opt_view(m2.description) == opt_view(m1.description),
        match (m1.contents, m2.contents) {
            (Some(v1), Some(v2)) => v1@ == v2@,
            (None, None) => true,
            _ => false,
        },
{
    let q = last_match(pgs, combine_pred(m0.id));
    if q == -1 {
        assert(m1 == m0);
        assert(m2 == m1);
    } else {
        assert(m1.id == m0.id);
    }
}

} // verus!
