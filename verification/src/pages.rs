//! Incoming page data and the tracked sync pass that writes it.
//!
//! Pages carry the content whose changes the engine audits: before a page
//! row is overwritten, its stored content is compared with the incoming
//! content, and only a real change appends a history entry. Each page's
//! attachments are written right after the page itself.
use vstd::prelude::*;

use crate::response::CustomError;
use crate::store::{
    clone_opt_string, file_key, file_merge, has_key, lemma_fold_append, lemma_upsert_keys,
    page_key, page_merge, tracked_fold, upsert_by, upsert_fold, FileRow, HistoryRow, PageRow,
    Store,
};

verus! {

/// The batch of pages one fetch hands over.
pub struct Pages {
    pub pages: Vec<Page>,
    pub warnings: Vec<String>,
}

/// A page as the remote source describes it.
pub struct Page {
    pub id: i64,
    pub coursemodule: i64,
    pub course: i64,
    pub name: Option<String>,
    pub intro: Option<String>,
    pub introfiles: Vec<File>,
    pub content: Option<String>,
    pub contentfiles: Vec<File>,
    pub revision: i64,
    pub timemodified: Option<i64>,
}

/// A page attachment as the remote source describes it.
pub struct File {
    pub filename: Option<String>,
    pub filepath: Option<String>,
    pub fileurl: Option<String>,
    pub timemodified: Option<i64>,
    pub page_id: Option<i64>,
}

/// The row a page is stored as, under the given timestamp.
pub open spec fn page_row_of(p: Page, now: i64) -> PageRow {
    PageRow {
        pageid: p.id,
        coursemodule: p.coursemodule,
        courseid: p.course,
        name: p.name,
        intro: p.intro,
        content: p.content,
        revision: p.revision,
        timemodified: p.timemodified,
        lastfetched: now,
    }
}

/// The row an attachment is stored as, under its owning page. Only
/// meaningful when the attachment carries its filename and URL.
pub open spec fn file_row_of(f: File, page_id: i64, now: i64) -> FileRow {
    FileRow {
        page_id,
        filename: match f.filename {
            Some(n) => n,
            None => arbitrary(),
        },
        fileurl: match f.fileurl {
            Some(u) => u,
            None => arbitrary(),
        },
        localpath: None,
        timemodified: f.timemodified,
        lastfetched: now,
    }
}

/// An attachment carries its filename (its key) and its URL.
pub open spec fn file_ok(f: File) -> bool {
    f.filename is Some && f.fileurl is Some
}

/// The attachments of one page: the intro's files, then the content's.
pub open spec fn page_file_list(p: Page) -> Seq<File> {
    p.introfiles@ + p.contentfiles@
}

/// Every attachment of the page is storable.
pub open spec fn page_ok(p: Page) -> bool {
    forall|i: int| 0 <= i < page_file_list(p).len() ==> file_ok(#[trigger] page_file_list(p)[i])
}

/// Every attachment of the whole batch is storable.
pub open spec fn pages_ok(ps: Seq<Page>) -> bool {
    forall|i: int| 0 <= i < ps.len() ==> page_ok(#[trigger] ps[i])
}

/// The page rows one sync pass writes, in order.
pub open spec fn page_rows(ps: Seq<Page>, now: i64) -> Seq<PageRow> {
    ps.map(|i: int, p: Page| page_row_of(p, now))
}

/// The file rows of one page.
pub open spec fn file_batch(p: Page, now: i64) -> Seq<FileRow> {
    page_file_list(p).map(|i: int, f: File| file_row_of(f, p.id, now))
}

/// The file rows one sync pass writes, in order.
pub open spec fn file_rows(ps: Seq<Page>, now: i64) -> Seq<FileRow>
    decreases ps.len(),
{
    if ps.len() == 0 {
        Seq::empty()
    } else {
        file_batch(ps[0], now) + file_rows(ps.drop_first(), now)
    }
}

/// Whether every attachment of the batch is storable; reports the owning
/// page of an offender.
fn check_pages(pages: &Vec<Page>) -> (r: Option<i64>)
    ensures
        r is None <==> pages_ok(pages@),
{
    let n = pages.len();
    let mut i: usize = 0;
    while i < n
        invariant
            i <= n,
            n == pages@.len(),
            forall|k: int| 0 <= k < i ==> page_ok(#[trigger] pages@[k]),
        decreases n - i,
    {
        let p = &pages[i];
        let in_count = p.introfiles.len();
        let mut j: usize = 0;
        while j < in_count
            invariant
                j <= in_count,
                i < pages@.len(),
                *p == pages@[i as int],
                in_count == p.introfiles@.len(),
                forall|k: int| 0 <= k < j ==> file_ok(#[trigger] p.introfiles@[k]),
            decreases in_count - j,
        {
            let f = &p.introfiles[j];
            if f.filename.is_none() || f.fileurl.is_none() {
                assert(page_file_list(pages@[i as int])[j as int] == p.introfiles@[j as int]);
                assert(!page_ok(pages@[i as int]));
                return Some(p.id);
            }
            j = j + 1;
        }
        let cn = p.contentfiles.len();
        let mut k: usize = 0;
        while k < cn
            invariant
                k <= cn,
                i < pages@.len(),
                *p == pages@[i as int],
                in_count == p.introfiles@.len(),
                cn == p.contentfiles@.len(),
                forall|q: int| 0 <= q < k ==> file_ok(#[trigger] p.contentfiles@[q]),
                forall|q: int| 0 <= q < in_count ==> file_ok(#[trigger] p.introfiles@[q]),
            decreases cn - k,
        {
            let f = &p.contentfiles[k];
            if f.filename.is_none() || f.fileurl.is_none() {
                assert(page_file_list(pages@[i as int])[in_count + k] == p.contentfiles@[k as int]);
                assert(!page_ok(pages@[i as int]));
                return Some(p.id);
            }
            k = k + 1;
        }
        assert forall|q: int| 0 <= q < page_file_list(pages@[i as int]).len() implies file_ok(
            #[trigger] page_file_list(pages@[i as int])[q],
        ) by {
            if q < in_count {
                assert(page_file_list(pages@[i as int])[q] == p.introfiles@[q]);
            } else {
                assert(page_file_list(pages@[i as int])[q] == p.contentfiles@[q - in_count]);
            }
        }
        assert(page_ok(pages@[i as int]));
        i = i + 1;
    }
    None
}

/// Upsert the attachments of one page, from index `i` on.
fn apply_files(store: &mut Store, files: &Vec<File>, i: usize, page_id: i64, now: i64)
    requires
        old(store).wf(),
        i <= files@.len(),
        forall|k: int| i <= k < files@.len() ==> file_ok(#[trigger] files@[k]),
        has_key(old(store).pages@, page_key(), page_id),
    ensures
        final(store).wf(),
        final(store).files@ == upsert_fold(
            old(store).files@,
            file_key(),
            file_merge(),
            files@.skip(i as int).map(|q: int, f: File| file_row_of(f, page_id, now)),
        ),
        final(store).sections@ == old(store).sections@,
        final(store).modules@ == old(store).modules@,
        final(store).contents@ == old(store).contents@,
        final(store).pages@ == old(store).pages@,
        final(store).history@ == old(store).history@,
    decreases files@.len() - i,
{
    let ghost rows = files@.skip(i as int).map(|q: int, f: File| file_row_of(f, page_id, now));
    if i == files.len() {
        assert(rows =~= Seq::<FileRow>::empty());
        return ;
    }
    let f = &files[i];
    let filename = match &f.filename {
        Some(n) => n.clone(),
        None => unreached(),
    };
    let fileurl = match &f.fileurl {
        Some(u) => u.clone(),
        None => unreached(),
    };
    let row = FileRow {
        page_id,
        filename,
        fileurl,
        localpath: None,
        timemodified: f.timemodified,
        lastfetched: now,
    };
    assert(row == file_row_of(files@[i as int], page_id, now));
    assert(rows[0] == row);
    store.upsert_file(row);
    apply_files(store, files, i + 1, page_id, now);
    proof {
        assert(rows.drop_first() =~= files@.skip(i + 1).map(
            |q: int, f: File| file_row_of(f, page_id, now),
        ));
    }
}

/// Upsert the pages with their attachments, from index `i` on: each page
/// through the change tracker, then its attachments.
fn apply_pages(store: &mut Store, pages: &Vec<Page>, i: usize, now: i64)
    requires
        old(store).wf(),
        i <= pages@.len(),
        forall|k: int| i <= k < pages@.len() ==> page_ok(#[trigger] pages@[k]),
    ensures
        final(store).wf(),
        (final(store).pages@, final(store).history@) == tracked_fold(
            old(store).pages@,
            old(store).history@,
            page_rows(pages@.skip(i as int), now),
        ),
        final(store).files@ == upsert_fold(
            old(store).files@,
            file_key(),
            file_merge(),
            file_rows(pages@.skip(i as int), now),
        ),
        final(store).sections@ == old(store).sections@,
        final(store).modules@ == old(store).modules@,
        final(store).contents@ == old(store).contents@,
    decreases pages@.len() - i,
{
    let ghost prows = page_rows(pages@.skip(i as int), now);
    let ghost frows = file_rows(pages@.skip(i as int), now);
    if i == pages.len() {
        assert(prows =~= Seq::<PageRow>::empty());
        assert(pages@.skip(i as int).len() == 0);
        return ;
    }
    let p = &pages[i];
    let row = PageRow {
        pageid: p.id,
        coursemodule: p.coursemodule,
        courseid: p.course,
        name: clone_opt_string(&p.name),
        intro: clone_opt_string(&p.intro),
        content: clone_opt_string(&p.content),
        revision: p.revision,
        timemodified: p.timemodified,
        lastfetched: now,
    };
    assert(row == page_row_of(pages@[i as int], now));
    assert(prows[0] == row);
    proof {
        lemma_upsert_keys(store.pages@, page_key(), page_merge(), row);
    }
    store.upsert_page(row);
    assert(has_key(store.pages@, page_key(), p.id));
    let ghost mid_files = store.files@;
    proof {
        assert(page_ok(pages@[i as int]));
        assert forall|k: int| 0 <= k < p.introfiles@.len() implies file_ok(
            #[trigger] p.introfiles@[k],
        ) by {
            assert(page_file_list(pages@[i as int])[k] == p.introfiles@[k]);
        }
        assert forall|k: int| 0 <= k < p.contentfiles@.len() implies file_ok(
            #[trigger] p.contentfiles@[k],
        ) by {
            assert(page_file_list(pages@[i as int])[p.introfiles@.len() + k]
                == p.contentfiles@[k]);
        }
    }
    apply_files(store, &p.introfiles, 0, p.id, now);
    apply_files(store, &p.contentfiles, 0, p.id, now);
    proof {
        assert(p.introfiles@.skip(0) =~= p.introfiles@);
        assert(p.contentfiles@.skip(0) =~= p.contentfiles@);
        let intro_rows = p.introfiles@.map(|q: int, f: File| file_row_of(f, p.id, now));
        let content_rows = p.contentfiles@.map(|q: int, f: File| file_row_of(f, p.id, now));
        lemma_fold_append(mid_files, file_key(), file_merge(), intro_rows, content_rows);
        assert(intro_rows + content_rows =~= file_batch(pages@[i as int], now));
    }
    apply_pages(store, pages, i + 1, now);
    proof {
        assert(prows.drop_first() =~= page_rows(pages@.skip(i + 1), now));
        assert(pages@.skip(i as int)[0] == pages@[i as int]);
        assert(pages@.skip(i as int).drop_first() =~= pages@.skip(i + 1));
        lemma_fold_append(
            old(store).files@,
            file_key(),
            file_merge(),
            file_batch(pages@[i as int], now),
            file_rows(pages@.skip(i + 1), now),
        );
    }
}

/// One tracked sync pass for a batch of pages: each page is upserted under
/// the single timestamp `now`, a history entry is appended exactly for the
/// stored pages whose content really changed, and each page's attachments
/// are written after the page itself. An attachment missing its filename or
/// URL aborts the pass with the store untouched.
pub fn insert_pages(store: &mut Store, pages: &Vec<Page>, now: i64) -> (r: Result<
    (),
    CustomError,
>)
    requires
        old(store).wf(),
    ensures
        final(store).wf(),
        r is Ok <==> pages_ok(pages@),
        r is Ok ==> (final(store).pages@, final(store).history@) == tracked_fold(
            old(store).pages@,
            old(store).history@,
            page_rows(pages@, now),
        ),
        r is Ok ==> final(store).files@ == upsert_fold(
            old(store).files@,
            file_key(),
            file_merge(),
            file_rows(pages@, now),
        ),
        final(store).sections@ == old(store).sections@,
        final(store).modules@ == old(store).modules@,
        final(store).contents@ == old(store).contents@,
        r is Err ==> *final(store) == *old(store) && crate::response::is_missing_field(r),
{
    match check_pages(pages) {
        Some(_pageid) => {
            return Err(
                CustomError::MissingField(
                    "a page attachment is missing its filename or fileurl".to_owned(),
                ),
            );
        },
        None => {},
    }
    apply_pages(store, pages, 0, now);
    proof {
        assert(pages@.skip(0) =~= pages@);
    }
    Ok(())
}

} // verus!
