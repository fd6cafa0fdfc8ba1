//! The engine's cross-cutting guarantees, stated and proved once: repeated
//! syncs are idempotent, the audit trail records exactly the real content
//! changes, children never outlive their parents' keys, and the assembled
//! document holds exactly one leaf per matching stored row.
use vstd::prelude::*;

use crate::course_section::{content_rows, module_rows, section_rows, Section};
use crate::pages::{file_rows, page_rows, Page};
use crate::store::{
    content_fk, content_key, content_merge, distinct_keys, file_fk, file_key, file_merge,
    filter_rows, first_with_key, has_key, history_after, lemma_first_match_at,
    lemma_first_with_key_bounds, lemma_fold_distinct, lemma_fold_refresh, lemma_fold_shape,
    lemma_upsert_distinct, lemma_upsert_keys, mod_fk, mod_key, mod_merge, opt_view, page_key,
    page_merge, sec_key, sec_merge, tracked_fold, upsert_by, upsert_fold, all_resolve, ContentRow,
    FileRow, HistoryRow, ModuleRow, PageRow, SectionRow, Store,
};

verus! {

/// Two section rows equal in every column but `lastfetched`.
pub open spec fn sec_refresh(a: SectionRow, b: SectionRow) -> bool {
    b == SectionRow { lastfetched: b.lastfetched, ..a }
}

/// Two module rows equal in every column but `lastfetched`.
pub open spec fn mod_refresh(a: ModuleRow, b: ModuleRow) -> bool {
    b == ModuleRow { lastfetched: b.lastfetched, ..a }
}

/// Two content rows equal in every column but `lastfetched`.
pub open spec fn content_refresh(a: ContentRow, b: ContentRow) -> bool {
    b == ContentRow { lastfetched: b.lastfetched, ..a }
}

/// Two page rows equal in every column but `lastfetched`.
pub open spec fn page_refresh(a: PageRow, b: PageRow) -> bool {
    b == PageRow { lastfetched: b.lastfetched, ..a }
}

/// Two file rows equal in every column but `lastfetched`.
pub open spec fn file_refresh(a: FileRow, b: FileRow) -> bool {
    b == FileRow { lastfetched: b.lastfetched, ..a }
}

proof fn lemma_module_rows_refresh(secs: Seq<Section>, t1: i64, t2: i64)
    ensures
        module_rows(secs, t2).len() == module_rows(secs, t1).len(),
        forall|j: int|
            0 <= j < module_rows(secs, t1).len() ==> #[trigger] module_rows(secs, t2)[j]
                == (ModuleRow { lastfetched: t2, ..module_rows(secs, t1)[j] }),
    decreases secs.len(),
{
    if secs.len() > 0 {
        lemma_module_rows_refresh(secs.drop_first(), t1, t2);
        let b1 = secs[0].modules@.map(
            |i: int, m: crate::course_section::Module| crate::course_section::module_row_of(
                m,
                secs[0].id,
                t1,
            ),
        );
        let b2 = secs[0].modules@.map(
            |i: int, m: crate::course_section::Module| crate::course_section::module_row_of(
                m,
                secs[0].id,
                t2,
            ),
        );
        assert forall|j: int| 0 <= j < module_rows(secs, t1).len() implies #[trigger] module_rows(
            secs,
            t2,
        )[j] == (ModuleRow { lastfetched: t2, ..module_rows(secs, t1)[j] }) by {
            if j < b1.len() {
                assert(module_rows(secs, t1)[j] == b1[j]);
                assert(module_rows(secs, t2)[j] == b2[j]);
            } else {
                assert(module_rows(secs, t1)[j] == module_rows(secs.drop_first(), t1)[j
                    - b1.len()]);
                assert(module_rows(secs, t2)[j] == module_rows(secs.drop_first(), t2)[j
                    - b1.len()]);
            }
        }
    }
}

proof fn lemma_content_rows_mods_refresh(
    mods: Seq<crate::course_section::Module>,
    t1: i64,
    t2: i64,
)
    ensures
        crate::course_section::content_rows_mods(mods, t2).len()
            == crate::course_section::content_rows_mods(mods, t1).len(),
        forall|j: int|
            0 <= j < crate::course_section::content_rows_mods(mods, t1).len()
                ==> #[trigger] crate::course_section::content_rows_mods(mods, t2)[j] == (ContentRow {
                lastfetched: t2,
                ..crate::course_section::content_rows_mods(mods, t1)[j]
            }),
    decreases mods.len(),
{
    if mods.len() > 0 {
        lemma_content_rows_mods_refresh(mods.drop_first(), t1, t2);
        let b1 = crate::course_section::content_batch(mods[0], t1);
        let b2 = crate::course_section::content_batch(mods[0], t2);
        assert forall|j: int|
            0 <= j < crate::course_section::content_rows_mods(mods, t1).len() implies #[trigger] crate::course_section::content_rows_mods(
            mods,
            t2,
        )[j] == (ContentRow {
            lastfetched: t2,
            ..crate::course_section::content_rows_mods(mods, t1)[j]
        }) by {
            if j < b1.len() {
                assert(crate::course_section::content_rows_mods(mods, t1)[j] == b1[j]);
                assert(crate::course_section::content_rows_mods(mods, t2)[j] == b2[j]);
            } else {
                assert(crate::course_section::content_rows_mods(mods, t1)[j]
                    == crate::course_section::content_rows_mods(mods.drop_first(), t1)[j
                    - b1.len()]);
                assert(crate::course_section::content_rows_mods(mods, t2)[j]
                    == crate::course_section::content_rows_mods(mods.drop_first(), t2)[j
                    - b1.len()]);
            }
        }
    }
}

proof fn lemma_content_rows_refresh(secs: Seq<Section>, t1: i64, t2: i64)
    ensures
        content_rows(secs, t2).len() == content_rows(secs, t1).len(),
        forall|j: int|
            0 <= j < content_rows(secs, t1).len() ==> #[trigger] content_rows(secs, t2)[j]
                == (ContentRow { lastfetched: t2, ..content_rows(secs, t1)[j] }),
    decreases secs.len(),
{
    if secs.len() > 0 {
        lemma_content_rows_refresh(secs.drop_first(), t1, t2);
        lemma_content_rows_mods_refresh(secs[0].modules@, t1, t2);
        let b1 = crate::course_section::content_rows_mods(secs[0].modules@, t1);
        let b2 = crate::course_section::content_rows_mods(secs[0].modules@, t2);
        assert forall|j: int| 0 <= j < content_rows(secs, t1).len() implies #[trigger] content_rows(
            secs,
            t2,
        )[j] == (ContentRow { lastfetched: t2, ..content_rows(secs, t1)[j] }) by {
            if j < b1.len() {
                assert(content_rows(secs, t1)[j] == b1[j]);
                assert(content_rows(secs, t2)[j] == b2[j]);
            } else {
                assert(content_rows(secs, t1)[j] == content_rows(secs.drop_first(), t1)[j
                    - b1.len()]);
                assert(content_rows(secs, t2)[j] == content_rows(secs.drop_first(), t2)[j
                    - b1.len()]);
            }
        }
    }
}

proof fn lemma_file_rows_refresh(pgs: Seq<Page>, t1: i64, t2: i64)
    ensures
        file_rows(pgs, t2).len() == file_rows(pgs, t1).len(),
        forall|j: int|
            0 <= j < file_rows(pgs, t1).len() ==> #[trigger] file_rows(pgs, t2)[j] == (FileRow {
                lastfetched: t2,
                ..file_rows(pgs, t1)[j]
            }),
    decreases pgs.len(),
{
    if pgs.len() > 0 {
        lemma_file_rows_refresh(pgs.drop_first(), t1, t2);
        let b1 = crate::pages::file_batch(pgs[0], t1);
        let b2 = crate::pages::file_batch(pgs[0], t2);
        assert forall|j: int| 0 <= j < file_rows(pgs, t1).len() implies #[trigger] file_rows(
            pgs,
            t2,
        )[j] == (FileRow { lastfetched: t2, ..file_rows(pgs, t1)[j] }) by {
            if j < b1.len() {
                assert(file_rows(pgs, t1)[j] == b1[j]);
                assert(file_rows(pgs, t2)[j] == b2[j]);
            } else {
                assert(file_rows(pgs, t1)[j] == file_rows(pgs.drop_first(), t1)[j - b1.len()]);
                assert(file_rows(pgs, t2)[j] == file_rows(pgs.drop_first(), t2)[j - b1.len()]);
            }
        }
    }
}

/// The change tracker writes the pages table exactly as the plain upsert
/// engine would; only the history log is its own.
pub proof fn lemma_tracked_pages(ps: Seq<PageRow>, hs: Seq<HistoryRow>, rows: Seq<PageRow>)
    ensures
        tracked_fold(ps, hs, rows).0 == upsert_fold(ps, page_key(), page_merge(), rows),
    decreases rows.len(),
{
    if rows.len() > 0 {
        lemma_tracked_pages(
            upsert_by(ps, page_key(), page_merge(), rows[0]),
            history_after(ps, hs, rows[0]),
            rows.drop_first(),
        );
    }
}

/// A pass whose every stored page already holds the incoming content
/// appends nothing to the history.
proof fn lemma_tracked_stable(ps: Seq<PageRow>, hs: Seq<HistoryRow>, rows: Seq<PageRow>)
    requires
        distinct_keys(ps, page_key()),
        distinct_keys(rows, page_key()),
        forall|j: int|
            0 <= j < rows.len() ==> (has_key(ps, page_key(), page_key()(#[trigger] rows[j]))
                ==> opt_view(
                ps[first_with_key(ps, page_key(), page_key()(rows[j]))].content,
            ) == opt_view(rows[j].content)),
    ensures
        tracked_fold(ps, hs, rows).1 == hs,
    decreases rows.len(),
{
    if rows.len() > 0 {
        let r0 = rows[0];
        let k0 = page_key()(r0);
        let i0 = first_with_key(ps, page_key(), k0);
        lemma_first_with_key_bounds(ps, page_key(), k0);
        if i0 != -1 {
            assert(has_key(ps, page_key(), k0));
            assert(opt_view(ps[i0].content) == opt_view(r0.content));
            assert(history_after(ps, hs, r0) == hs);
        } else {
            assert(history_after(ps, hs, r0) == hs);
        }
        let ps1 = upsert_by(ps, page_key(), page_merge(), r0);
        lemma_upsert_distinct(ps, page_key(), page_merge(), r0);
        lemma_upsert_keys(ps, page_key(), page_merge(), r0);
        crate::store::lemma_distinct_drop_first(rows, page_key());
        assert forall|j: int|
            0 <= j < rows.drop_first().len() && has_key(
                ps1,
                page_key(),
                page_key()(#[trigger] rows.drop_first()[j]),
            ) implies opt_view(
            ps1[first_with_key(ps1, page_key(), page_key()(rows.drop_first()[j]))].content,
        ) == opt_view(rows.drop_first()[j].content) by {
            let r = rows.drop_first()[j];
            assert(r == rows[j + 1]);
            let k = page_key()(r);
            assert(k != k0);
            if has_key(ps1, page_key(), k) {
                assert(has_key(ps, page_key(), k));
                let w = first_with_key(ps, page_key(), k);
                lemma_first_with_key_bounds(ps, page_key(), k);
                assert(w != i0);
                assert(ps1[w] == ps[w]);
                assert forall|q: int| 0 <= q < w implies #[trigger] page_key()(ps1[q]) != k by {
                    if q == i0 {
                        assert(page_key()(ps1[q]) == page_key()(ps[q]));
                    }
                }
                lemma_first_match_at(ps1, page_key(), k, w);
            }
        }
        lemma_tracked_stable(ps1, history_after(ps, hs, r0), rows.drop_first());
    }
}

/// Law (idempotent sync): a sync pass repeated with the same sections and
/// pages leaves the row count of every entity table unchanged; the second
/// pass changes no stored column except `lastfetched`, and the history log
/// gains nothing. The remote source assigns identifiers that are unique per
/// entity type, which the distinctness premises state.
pub proof fn lemma_sync_idempotent(
    s: Store,
    secs: Seq<Section>,
    courseid: i64,
    pgs: Seq<Page>,
    t1: i64,
    t2: i64,
)
    requires
        s.wf(),
        distinct_keys(section_rows(secs, courseid, t1), sec_key()),
        distinct_keys(module_rows(secs, t1), mod_key()),
        distinct_keys(content_rows(secs, t1), content_key()),
        distinct_keys(page_rows(pgs, t1), page_key()),
        distinct_keys(file_rows(pgs, t1), file_key()),
    ensures
        ({
            let sec1 = upsert_fold(
                s.sections@,
                sec_key(),
                sec_merge(),
                section_rows(secs, courseid, t1),
            );
            let sec2 = upsert_fold(sec1, sec_key(), sec_merge(), section_rows(secs, courseid, t2));
            &&& sec2.len() == sec1.len()
            &&& forall|p: int| 0 <= p < sec1.len() ==> sec_refresh(sec1[p], #[trigger] sec2[p])
        }),
        ({
            let m1 = upsert_fold(s.modules@, mod_key(), mod_merge(), module_rows(secs, t1));
            let m2 = upsert_fold(m1, mod_key(), mod_merge(), module_rows(secs, t2));
            &&& m2.len() == m1.len()
            &&& forall|p: int| 0 <= p < m1.len() ==> mod_refresh(m1[p], #[trigger] m2[p])
        }),
        ({
            let c1 = upsert_fold(
                s.contents@,
                content_key(),
                content_merge(),
                content_rows(secs, t1),
            );
            let c2 = upsert_fold(c1, content_key(), content_merge(), content_rows(secs, t2));
            &&& c2.len() == c1.len()
            &&& forall|p: int| 0 <= p < c1.len() ==> content_refresh(c1[p], #[trigger] c2[p])
        }),
        ({
            let f1 = upsert_fold(s.files@, file_key(), file_merge(), file_rows(pgs, t1));
            let f2 = upsert_fold(f1, file_key(), file_merge(), file_rows(pgs, t2));
            &&& f2.len() == f1.len()
            &&& forall|p: int| 0 <= p < f1.len() ==> file_refresh(f1[p], #[trigger] f2[p])
        }),
        ({
            let r1 = tracked_fold(s.pages@, s.history@, page_rows(pgs, t1));
            let r2 = tracked_fold(r1.0, r1.1, page_rows(pgs, t2));
            &&& r2.0.len() == r1.0.len()
            &&& forall|p: int| 0 <= p < r1.0.len() ==> page_refresh(r1.0[p], #[trigger] r2.0[p])
            &&& r2.1 == r1.1
        }),
{
    // sections
    let srows1 = section_rows(secs, courseid, t1);
    let srows2 = section_rows(secs, courseid, t2);
    assert forall|j: int| 0 <= j < srows1.len() implies #[trigger] sec_key()(srows2[j]) == sec_key()(
        srows1[j],
    ) && sec_refresh(srows1[j], srows2[j]) by {
        assert(srows1[j] == crate::course_section::section_row_of(secs[j], courseid, t1));
        assert(srows2[j] == crate::course_section::section_row_of(secs[j], courseid, t2));
    }
    lemma_fold_refresh(
        s.sections@,
        sec_key(),
        sec_merge(),
        srows1,
        srows2,
        |a: SectionRow, b: SectionRow| sec_refresh(a, b),
    );
    // modules
    let mrows1 = module_rows(secs, t1);
    let mrows2 = module_rows(secs, t2);
    lemma_module_rows_refresh(secs, t1, t2);
    lemma_fold_refresh(
        s.modules@,
        mod_key(),
        mod_merge(),
        mrows1,
        mrows2,
        |a: ModuleRow, b: ModuleRow| mod_refresh(a, b),
    );
    // content
    let crows1 = content_rows(secs, t1);
    let crows2 = content_rows(secs, t2);
    lemma_content_rows_refresh(secs, t1, t2);
    lemma_fold_refresh(
        s.contents@,
        content_key(),
        content_merge(),
        crows1,
        crows2,
        |a: ContentRow, b: ContentRow| content_refresh(a, b),
    );
    // files
    let frows1 = file_rows(pgs, t1);
    let frows2 = file_rows(pgs, t2);
    lemma_file_rows_refresh(pgs, t1, t2);
    lemma_fold_refresh(
        s.files@,
        file_key(),
        file_merge(),
        frows1,
        frows2,
        |a: FileRow, b: FileRow| file_refresh(a, b),
    );
    // pages
    let prows1 = page_rows(pgs, t1);
    let prows2 = page_rows(pgs, t2);
    assert forall|j: int| 0 <= j < prows1.len() implies #[trigger] page_key()(prows2[j])
        == page_key()(prows1[j]) && page_refresh(prows1[j], prows2[j]) by {
        assert(prows1[j] == crate::pages::page_row_of(pgs[j], t1));
        assert(prows2[j] == crate::pages::page_row_of(pgs[j], t2));
    }
    let r1 = tracked_fold(s.pages@, s.history@, prows1);
    let r2 = tracked_fold(r1.0, r1.1, prows2);
    lemma_tracked_pages(s.pages@, s.history@, prows1);
    lemma_tracked_pages(r1.0, r1.1, prows2);
    lemma_fold_refresh(
        s.pages@,
        page_key(),
        page_merge(),
        prows1,
        prows2,
        |a: PageRow, b: PageRow| page_refresh(a, b),
    );
    // the second pass finds every stored content equal to what it brings
    let p1 = upsert_fold(s.pages@, page_key(), page_merge(), prows1);
    lemma_fold_distinct(s.pages@, page_key(), page_merge(), prows1);
    lemma_fold_shape(s.pages@, page_key(), page_merge(), prows1);
    crate::store::lemma_fresh_rows_from_rows(s.pages@, page_key(), prows1);
    assert forall|j: int|
        0 <= j < prows2.len() implies has_key(p1, page_key(), page_key()(#[trigger] prows2[j]))
            && opt_view(p1[first_with_key(p1, page_key(), page_key()(prows2[j]))].content)
            == opt_view(prows2[j].content) by {
        let k = page_key()(prows2[j]);
        assert(k == page_key()(prows1[j]));
        assert(has_key(prows1, page_key(), k));
        assert(has_key(p1, page_key(), k));
        lemma_first_with_key_bounds(p1, page_key(), k);
        let w = first_with_key(p1, page_key(), k);
        if w < s.pages@.len() {
            let q = first_with_key(prows1, page_key(), page_key()(s.pages@[w]));
            lemma_first_with_key_bounds(prows1, page_key(), page_key()(s.pages@[w]));
            assert(page_key()(s.pages@[w]) == k);
            if q == -1 {
                assert(!has_key(prows1, page_key(), k));
                assert(false);
            }
            assert(p1[w] == page_merge()(s.pages@[w], prows1[q]));
            assert(page_key()(prows1[q]) == k);
            lemma_first_match_at(prows1, page_key(), k, j);
            assert(q == j);
            assert(opt_view(p1[w].content) == opt_view(prows1[j].content));
            assert(opt_view(prows2[j].content) == opt_view(prows1[j].content));
        } else {
            let fr = crate::store::fresh_rows(s.pages@, page_key(), prows1);
            assert(p1[w] == fr[w - s.pages@.len()]);
            let jj = choose|jj: int|
                0 <= jj < prows1.len() && #[trigger] fr[w - s.pages@.len()] == prows1[jj]
                    && !has_key(s.pages@, page_key(), page_key()(prows1[jj]));
            assert(p1[w] == prows1[jj]);
            assert(page_key()(prows1[jj]) == k);
            lemma_first_match_at(prows1, page_key(), k, j);
            crate::store::lemma_first_with_key_bounds(prows1, page_key(), k);
            assert(jj == j);
            assert(opt_view(p1[w].content) == opt_view(prows1[j].content));
        }
    }
    lemma_tracked_stable(p1, r1.1, prows2);
}

/// Law (change audit): a page first seen with content `a` leaves no history;
/// syncing it again with a different content `b` appends exactly one entry,
/// holding `b` and that pass's timestamp; syncing `b` once more appends
/// nothing further.
pub proof fn lemma_change_audit(
    s: Store,
    pg_a: Page,
    pg_b: Page,
    t1: i64,
    t2: i64,
    t3: i64,
)
    requires
        s.wf(),
        !has_key(s.pages@, page_key(), pg_a.id),
        pg_b.id == pg_a.id,
        opt_view(pg_a.content) != opt_view(pg_b.content),
    ensures
        ({
            let r1 = tracked_fold(s.pages@, s.history@, page_rows(seq![pg_a], t1));
            let r2 = tracked_fold(r1.0, r1.1, page_rows(seq![pg_b], t2));
            let r3 = tracked_fold(r2.0, r2.1, page_rows(seq![pg_b], t3));
            &&& r1.1 == s.history@
            &&& r2.1 == r1.1.push(
                HistoryRow { cmid: pg_a.coursemodule, content: pg_b.content, timestamp: t2 },
            )
            &&& r3.1 == r2.1
        }),
{
    let row_a = crate::pages::page_row_of(pg_a, t1);
    let row_b2 = crate::pages::page_row_of(pg_b, t2);
    let row_b3 = crate::pages::page_row_of(pg_b, t3);
    let rows1 = page_rows(seq![pg_a], t1);
    let rows2 = page_rows(seq![pg_b], t2);
    let rows3 = page_rows(seq![pg_b], t3);
    assert(rows1 =~= seq![row_a]);
    assert(rows2 =~= seq![row_b2]);
    assert(rows3 =~= seq![row_b3]);
    lemma_first_with_key_bounds(s.pages@, page_key(), pg_a.id);
    // first pass: the page is unknown, so it is appended and no history is
    // written
    assert(history_after(s.pages@, s.history@, row_a) == s.history@);
    let ps1 = upsert_by(s.pages@, page_key(), page_merge(), row_a);
    assert(ps1 == s.pages@.push(row_a));
    assert(rows1.drop_first() =~= Seq::<PageRow>::empty());
    let r1 = tracked_fold(s.pages@, s.history@, rows1);
    assert(r1 == tracked_fold(ps1, s.history@, rows1.drop_first()));
    assert(tracked_fold(ps1, s.history@, rows1.drop_first()) == (ps1, s.history@));
    assert(r1.0 == ps1 && r1.1 == s.history@);
    // second pass: the stored content differs, so the row is overwritten
    // and one entry is appended
    assert forall|q: int| 0 <= q < s.pages@.len() implies #[trigger] page_key()(ps1[q])
        != pg_a.id by {
        assert(ps1[q] == s.pages@[q]);
    }
    lemma_first_match_at(ps1, page_key(), pg_a.id, s.pages@.len() as int);
    let i1 = first_with_key(ps1, page_key(), row_b2.pageid);
    assert(i1 == s.pages@.len());
    assert(ps1[i1] == row_a);
    assert(opt_view(row_a.content) != opt_view(row_b2.content));
    assert(history_after(ps1, r1.1, row_b2) == r1.1.push(
        HistoryRow { cmid: pg_a.coursemodule, content: pg_b.content, timestamp: t2 },
    ));
    let ps2 = upsert_by(ps1, page_key(), page_merge(), row_b2);
    assert(rows2.drop_first() =~= Seq::<PageRow>::empty());
    let hs2 = history_after(ps1, r1.1, row_b2);
    let r2 = tracked_fold(r1.0, r1.1, rows2);
    assert(r2 == tracked_fold(ps2, hs2, rows2.drop_first()));
    assert(tracked_fold(ps2, hs2, rows2.drop_first()) == (ps2, hs2));
    assert(r2.0 == ps2);
    // third pass: the stored content now equals the incoming content, so
    // nothing is appended
    assert(ps2 == ps1.update(i1, page_merge()(row_a, row_b2)));
    assert forall|q: int| 0 <= q < i1 implies #[trigger] page_key()(ps2[q]) != pg_a.id by {
        assert(ps2[q] == ps1[q]);
    }
    assert(page_key()(ps2[i1]) == pg_a.id);
    lemma_first_match_at(ps2, page_key(), pg_a.id, i1);
    assert(opt_view(ps2[i1].content) == opt_view(pg_b.content));
    assert(history_after(ps2, r2.1, row_b3) == r2.1);
    assert(rows3.drop_first() =~= Seq::<PageRow>::empty());
    let ps3 = upsert_by(ps2, page_key(), page_merge(), row_b3);
    let r3 = tracked_fold(r2.0, r2.1, rows3);
    assert(r3 == tracked_fold(ps3, r2.1, rows3.drop_first()));
    assert(tracked_fold(ps3, r2.1, rows3.drop_first()) == (ps3, r2.1));
}

/// The sum of a weight over a sequence.
pub open spec fn sum_of<T>(s: Seq<T>, w: spec_fn(T) -> int) -> int
    decreases s.len(),
{
    if s.len() == 0 {
        0
    } else {
        sum_of(s.drop_last(), w) + w(s.last())
    }
}

/// The weight that counts each row once.
pub open spec fn one<T>() -> spec_fn(T) -> int {
    |t: T| 1
}

proof fn lemma_sum_of_ones<T>(s: Seq<T>)
    ensures
        sum_of(s, one()) == s.len(),
    decreases s.len(),
{
    if s.len() > 0 {
        lemma_sum_of_ones(s.drop_last());
    }
}

proof fn lemma_sum_pointwise<A, B>(a: Seq<A>, b: Seq<B>, wa: spec_fn(A) -> int, wb: spec_fn(
    B,
) -> int)
    requires
        a.len() == b.len(),
        forall|i: int| 0 <= i < a.len() ==> #[trigger] wa(a[i]) == wb(b[i]),
    ensures
        sum_of(a, wa) == sum_of(b, wb),
    decreases a.len(),
{
    if a.len() > 0 {
        assert forall|i: int| 0 <= i < a.drop_last().len() implies #[trigger] wa(
            a.drop_last()[i],
        ) == wb(b.drop_last()[i]) by {
            assert(a.drop_last()[i] == a[i]);
            assert(b.drop_last()[i] == b[i]);
        }
        lemma_sum_pointwise(a.drop_last(), b.drop_last(), wa, wb);
        assert(wa(a.last()) == wb(b.last()));
    }
}

proof fn lemma_sum_add<T>(s: Seq<T>, w1: spec_fn(T) -> int, w2: spec_fn(T) -> int, w: spec_fn(
    T,
) -> int)
    requires
        forall|i: int| 0 <= i < s.len() ==> #[trigger] w(s[i]) == w1(s[i]) + w2(s[i]),
    ensures
        sum_of(s, w) == sum_of(s, w1) + sum_of(s, w2),
    decreases s.len(),
{
    if s.len() > 0 {
        assert forall|i: int| 0 <= i < s.drop_last().len() implies #[trigger] w(s.drop_last()[i])
            == w1(s.drop_last()[i]) + w2(s.drop_last()[i]) by {
            assert(s.drop_last()[i] == s[i]);
        }
        lemma_sum_add(s.drop_last(), w1, w2, w);
        assert(w(s.last()) == w1(s.last()) + w2(s.last()));
    }
}

proof fn lemma_has_key_unfold_last<T, K>(rows: Seq<T>, key: spec_fn(T) -> K, k: K)
    requires
        rows.len() > 0,
    ensures
        has_key(rows, key, k) <==> (key(rows.last()) == k || has_key(rows.drop_last(), key, k)),
{
    if has_key(rows, key, k) {
        let w = choose|i: int| 0 <= i < rows.len() && #[trigger] key(rows[i]) == k;
        if w < rows.len() - 1 {
            assert(key(rows.drop_last()[w]) == k);
        }
    }
    if has_key(rows.drop_last(), key, k) {
        let w = choose|i: int|
            0 <= i < rows.drop_last().len() && #[trigger] key(rows.drop_last()[i]) == k;
        assert(key(rows[w]) == k);
    }
}

proof fn lemma_filter_empty<T>(items: Seq<T>, p: spec_fn(T) -> bool)
    requires
        forall|i: int| 0 <= i < items.len() ==> !p(#[trigger] items[i]),
    ensures
        filter_rows(items, p).len() == 0,
    decreases items.len(),
{
    if items.len() > 0 {
        assert forall|i: int| 0 <= i < items.drop_last().len() implies !p(
            #[trigger] items.drop_last()[i],
        ) by {
            assert(items.drop_last()[i] == items[i]);
        }
        lemma_filter_empty(items.drop_last(), p);
        assert(!p(items.last()));
    }
}

/// Whether `x` occurs in `items` among the rows satisfying `p`.
spec fn member_with<T>(items: Seq<T>, p: spec_fn(T) -> bool, x: T) -> bool {
    exists|j: int| 0 <= j < items.len() && #[trigger] items[j] == x && p(items[j])
}

/// Every filtered row is one of the table's rows.
proof fn lemma_filter_membership<T>(items: Seq<T>, p: spec_fn(T) -> bool)
    ensures
        forall|q: int|
            0 <= q < filter_rows(items, p).len() ==> member_with(
                items,
                p,
                #[trigger] filter_rows(items, p)[q],
            ),
    decreases items.len(),
{
    if items.len() > 0 {
        lemma_filter_membership(items.drop_last(), p);
        let f = filter_rows(items, p);
        let fd = filter_rows(items.drop_last(), p);
        assert forall|q: int| 0 <= q < f.len() implies member_with(items, p, #[trigger] f[q]) by {
            if q < fd.len() {
                assert(f[q] == fd[q]);
                assert(member_with(items.drop_last(), p, fd[q]));
                let j = choose|j: int|
                    0 <= j < items.drop_last().len() && #[trigger] items.drop_last()[j] == fd[q]
                        && p(items.drop_last()[j]);
                assert(items[j] == f[q] && p(items[j]));
            } else {
                assert(f[q] == items.last());
                assert(items[items.len() - 1] == f[q] && p(items[items.len() - 1]));
            }
        }
    }
}

/// Filtering keeps keys distinct.
proof fn lemma_filter_distinct<T, K>(items: Seq<T>, p: spec_fn(T) -> bool, key: spec_fn(T) -> K)
    requires
        distinct_keys(items, key),
    ensures
        distinct_keys(filter_rows(items, p), key),
    decreases items.len(),
{
    if items.len() > 0 {
        assert forall|i: int, j: int|
            0 <= i < j < items.drop_last().len() implies #[trigger] key(items.drop_last()[i])
            != #[trigger] key(items.drop_last()[j]) by {
            assert(items.drop_last()[i] == items[i]);
            assert(items.drop_last()[j] == items[j]);
        }
        lemma_filter_distinct(items.drop_last(), p, key);
        lemma_filter_membership(items.drop_last(), p);
        let f = filter_rows(items, p);
        let fd = filter_rows(items.drop_last(), p);
        assert forall|i: int, j: int| 0 <= i < j < f.len() implies #[trigger] key(f[i])
            != #[trigger] key(f[j]) by {
            if j >= fd.len() {
                assert(p(items.last()));
                assert(f[j] == items.last());
                assert(f[i] == fd[i]);
                assert(member_with(items.drop_last(), p, fd[i]));
                let wi = choose|w: int|
                    0 <= w < items.drop_last().len() && #[trigger] items.drop_last()[w] == fd[i]
                        && p(items.drop_last()[w]);
                assert(items[wi] == f[i]);
                assert(key(items[wi]) != key(items[items.len() - 1]));
            } else {
                assert(f[i] == fd[i] && f[j] == fd[j]);
            }
        }
    }
}

/// A sum over rows matching either of two disjoint conditions splits.
proof fn lemma_sum_split<T>(
    items: Seq<T>,
    c: spec_fn(T) -> bool,
    a: spec_fn(T) -> bool,
    b: spec_fn(T) -> bool,
    w: spec_fn(T) -> int,
)
    requires
        forall|i: int|
            0 <= i < items.len() ==> (#[trigger] c(items[i]) <==> (a(items[i]) || b(items[i]))),
        forall|i: int| 0 <= i < items.len() ==> !(#[trigger] a(items[i]) && b(items[i])),
    ensures
        sum_of(filter_rows(items, c), w) == sum_of(filter_rows(items, a), w) + sum_of(
            filter_rows(items, b),
            w,
        ),
    decreases items.len(),
{
    if items.len() > 0 {
        assert forall|i: int|
            0 <= i < items.drop_last().len() implies (#[trigger] c(items.drop_last()[i]) <==> (a(
            items.drop_last()[i],
        ) || b(items.drop_last()[i]))) && !(a(items.drop_last()[i]) && b(
            items.drop_last()[i],
        )) by {
            assert(items.drop_last()[i] == items[i]);
        }
        lemma_sum_split(items.drop_last(), c, a, b, w);
        let e = items.last();
        assert(c(e) <==> (a(e) || b(e)));
        assert(!(a(e) && b(e)));
        let fc = filter_rows(items.drop_last(), c);
        let fa = filter_rows(items.drop_last(), a);
        let fb = filter_rows(items.drop_last(), b);
        if c(e) {
            assert(fc + seq![e] =~= fc.push(e));
            assert((fc.push(e)).drop_last() =~= fc);
            assert(sum_of(filter_rows(items, c), w) == sum_of(fc, w) + w(e));
        } else {
            assert(fc + Seq::<T>::empty() =~= fc);
        }
        if a(e) {
            assert(fa + seq![e] =~= fa.push(e));
            assert((fa.push(e)).drop_last() =~= fa);
            assert(sum_of(filter_rows(items, a), w) == sum_of(fa, w) + w(e));
        } else {
            assert(fa + Seq::<T>::empty() =~= fa);
        }
        if b(e) {
            assert(fb + seq![e] =~= fb.push(e));
            assert((fb.push(e)).drop_last() =~= fb);
            assert(sum_of(filter_rows(items, b), w) == sum_of(fb, w) + w(e));
        } else {
            assert(fb + Seq::<T>::empty() =~= fb);
        }
    }
}

/// Distinct parents partition their children: summing a weight over each
/// parent's children in turn sums it once over every child with a stored
/// parent.
proof fn lemma_partition<P, T>(
    parents: Seq<P>,
    items: Seq<T>,
    pk: spec_fn(P) -> i64,
    fk: spec_fn(T) -> i64,
    w: spec_fn(T) -> int,
)
    requires
        distinct_keys(parents, pk),
    ensures
        sum_of(parents, |p: P| sum_of(filter_rows(items, |t: T| fk(t) == pk(p)), w)) == sum_of(
            filter_rows(items, |t: T| has_key(parents, pk, fk(t))),
            w,
        ),
    decreases parents.len(),
{
    let outer = |p: P| sum_of(filter_rows(items, |t: T| fk(t) == pk(p)), w);
    if parents.len() == 0 {
        assert forall|i: int| 0 <= i < items.len() implies !(
        |t: T| has_key(parents, pk, fk(t)))(#[trigger] items[i]) by {
            assert(!has_key(parents, pk, fk(items[i])));
        }
        lemma_filter_empty(items, |t: T| has_key(parents, pk, fk(t)));
        assert(filter_rows(items, |t: T| has_key(parents, pk, fk(t))).len() == 0);
        assert(sum_of(filter_rows(items, |t: T| has_key(parents, pk, fk(t))), w) == 0);
    } else {
        let pl = parents.last();
        let rest = parents.drop_last();
        assert forall|i: int, j: int| 0 <= i < j < rest.len() implies #[trigger] pk(rest[i])
            != #[trigger] pk(rest[j]) by {
            assert(rest[i] == parents[i]);
            assert(rest[j] == parents[j]);
        }
        lemma_partition(rest, items, pk, fk, w);
        assert(sum_of(parents, outer) == sum_of(rest, outer) + outer(pl));
        // the last parent's children are disjoint from the earlier parents'
        assert forall|i: int|
            0 <= i < items.len() implies ((|t: T| has_key(parents, pk, fk(t)))(
            #[trigger] items[i],
        ) <==> ((|t: T| has_key(rest, pk, fk(t)))(items[i]) || (|t: T| fk(t) == pk(pl))(
            items[i],
        ))) by {
            lemma_has_key_unfold_last(parents, pk, fk(items[i]));
        }
        assert forall|i: int|
            0 <= i < items.len() implies !((|t: T| has_key(rest, pk, fk(t)))(#[trigger] items[i])
            && (|t: T| fk(t) == pk(pl))(items[i])) by {
            if fk(items[i]) == pk(pl) && has_key(rest, pk, fk(items[i])) {
                let q = choose|q: int| 0 <= q < rest.len() && #[trigger] pk(rest[q]) == fk(
                    items[i],
                );
                assert(rest[q] == parents[q]);
                assert(pk(parents[q]) == pk(parents[parents.len() - 1]));
                assert(false);
            }
        }
        lemma_sum_split(
            items,
            |t: T| has_key(parents, pk, fk(t)),
            |t: T| has_key(rest, pk, fk(t)),
            |t: T| fk(t) == pk(pl),
            w,
        );
    }
}

/// The section rows of one course.
pub open spec fn course_section_rows(store: Store, courseid: i64) -> Seq<SectionRow> {
    filter_rows(store.sections@, crate::course::in_course(courseid))
}

/// The module rows whose owning section belongs to the course.
pub open spec fn course_module_rows(store: Store, courseid: i64) -> Seq<ModuleRow> {
    filter_rows(
        store.modules@,
        |m: ModuleRow| has_key(course_section_rows(store, courseid), sec_key(), m.section_id),
    )
}

/// The page rows attached to the course's modules.
pub open spec fn course_page_rows(store: Store, courseid: i64) -> Seq<PageRow> {
    filter_rows(
        store.pages@,
        |p: PageRow| has_key(course_module_rows(store, courseid), mod_key(), p.coursemodule),
    )
}

/// The content rows whose owning module belongs to the course.
pub open spec fn matching_content_rows(store: Store, courseid: i64) -> Seq<ContentRow> {
    filter_rows(
        store.contents@,
        |c: ContentRow| has_key(course_module_rows(store, courseid), mod_key(), c.module_id),
    )
}

/// The file rows whose owning page belongs to the course.
pub open spec fn matching_file_rows(store: Store, courseid: i64) -> Seq<FileRow> {
    filter_rows(
        store.files@,
        |f: FileRow| has_key(course_page_rows(store, courseid), page_key(), f.page_id),
    )
}

/// The leaf entries of one module group of the assembled document.
pub open spec fn module_leaves(m: crate::course_details::ModuleDetails) -> int {
    m.content@.len() + sum_of(
        m.pages@,
        |p: crate::course_details::PageDetails| p.files@.len() as int,
    )
}

/// The leaf entries (content items and page attachments) of the assembled
/// document.
pub open spec fn tree_leaves(t: crate::course_details::ParseCourseDetails) -> int {
    sum_of(
        t.sections@,
        |s: crate::course_details::SectionDetails|
            sum_of(s.modules@, |m: crate::course_details::ModuleDetails| module_leaves(m)),
    )
}

/// The attachments a stored page contributes.
pub open spec fn page_weight(store: Store) -> spec_fn(PageRow) -> int {
    |p: PageRow| filter_rows(store.files@, crate::course::of_page(p.pageid)).len() as int
}

/// The leaves a stored module contributes: its content rows and its pages'
/// file rows.
pub open spec fn module_weight(store: Store) -> spec_fn(ModuleRow) -> int {
    |m: ModuleRow|
        filter_rows(store.contents@, crate::course::in_module(m.moduleid)).len() + sum_of(
            filter_rows(store.pages@, crate::course_details::page_of_module(m.moduleid)),
            page_weight(store),
        )
}

/// Law (tree reconstruction fidelity): the assembled document of a course
/// holds exactly as many leaf entries — content items plus page
/// attachments — as the store holds matching flat rows: none duplicated,
/// none lost, however many content rows and pages a module owns.
pub proof fn lemma_tree_fidelity(
    store: Store,
    courseid: i64,
    t: crate::course_details::ParseCourseDetails,
)
    requires
        store.wf(),
        crate::course_details::course_details_matches(store, courseid, t),
    ensures
        tree_leaves(t) == matching_content_rows(store, courseid).len() + matching_file_rows(
            store,
            courseid,
        ).len(),
{
    let srows = course_section_rows(store, courseid);
    let sec_w = |r: SectionRow|
        sum_of(
            filter_rows(store.modules@, |m: ModuleRow| mod_fk()(m) == sec_key()(r)),
            module_weight(store),
        );
    // the document's sums equal the store-side sums, level by level
    assert forall|i: int| 0 <= i < t.sections@.len() implies (
    |s: crate::course_details::SectionDetails|
        sum_of(s.modules@, |m: crate::course_details::ModuleDetails| module_leaves(m)))(
        #[trigger] t.sections@[i],
    ) == sec_w(srows[i]) by {
        let node = t.sections@[i];
        let r = srows[i];
        assert(crate::course_details::section_details_matches(store, r, node));
        let mrows = filter_rows(store.modules@, crate::course::in_section(r.sectionid));
        assert forall|j: int| 0 <= j < node.modules@.len() implies (
        |m: crate::course_details::ModuleDetails| module_leaves(m))(#[trigger] node.modules@[j])
            == module_weight(store)(mrows[j]) by {
            let mnode = node.modules@[j];
            let mr = mrows[j];
            assert(crate::course_details::module_details_matches(store, mr, mnode));
            crate::store::lemma_filter_idx_len(
                store.contents@,
                crate::course::in_module(mr.moduleid),
            );
            let prows = filter_rows(
                store.pages@,
                crate::course_details::page_of_module(mr.moduleid),
            );
            assert forall|k: int| 0 <= k < mnode.pages@.len() implies (
            |p: crate::course_details::PageDetails| p.files@.len() as int)(
                #[trigger] mnode.pages@[k],
            ) == page_weight(store)(prows[k]) by {
                assert(crate::course_details::page_details_matches(
                    store,
                    prows[k],
                    mnode.pages@[k],
                ));
                crate::store::lemma_filter_idx_len(
                    store.files@,
                    crate::course::of_page(prows[k].pageid),
                );
            }
            lemma_sum_pointwise(
                mnode.pages@,
                prows,
                |p: crate::course_details::PageDetails| p.files@.len() as int,
                page_weight(store),
            );
        }
        assert((|m: ModuleRow| mod_fk()(m) == sec_key()(r)) =~= crate::course::in_section(
            r.sectionid,
        ));
        lemma_sum_pointwise(
            node.modules@,
            mrows,
            |m: crate::course_details::ModuleDetails| module_leaves(m),
            module_weight(store),
        );
    }
    lemma_sum_pointwise(
        t.sections@,
        srows,
        |s: crate::course_details::SectionDetails|
            sum_of(s.modules@, |m: crate::course_details::ModuleDetails| module_leaves(m)),
        sec_w,
    );
    // flatten the section level: the course's modules, each counted once
    lemma_filter_distinct(
        store.sections@,
        crate::course::in_course(courseid),
        sec_key(),
    );
    lemma_partition(srows, store.modules@, sec_key(), mod_fk(), module_weight(store));
    assert((|m: ModuleRow| has_key(srows, sec_key(), mod_fk()(m))) =~= (
    |m: ModuleRow| has_key(course_section_rows(store, courseid), sec_key(), m.section_id)));
    let mrows_all = course_module_rows(store, courseid);
    assert(sum_of(srows, sec_w) == sum_of(mrows_all, module_weight(store)));
    // split each module's weight into its content part and its pages part
    let content_part = |m: ModuleRow|
        filter_rows(store.contents@, crate::course::in_module(m.moduleid)).len() as int;
    let pages_part = |m: ModuleRow|
        sum_of(
            filter_rows(store.pages@, crate::course_details::page_of_module(m.moduleid)),
            page_weight(store),
        );
    lemma_sum_add(mrows_all, content_part, pages_part, module_weight(store));
    // content: the course's modules partition their content rows
    lemma_filter_distinct(
        store.modules@,
        |m: ModuleRow| has_key(course_section_rows(store, courseid), sec_key(), m.section_id),
        mod_key(),
    );
    lemma_partition(mrows_all, store.contents@, mod_key(), content_fk(), one());
    assert forall|i: int| 0 <= i < mrows_all.len() implies content_part(#[trigger] mrows_all[i])
        == (|p: ModuleRow| sum_of(
        filter_rows(store.contents@, |t: ContentRow| content_fk()(t) == mod_key()(p)),
        one(),
    ))(mrows_all[i]) by {
        let m = mrows_all[i];
        assert((|t: ContentRow| content_fk()(t) == mod_key()(m)) =~= crate::course::in_module(
            m.moduleid,
        ));
        lemma_sum_of_ones(filter_rows(store.contents@, crate::course::in_module(m.moduleid)));
    }
    lemma_sum_pointwise(
        mrows_all,
        mrows_all,
        content_part,
        |p: ModuleRow| sum_of(
            filter_rows(store.contents@, |t: ContentRow| content_fk()(t) == mod_key()(p)),
            one(),
        ),
    );
    assert((|t: ContentRow| has_key(mrows_all, mod_key(), content_fk()(t))) =~= (
    |c: ContentRow| has_key(course_module_rows(store, courseid), mod_key(), c.module_id)));
    lemma_sum_of_ones(matching_content_rows(store, courseid));
    assert(sum_of(mrows_all, content_part) == matching_content_rows(store, courseid).len());
    // pages: the course's modules partition their pages, and the pages
    // their files
    lemma_partition(mrows_all, store.pages@, mod_key(), crate::store::page_cm(), page_weight(store));
    assert forall|i: int| 0 <= i < mrows_all.len() implies pages_part(#[trigger] mrows_all[i]) == (
    |p: ModuleRow| sum_of(
        filter_rows(store.pages@, |t: PageRow| crate::store::page_cm()(t) == mod_key()(p)),
        page_weight(store),
    ))(mrows_all[i]) by {
        let m = mrows_all[i];
        assert((|t: PageRow| crate::store::page_cm()(t) == mod_key()(m))
            =~= crate::course_details::page_of_module(m.moduleid));
    }
    lemma_sum_pointwise(
        mrows_all,
        mrows_all,
        pages_part,
        |p: ModuleRow| sum_of(
            filter_rows(store.pages@, |t: PageRow| crate::store::page_cm()(t) == mod_key()(p)),
            page_weight(store),
        ),
    );
    assert((|t: PageRow| has_key(mrows_all, mod_key(), crate::store::page_cm()(t))) =~= (
    |p: PageRow| has_key(course_module_rows(store, courseid), mod_key(), p.coursemodule)));
    let prows_all = course_page_rows(store, courseid);
    assert(sum_of(mrows_all, pages_part) == sum_of(prows_all, page_weight(store)));
    lemma_filter_distinct(
        store.pages@,
        |p: PageRow| has_key(course_module_rows(store, courseid), mod_key(), p.coursemodule),
        page_key(),
    );
    lemma_partition(prows_all, store.files@, page_key(), file_fk(), one());
    assert forall|i: int| 0 <= i < prows_all.len() implies page_weight(store)(
        #[trigger] prows_all[i],
    ) == (|p: PageRow| sum_of(
        filter_rows(store.files@, |t: FileRow| file_fk()(t) == page_key()(p)),
        one(),
    ))(prows_all[i]) by {
        let p = prows_all[i];
        assert((|t: FileRow| file_fk()(t) == page_key()(p)) =~= crate::course::of_page(p.pageid));
        lemma_sum_of_ones(filter_rows(store.files@, crate::course::of_page(p.pageid)));
    }
    lemma_sum_pointwise(
        prows_all,
        prows_all,
        page_weight(store),
        |p: PageRow| sum_of(
            filter_rows(store.files@, |t: FileRow| file_fk()(t) == page_key()(p)),
            one(),
        ),
    );
    assert((|t: FileRow| has_key(prows_all, page_key(), file_fk()(t))) =~= (
    |f: FileRow| has_key(course_page_rows(store, courseid), page_key(), f.page_id)));
    lemma_sum_of_ones(matching_file_rows(store, courseid));
}

/// Law (parent before child): in a well-formed store — and sync passes
/// keep the store well-formed — every content row's foreign key names a
/// stored module, every file row's a stored page, every module's a stored
/// section, and every history entry's a stored page.
pub proof fn lemma_parent_before_child(s: Store)
    requires
        s.wf(),
    ensures
        all_resolve(s.contents@, s.modules@, content_fk(), mod_key()),
        all_resolve(s.files@, s.pages@, file_fk(), page_key()),
        all_resolve(s.modules@, s.sections@, mod_fk(), sec_key()),
        all_resolve(s.history@, s.pages@, crate::store::hist_fk(), crate::store::page_cm()),
{
}

} // verus!
