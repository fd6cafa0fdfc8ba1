//! Store lookups the attachment downloader needs: which course a stored
//! content file belongs to, and recording a download's local path.
use vstd::prelude::*;

use crate::store::{
    file_key, first_with_key, has_key, lemma_first_match_at, lemma_first_with_key_bounds, mod_key,
    sec_key, str_eq, ContentRow, FileRow, Store,
};

verus! {

/// The filename of a content row.
pub open spec fn content_name() -> spec_fn(ContentRow) -> Seq<char> {
    |c: ContentRow| c.filename@
}

/// The course a stored filename belongs to: the first content row with
/// that name, resolved through its module to its section's course.
pub open spec fn course_of_filename(store: Store, filename: Seq<char>) -> Option<i64> {
    let ci = first_with_key(store.contents@, content_name(), filename);
    if ci == -1 {
        None
    } else {
        let mi = first_with_key(store.modules@, mod_key(), store.contents@[ci].module_id);
        if mi == -1 {
            None
        } else {
            let si = first_with_key(store.sections@, sec_key(), store.modules@[mi].section_id);
            if si == -1 {
                None
            } else {
                Some(store.sections@[si].courseid)
            }
        }
    }
}

/// The course a stored filename belongs to, resolved through the
/// content's module and section. An unknown filename, or one whose parent
/// chain is not stored, yields nothing.
pub fn get_course_id(store: &Store, filename: &String) -> (r: Option<i64>)
    ensures
        r == course_of_filename(*store, filename@),
{
    let cn = store.contents.len();
    let mut i: usize = 0;
    while i < cn
        invariant
            i <= cn,
            cn == store.contents@.len(),
            forall|j: int| 0 <= j < i ==> #[trigger] content_name()(store.contents@[j]) != filename@,
        decreases cn - i,
    {
        if str_eq(&store.contents[i].filename, filename) {
            proof {
                lemma_first_match_at(store.contents@, content_name(), filename@, i as int);
            }
            let module_id = store.contents[i].module_id;
            let mn = store.modules.len();
            let mut m: usize = 0;
            while m < mn
                invariant
                    m <= mn,
                    mn == store.modules@.len(),
                    i < store.contents@.len(),
                    first_with_key(store.contents@, content_name(), filename@) == i as int,
                    module_id == store.contents@[i as int].module_id,
                    forall|j: int| 0 <= j < m ==> #[trigger] mod_key()(store.modules@[j]) != module_id,
                decreases mn - m,
            {
                if store.modules[m].moduleid == module_id {
                    proof {
                        lemma_first_match_at(store.modules@, mod_key(), module_id, m as int);
                    }
                    let section_id = store.modules[m].section_id;
                    let sn = store.sections.len();
                    let mut s: usize = 0;
                    while s < sn
                        invariant
                            s <= sn,
                            sn == store.sections@.len(),
                            i < store.contents@.len(),
                            first_with_key(store.contents@, content_name(), filename@) == i as int,
                            module_id == store.contents@[i as int].module_id,
                            m < store.modules@.len(),
                            first_with_key(store.modules@, mod_key(), module_id) == m as int,
                            section_id == store.modules@[m as int].section_id,
                            forall|j: int|
                                0 <= j < s ==> #[trigger] sec_key()(store.sections@[j])
                                    != section_id,
                        decreases sn - s,
                    {
                        if store.sections[s].sectionid == section_id {
                            proof {
                                lemma_first_match_at(
                                    store.sections@,
                                    sec_key(),
                                    section_id,
                                    s as int,
                                );
                            }
                            return Some(store.sections[s].courseid);
                        }
                        assert(sec_key()(store.sections@[s as int]) != section_id);
                        s = s + 1;
                    }
                    proof {
                        lemma_first_with_key_bounds(store.sections@, sec_key(), section_id);
                    }
                    return None;
                }
                assert(mod_key()(store.modules@[m as int]) != module_id);
                m = m + 1;
            }
            proof {
                lemma_first_with_key_bounds(store.modules@, mod_key(), module_id);
            }
            return None;
        }
        assert(content_name()(store.contents@[i as int]) != filename@);
        i = i + 1;
    }
    proof {
        lemma_first_with_key_bounds(store.contents@, content_name(), filename@);
    }
    None
}

/// Record a downloaded file's local path against every file row with that
/// filename; nothing else changes.
pub fn update_file_paths_in_db(store: &mut Store, filename: &String, localpath: &String)
    requires
        old(store).wf(),
    ensures
        final(store).wf(),
        final(store).files@.len() == old(store).files@.len(),
        forall|i: int|
            0 <= i < old(store).files@.len() ==> #[trigger] final(store).files@[i] == (
            if old(store).files@[i].filename@ == filename@ {
                FileRow { localpath: Some(*localpath), ..old(store).files@[i] }
            } else {
                old(store).files@[i]
            }),
        final(store).sections@ == old(store).sections@,
        final(store).modules@ == old(store).modules@,
        final(store).contents@ == old(store).contents@,
        final(store).pages@ == old(store).pages@,
        final(store).history@ == old(store).history@,
{
    let n = store.files.len();
    let mut i: usize = 0;
    while i < n
        invariant
            n == store.files@.len(),
            i <= n,
            n == old(store).files@.len(),
            store.wf(),
            forall|j: int|
                0 <= j < i ==> #[trigger] store.files@[j] == (
                if old(store).files@[j].filename@ == filename@ {
                    FileRow { localpath: Some(*localpath), ..old(store).files@[j] }
                } else {
                    old(store).files@[j]
                }),
            forall|j: int| i <= j < n ==> #[trigger] store.files@[j] == old(store).files@[j],
            store.sections@ == old(store).sections@,
            store.modules@ == old(store).modules@,
            store.contents@ == old(store).contents@,
            store.pages@ == old(store).pages@,
            store.history@ == old(store).history@,
        decreases n - i,
    {
        if str_eq(&store.files[i].filename, filename) {
            let f = &store.files[i];
            let updated = FileRow {
                page_id: f.page_id,
                filename: f.filename.clone(),
                fileurl: f.fileurl.clone(),
                localpath: Some(localpath.clone()),
                timemodified: f.timemodified,
                lastfetched: f.lastfetched,
            };
            let ghost before = store.files@;
            store.files.set(i, updated);
            proof {
                assert(updated == FileRow { localpath: Some(*localpath), ..before[i as int] });
                assert forall|a: int, b: int|
                    0 <= a < b < store.files@.len() implies #[trigger] file_key()(store.files@[a])
                    != #[trigger] file_key()(store.files@[b]) by {
                    assert(file_key()(store.files@[a]) == file_key()(before[a]));
                    assert(file_key()(store.files@[b]) == file_key()(before[b]));
                }
                assert forall|c: int|
                    0 <= c < store.files@.len() implies has_key(
                    store.pages@,
                    crate::store::page_key(),
                    #[trigger] crate::store::file_fk()(store.files@[c]),
                ) by {
                    assert(crate::store::file_fk()(store.files@[c]) == crate::store::file_fk()(
                        before[c],
                    ));
                }
            }
        }
        i = i + 1;
    }
}

} // verus!
