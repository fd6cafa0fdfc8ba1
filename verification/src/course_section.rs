//! Incoming section data and the sync pass that writes it to the store.
//!
//! The remote source hands over a course's sections, each with its modules,
//! each with its content items. One sync pass upserts them all, parents
//! before children, under a single timestamp; a malformed entity aborts the
//! pass before anything is written.
use vstd::prelude::*;

use crate::response::CustomError;
use crate::store::{
    clone_opt_string, content_key, content_merge, has_key, lemma_fold_append, lemma_upsert_keys,
    mod_key, mod_merge, sec_key, sec_merge, upsert_by, upsert_fold, ContentRow, ModuleRow,
    SectionRow, Store,
};

verus! {

/// A section as the remote source describes it.
pub struct Section {
    pub id: i64,
    pub name: String,
    pub summary: String,
    pub courseid: Option<i64>,
    pub timemodified: Option<i64>,
    pub modules: Vec<Module>,
}

/// A module as the remote source describes it.
pub struct Module {
    pub id: i64,
    pub name: String,
    pub instance: Option<i64>,
    pub contextid: Option<i64>,
    pub description: Option<String>,
    pub contents: Option<Vec<Content>>,
    pub timemodified: Option<i64>,
    pub section_id: Option<i64>,
}

/// A content item as the remote source describes it.
pub struct Content {
    pub content_type: String,
    pub filename: Option<String>,
    pub fileurl: Option<String>,
    pub timemodified: Option<i64>,
    pub module_id: Option<i64>,
}

/// The row a section is stored as, under the given course and timestamp.
pub open spec fn section_row_of(s: Section, courseid: i64, now: i64) -> SectionRow {
    SectionRow {
        sectionid: s.id,
        courseid,
        name: s.name,
        summary: s.summary,
        timemodified: s.timemodified,
        lastfetched: now,
    }
}

/// The row a module is stored as, under its owning section.
pub open spec fn module_row_of(m: Module, section_id: i64, now: i64) -> ModuleRow {
    ModuleRow {
        moduleid: m.id,
        section_id,
        name: m.name,
        instance: m.instance,
        contextid: m.contextid,
        description: m.description,
        timemodified: m.timemodified,
        lastfetched: now,
    }
}

/// The row a content item is stored as, under its owning module. Only
/// meaningful when the item carries its filename and URL.
pub open spec fn content_row_of(c: Content, module_id: i64, now: i64) -> ContentRow {
    ContentRow {
        module_id,
        filename: match c.filename {
            Some(f) => f,
            None => arbitrary(),
        },
        fileurl: match c.fileurl {
            Some(u) => u,
            None => arbitrary(),
        },
        localpath: None,
        timemodified: c.timemodified,
        lastfetched: now,
    }
}

/// The content items a module owns.
pub open spec fn dto_contents(m: Module) -> Seq<Content> {
    match m.contents {
        Some(v) => v@,
        None => Seq::empty(),
    }
}

/// A content item carries both parts of its storage key.
pub open spec fn content_ok(c: Content) -> bool {
    c.filename is Some && c.fileurl is Some
}

/// Every content item of the module is storable.
pub open spec fn module_ok(m: Module) -> bool {
    forall|i: int| 0 <= i < dto_contents(m).len() ==> content_ok(#[trigger] dto_contents(m)[i])
}

/// Every content item of the section is storable.
pub open spec fn section_ok(s: Section) -> bool {
    forall|i: int| 0 <= i < s.modules@.len() ==> module_ok(#[trigger] s.modules@[i])
}

/// Every content item of the whole batch is storable.
pub open spec fn sections_ok(secs: Seq<Section>) -> bool {
    forall|i: int| 0 <= i < secs.len() ==> section_ok(#[trigger] secs[i])
}

/// The section rows one sync pass writes, in order.
pub open spec fn section_rows(secs: Seq<Section>, courseid: i64, now: i64) -> Seq<SectionRow> {
    secs.map(|i: int, s: Section| section_row_of(s, courseid, now))
}

/// The module rows of one batch of modules, all owned by one section.
pub open spec fn module_batch(mods: Seq<Module>, section_id: i64, now: i64) -> Seq<ModuleRow> {
    mods.map(|i: int, m: Module| module_row_of(m, section_id, now))
}

/// The module rows one sync pass writes, in order.
pub open spec fn module_rows(secs: Seq<Section>, now: i64) -> Seq<ModuleRow>
    decreases secs.len(),
{
    if secs.len() == 0 {
        Seq::empty()
    } else {
        module_batch(secs[0].modules@, secs[0].id, now) + module_rows(secs.drop_first(), now)
    }
}

/// The content rows of one module.
pub open spec fn content_batch(m: Module, now: i64) -> Seq<ContentRow> {
    dto_contents(m).map(|i: int, c: Content| content_row_of(c, m.id, now))
}

/// The content rows of one batch of modules.
pub open spec fn content_rows_mods(mods: Seq<Module>, now: i64) -> Seq<ContentRow>
    decreases mods.len(),
{
    if mods.len() == 0 {
        Seq::empty()
    } else {
        content_batch(mods[0], now) + content_rows_mods(mods.drop_first(), now)
    }
}

/// The content rows one sync pass writes, in order.
pub open spec fn content_rows(secs: Seq<Section>, now: i64) -> Seq<ContentRow>
    decreases secs.len(),
{
    if secs.len() == 0 {
        Seq::empty()
    } else {
        content_rows_mods(secs[0].modules@, now) + content_rows(secs.drop_first(), now)
    }
}

/// Whether every content item of the batch is storable; reports the owning
/// module of an offender.
fn check_sections(sections: &Vec<Section>) -> (r: Option<i64>)
    ensures
        r is None <==> sections_ok(sections@),
{
    let n = sections.len();
    let mut i: usize = 0;
    while i < n
        invariant
            i <= n,
            n == sections@.len(),
            forall|k: int| 0 <= k < i ==> section_ok(#[trigger] sections@[k]),
        decreases n - i,
    {
        let s = &sections[i];
        let mn = s.modules.len();
        let mut j: usize = 0;
        while j < mn
            invariant
                j <= mn,
                i < sections@.len(),
                *s == sections@[i as int],
                mn == s.modules@.len(),
                forall|k: int| 0 <= k < j ==> module_ok(#[trigger] s.modules@[k]),
            decreases mn - j,
        {
            let m = &s.modules[j];
            match &m.contents {
                Some(cs) => {
                    let cn = cs.len();
                    let mut k: usize = 0;
                    while k < cn
                        invariant
                            k <= cn,
                            i < sections@.len(),
                            *s == sections@[i as int],
                            j < s.modules@.len(),
                            *m == s.modules@[j as int],
                            cn == cs@.len(),
                            cs@ == dto_contents(*m),
                            forall|q: int| 0 <= q < k ==> content_ok(#[trigger] cs@[q]),
                        decreases cn - k,
                    {
                        let c = &cs[k];
                        if c.filename.is_none() || c.fileurl.is_none() {
                            assert(!content_ok(cs@[k as int]));
                            assert(*m == s.modules@[j as int]);
                            assert(!content_ok(dto_contents(s.modules@[j as int])[k as int]));
                            assert(!module_ok(s.modules@[j as int]));
                            assert(*s == sections@[i as int]);
                            assert(!section_ok(sections@[i as int]));
                            return Some(m.id);
                        }
                        k = k + 1;
                    }
                },
                None => {},
            }
            assert(module_ok(s.modules@[j as int]));
            j = j + 1;
        }
        assert(section_ok(sections@[i as int]));
        i = i + 1;
    }
    None
}

/// Upsert the content items of one module, from index `i` on.
fn apply_contents(store: &mut Store, contents: &Vec<Content>, i: usize, module_id: i64, now: i64)
    requires
        old(store).wf(),
        i <= contents@.len(),
        forall|k: int| i <= k < contents@.len() ==> content_ok(#[trigger] contents@[k]),
        has_key(old(store).modules@, mod_key(), module_id),
    ensures
        final(store).wf(),
        final(store).contents@ == upsert_fold(
            old(store).contents@,
            content_key(),
            content_merge(),
            contents@.skip(i as int).map(|q: int, c: Content| content_row_of(c, module_id, now)),
        ),
        final(store).sections@ == old(store).sections@,
        final(store).modules@ == old(store).modules@,
        final(store).pages@ == old(store).pages@,
        final(store).files@ == old(store).files@,
        final(store).history@ == old(store).history@,
    decreases contents@.len() - i,
{
    let ghost rows = contents@.skip(i as int).map(
        |q: int, c: Content| content_row_of(c, module_id, now),
    );
    if i == contents.len() {
        assert(rows =~= Seq::<ContentRow>::empty());
        return ;
    }
    let c = &contents[i];
    let filename = match &c.filename {
        Some(f) => f.clone(),
        None => unreached(),
    };
    let fileurl = match &c.fileurl {
        Some(u) => u.clone(),
        None => unreached(),
    };
    let row = ContentRow {
        module_id,
        filename,
        fileurl,
        localpath: None,
        timemodified: c.timemodified,
        lastfetched: now,
    };
    assert(row == content_row_of(contents@[i as int], module_id, now));
    assert(rows[0] == row);
    store.upsert_content(row);
    apply_contents(store, contents, i + 1, module_id, now);
    proof {
        assert(rows.drop_first() =~= contents@.skip(i + 1).map(
            |q: int, c: Content| content_row_of(c, module_id, now),
        ));
    }
}

/// Upsert the modules of one section with their content items, from index
/// `i` on: each module before what it owns.
fn apply_modules(store: &mut Store, modules: &Vec<Module>, i: usize, section_id: i64, now: i64)
    requires
        old(store).wf(),
        i <= modules@.len(),
        forall|k: int| i <= k < modules@.len() ==> module_ok(#[trigger] modules@[k]),
        has_key(old(store).sections@, sec_key(), section_id),
    ensures
        final(store).wf(),
        final(store).modules@ == upsert_fold(
            old(store).modules@,
            mod_key(),
            mod_merge(),
            module_batch(modules@.skip(i as int), section_id, now),
        ),
        final(store).contents@ == upsert_fold(
            old(store).contents@,
            content_key(),
            content_merge(),
            content_rows_mods(modules@.skip(i as int), now),
        ),
        final(store).sections@ == old(store).sections@,
        final(store).pages@ == old(store).pages@,
        final(store).files@ == old(store).files@,
        final(store).history@ == old(store).history@,
    decreases modules@.len() - i,
{
    let ghost mrows = module_batch(modules@.skip(i as int), section_id, now);
    let ghost crows = content_rows_mods(modules@.skip(i as int), now);
    if i == modules.len() {
        assert(mrows =~= Seq::<ModuleRow>::empty());
        assert(modules@.skip(i as int).len() == 0);
        return ;
    }
    let m = &modules[i];
    let row = ModuleRow {
        moduleid: m.id,
        section_id,
        name: m.name.clone(),
        instance: m.instance,
        contextid: m.contextid,
        description: clone_opt_string(&m.description),
        timemodified: m.timemodified,
        lastfetched: now,
    };
    assert(row == module_row_of(modules@[i as int], section_id, now));
    assert(mrows[0] == row);
    proof {
        lemma_upsert_keys(store.modules@, mod_key(), mod_merge(), row);
    }
    store.upsert_module(row);
    assert(has_key(store.modules@, mod_key(), m.id));
    let ghost mid_contents = store.contents@;
    match &m.contents {
        Some(cs) => {
            assert(cs@ == dto_contents(modules@[i as int]));
            apply_contents(store, cs, 0, m.id, now);
            proof {
                assert(cs@.skip(0) =~= cs@);
                assert(cs@.map(|q: int, c: Content| content_row_of(c, m.id, now)) =~= content_batch(
                    modules@[i as int],
                    now,
                ));
            }
        },
        None => {
            proof {
                assert(content_batch(modules@[i as int], now) =~= Seq::<ContentRow>::empty());
            }
        },
    }
    assert(store.contents@ == upsert_fold(
        mid_contents,
        content_key(),
        content_merge(),
        content_batch(modules@[i as int], now),
    ));
    apply_modules(store, modules, i + 1, section_id, now);
    proof {
        assert(mrows.drop_first() =~= module_batch(modules@.skip(i + 1), section_id, now));
        assert(modules@.skip(i as int)[0] == modules@[i as int]);
        assert(modules@.skip(i as int).drop_first() =~= modules@.skip(i + 1));
        assert(crows == content_batch(modules@[i as int], now) + content_rows_mods(
            modules@.skip(i + 1),
            now,
        ));
        lemma_fold_append(
            old(store).contents@,
            content_key(),
            content_merge(),
            content_batch(modules@[i as int], now),
            content_rows_mods(modules@.skip(i + 1), now),
        );
    }
}

/// Upsert the sections with their modules and content items, from index `i`
/// on: each parent before its children.
fn apply_sections(store: &mut Store, sections: &Vec<Section>, i: usize, courseid: i64, now: i64)
    requires
        old(store).wf(),
        i <= sections@.len(),
        forall|k: int| i <= k < sections@.len() ==> section_ok(#[trigger] sections@[k]),
    ensures
        final(store).wf(),
        final(store).sections@ == upsert_fold(
            old(store).sections@,
            sec_key(),
            sec_merge(),
            section_rows(sections@.skip(i as int), courseid, now),
        ),
        final(store).modules@ == upsert_fold(
            old(store).modules@,
            mod_key(),
            mod_merge(),
            module_rows(sections@.skip(i as int), now),
        ),
        final(store).contents@ == upsert_fold(
            old(store).contents@,
            content_key(),
            content_merge(),
            content_rows(sections@.skip(i as int), now),
        ),
        final(store).pages@ == old(store).pages@,
        final(store).files@ == old(store).files@,
        final(store).history@ == old(store).history@,
    decreases sections@.len() - i,
{
    let ghost srows = section_rows(sections@.skip(i as int), courseid, now);
    if i == sections.len() {
        assert(srows =~= Seq::<SectionRow>::empty());
        assert(sections@.skip(i as int).len() == 0);
        return ;
    }
    let s = &sections[i];
    let row = SectionRow {
        sectionid: s.id,
        courseid,
        name: s.name.clone(),
        summary: s.summary.clone(),
        timemodified: s.timemodified,
        lastfetched: now,
    };
    assert(row == section_row_of(sections@[i as int], courseid, now));
    assert(srows[0] == row);
    proof {
        lemma_upsert_keys(store.sections@, sec_key(), sec_merge(), row);
    }
    store.upsert_section(row);
    assert(has_key(store.sections@, sec_key(), s.id));
    let ghost mid_modules = store.modules@;
    let ghost mid_contents = store.contents@;
    apply_modules(store, &s.modules, 0, s.id, now);
    proof {
        assert(s.modules@.skip(0) =~= s.modules@);
    }
    apply_sections(store, sections, i + 1, courseid, now);
    proof {
        assert(srows.drop_first() =~= section_rows(sections@.skip(i + 1), courseid, now));
        assert(sections@.skip(i as int)[0] == sections@[i as int]);
        assert(sections@.skip(i as int).drop_first() =~= sections@.skip(i + 1));
        lemma_fold_append(
            old(store).modules@,
            mod_key(),
            mod_merge(),
            module_batch(sections@[i as int].modules@, sections@[i as int].id, now),
            module_rows(sections@.skip(i + 1), now),
        );
        lemma_fold_append(
            old(store).contents@,
            content_key(),
            content_merge(),
            content_rows_mods(sections@[i as int].modules@, now),
            content_rows(sections@.skip(i + 1), now),
        );
    }
}

/// One sync pass for a course's sections: upsert every section, module and
/// content item under the single timestamp `now`, parents before children.
/// A content item missing its filename or URL aborts the pass with the
/// offending module named and the store untouched.
pub fn insert_sections(store: &mut Store, sections: &Vec<Section>, courseid: i64, now: i64) -> (r:
    Result<(), CustomError>)
    requires
        old(store).wf(),
    ensures
        final(store).wf(),
        r is Ok <==> sections_ok(sections@),
        r is Ok ==> final(store).sections@ == upsert_fold(
            old(store).sections@,
            sec_key(),
            sec_merge(),
            section_rows(sections@, courseid, now),
        ),
        r is Ok ==> final(store).modules@ == upsert_fold(
            old(store).modules@,
            mod_key(),
            mod_merge(),
            module_rows(sections@, now),
        ),
        r is Ok ==> final(store).contents@ == upsert_fold(
            old(store).contents@,
            content_key(),
            content_merge(),
            content_rows(sections@, now),
        ),
        final(store).pages@ == old(store).pages@,
        final(store).files@ == old(store).files@,
        final(store).history@ == old(store).history@,
        r is Err ==> *final(store) == *old(store) && crate::response::is_missing_field(r),
{
    match check_sections(sections) {
        Some(_moduleid) => {
            return Err(
                CustomError::MissingField(
                    "a content item is missing its filename or fileurl".to_owned(),
                ),
            );
        },
        None => {},
    }
    apply_sections(store, sections, 0, courseid, now);
    proof {
        assert(sections@.skip(0) =~= sections@);
    }
    Ok(())
}

} // verus!
