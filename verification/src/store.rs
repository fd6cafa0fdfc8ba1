//! The normalized relational store and its upsert layer.
//!
//! Six tables hold the mirrored course data: sections, modules, content
//! items, pages, page attachments (files) and the append-only page history.
//! Every entity is keyed by the identifier the remote source assigned to it;
//! an upsert inserts a row for an unseen key and refreshes the mutable
//! fields of the existing row otherwise. Rows are never deleted, so the
//! position of a row in its table is its local, insertion-ordered identity.
use vstd::prelude::*;

verus! {

/// A row of the sections table.
pub struct SectionRow {
    pub sectionid: i64,
    pub courseid: i64,
    pub name: String,
    pub summary: String,
    pub timemodified: Option<i64>,
    pub lastfetched: i64,
}

/// A row of the modules table; `section_id` names the owning section's
/// remote identifier.
pub struct ModuleRow {
    pub moduleid: i64,
    pub section_id: i64,
    pub name: String,
    pub instance: Option<i64>,
    pub contextid: Option<i64>,
    pub description: Option<String>,
    pub timemodified: Option<i64>,
    pub lastfetched: i64,
}

/// A row of the content table; keyed by (filename, fileurl, module_id),
/// since a module may own files that share a name as long as the URLs
/// differ.
pub struct ContentRow {
    pub module_id: i64,
    pub filename: String,
    pub fileurl: String,
    pub localpath: Option<String>,
    pub timemodified: Option<i64>,
    pub lastfetched: i64,
}

/// A row of the pages table.
pub struct PageRow {
    pub pageid: i64,
    pub coursemodule: i64,
    pub courseid: i64,
    pub name: Option<String>,
    pub intro: Option<String>,
    pub content: Option<String>,
    pub revision: i64,
    pub timemodified: Option<i64>,
    pub lastfetched: i64,
}

/// A row of the files table (page attachments); keyed by
/// (filename, page_id).
pub struct FileRow {
    pub page_id: i64,
    pub filename: String,
    pub fileurl: String,
    pub localpath: Option<String>,
    pub timemodified: Option<i64>,
    pub lastfetched: i64,
}

/// One immutable audit entry: the content a page changed to, and when.
pub struct HistoryRow {
    pub cmid: i64,
    pub content: Option<String>,
    pub timestamp: i64,
}

/// First index of `tbl` whose key under `key` equals `k`, or -1.
pub open spec fn first_with_key<T, K>(tbl: Seq<T>, key: spec_fn(T) -> K, k: K) -> int
    decreases tbl.len(),
{
    if tbl.len() == 0 {
        -1
    } else if key(tbl[0]) == k {
        0
    } else {
        let r = first_with_key(tbl.drop_first(), key, k);
        if r == -1 {
            -1
        } else {
            r + 1
        }
    }
}

/// Whether some row of `tbl` has key `k`.
pub open spec fn has_key<T, K>(tbl: Seq<T>, key: spec_fn(T) -> K, k: K) -> bool {
    exists|i: int| 0 <= i < tbl.len() && #[trigger] key(tbl[i]) == k
}

/// No two rows of `tbl` share a key.
pub open spec fn distinct_keys<T, K>(tbl: Seq<T>, key: spec_fn(T) -> K) -> bool {
    forall|i: int, j: int|
        0 <= i < j < tbl.len() ==> #[trigger] key(tbl[i]) != #[trigger] key(tbl[j])
}

/// Every child row's foreign key resolves to some parent row.
pub open spec fn all_resolve<C, P>(
    children: Seq<C>,
    parents: Seq<P>,
    fk: spec_fn(C) -> i64,
    pk: spec_fn(P) -> i64,
) -> bool {
    forall|i: int| 0 <= i < children.len() ==> has_key(parents, pk, #[trigger] fk(children[i]))
}

/// The single insert-or-update engine every table shares: if a row with
/// `row`'s key exists, it is replaced by `merge(existing, row)`; otherwise
/// `row` is appended.
pub open spec fn upsert_by<T, K>(
    tbl: Seq<T>,
    key: spec_fn(T) -> K,
    merge: spec_fn(T, T) -> T,
    row: T,
) -> Seq<T> {
    let i = first_with_key(tbl, key, key(row));
    if i == -1 {
        tbl.push(row)
    } else {
        tbl.update(i, merge(tbl[i], row))
    }
}

pub proof fn lemma_first_with_key_bounds<T, K>(tbl: Seq<T>, key: spec_fn(T) -> K, k: K)
    ensures
        first_with_key(tbl, key, k) == -1 <==> !has_key(tbl, key, k),
        has_key(tbl, key, k) ==> {
            let i = first_with_key(tbl, key, k);
            &&& 0 <= i < tbl.len()
            &&& key(tbl[i]) == k
            &&& forall|j: int| 0 <= j < i ==> #[trigger] key(tbl[j]) != k
        },
    decreases tbl.len(),
{
    if tbl.len() == 0 {
    } else if key(tbl[0]) == k {
    } else {
        lemma_first_with_key_bounds(tbl.drop_first(), key, k);
        assert forall|i: int| 0 <= i < tbl.len() && #[trigger] key(tbl[i]) == k implies i >= 1 by {
        }
        if has_key(tbl, key, k) {
            let w = choose|i: int| 0 <= i < tbl.len() && #[trigger] key(tbl[i]) == k;
            assert(key(tbl.drop_first()[w - 1]) == k);
            assert(has_key(tbl.drop_first(), key, k));
        }
        if has_key(tbl.drop_first(), key, k) {
            let r = first_with_key(tbl.drop_first(), key, k);
            assert(tbl.drop_first()[r] == tbl[r + 1]);
            assert(key(tbl[r + 1]) == k);
            assert forall|j: int| 0 <= j < r + 1 implies #[trigger] key(tbl[j]) != k by {
                if j >= 1 {
                    assert(tbl.drop_first()[j - 1] == tbl[j]);
                }
            }
        }
    }
}

/// A scan that saw no match up to `i`, then a match at `i`, found the first
/// match.
pub proof fn lemma_first_match_at<T, K>(tbl: Seq<T>, key: spec_fn(T) -> K, k: K, i: int)
    requires
        0 <= i < tbl.len(),
        key(tbl[i]) == k,
        forall|j: int| 0 <= j < i ==> #[trigger] key(tbl[j]) != k,
    ensures
        first_with_key(tbl, key, k) == i,
    decreases tbl.len(),
{
    if i == 0 {
    } else {
        assert forall|j: int| 0 <= j < i - 1 implies #[trigger] key(tbl.drop_first()[j]) != k by {
            assert(tbl.drop_first()[j] == tbl[j + 1]);
        }
        assert(tbl.drop_first()[i - 1] == tbl[i]);
        lemma_first_match_at(tbl.drop_first(), key, k, i - 1);
    }
}

/// What an upsert does to the table's key population: the keys afterwards
/// are the keys before plus the new row's key, and the row count grows
/// exactly when the key was unseen.
pub proof fn lemma_upsert_keys<T, K>(
    tbl: Seq<T>,
    key: spec_fn(T) -> K,
    merge: spec_fn(T, T) -> T,
    row: T,
)
    requires
        forall|o: T| key(o) == key(row) ==> #[trigger] key(merge(o, row)) == key(o),
    ensures
        forall|k: K|
            #[trigger] has_key(upsert_by(tbl, key, merge, row), key, k) <==> (has_key(tbl, key, k)
                || k == key(row)),
        has_key(tbl, key, key(row)) ==> upsert_by(tbl, key, merge, row).len() == tbl.len(),
        !has_key(tbl, key, key(row)) ==> upsert_by(tbl, key, merge, row).len() == tbl.len() + 1,
{
    lemma_first_with_key_bounds(tbl, key, key(row));
    let tbl2 = upsert_by(tbl, key, merge, row);
    let i = first_with_key(tbl, key, key(row));
    assert forall|k: K| #[trigger] has_key(tbl2, key, k) implies (has_key(tbl, key, k) || k == key(
        row,
    )) by {
        let w = choose|j: int| 0 <= j < tbl2.len() && #[trigger] key(tbl2[j]) == k;
        if i == -1 {
            if w < tbl.len() {
                assert(key(tbl[w]) == k);
            }
        } else {
            if w == i {
                assert(key(tbl[i]) == key(row));
            } else {
                assert(key(tbl[w]) == k);
            }
        }
    }
    assert forall|k: K| (has_key(tbl, key, k) || k == key(row)) implies #[trigger] has_key(
        tbl2,
        key,
        k,
    ) by {
        if k == key(row) {
            if i == -1 {
                assert(key(tbl2[tbl.len() as int]) == k);
            } else {
                assert(key(tbl2[i]) == key(merge(tbl[i], row)));
                assert(key(tbl2[i]) == k);
            }
        } else {
            let w = choose|j: int| 0 <= j < tbl.len() && #[trigger] key(tbl[j]) == k;
            if i == -1 || w != i {
                assert(key(tbl2[w]) == k);
            } else {
                assert(key(tbl2[i]) == key(tbl[i]));
            }
        }
    }
}

/// An upsert keeps keys distinct.
pub proof fn lemma_upsert_distinct<T, K>(
    tbl: Seq<T>,
    key: spec_fn(T) -> K,
    merge: spec_fn(T, T) -> T,
    row: T,
)
    requires
        distinct_keys(tbl, key),
        forall|o: T| key(o) == key(row) ==> #[trigger] key(merge(o, row)) == key(o),
    ensures
        distinct_keys(upsert_by(tbl, key, merge, row), key),
{
    lemma_first_with_key_bounds(tbl, key, key(row));
    let tbl2 = upsert_by(tbl, key, merge, row);
    let i = first_with_key(tbl, key, key(row));
    assert forall|a: int, b: int| 0 <= a < b < tbl2.len() implies #[trigger] key(tbl2[a])
        != #[trigger] key(tbl2[b]) by {
        if i == -1 {
            if b == tbl.len() {
                assert(key(tbl2[b]) == key(row));
                assert(!has_key(tbl, key, key(row)));
                assert(key(tbl[a]) != key(row));
            }
        }
    }
}

/// An upsert into a parent table never breaks a child table's resolution,
/// as long as the merge keeps the referenced key of the replaced row.
pub proof fn lemma_upsert_resolve<C, P, K>(
    children: Seq<C>,
    parents: Seq<P>,
    fk: spec_fn(C) -> i64,
    pk: spec_fn(P) -> i64,
    key: spec_fn(P) -> K,
    merge: spec_fn(P, P) -> P,
    row: P,
)
    requires
        all_resolve(children, parents, fk, pk),
        forall|o: P| key(o) == key(row) ==> #[trigger] pk(merge(o, row)) == pk(o),
    ensures
        all_resolve(children, upsert_by(parents, key, merge, row), fk, pk),
{
    lemma_first_with_key_bounds(parents, key, key(row));
    let parents2 = upsert_by(parents, key, merge, row);
    let i = first_with_key(parents, key, key(row));
    assert forall|c: int| 0 <= c < children.len() implies has_key(
        parents2,
        pk,
        #[trigger] fk(children[c]),
    ) by {
        let w = choose|j: int| 0 <= j < parents.len() && #[trigger] pk(parents[j]) == fk(
            children[c],
        );
        if i == w {
            assert(pk(parents2[w]) == pk(parents[w]));
        } else {
            assert(pk(parents2[w]) == fk(children[c]));
        }
    }
}

/// A whole sync pass over one table: the rows are upserted in order.
pub open spec fn upsert_fold<T, K>(
    tbl: Seq<T>,
    key: spec_fn(T) -> K,
    merge: spec_fn(T, T) -> T,
    rows: Seq<T>,
) -> Seq<T>
    decreases rows.len(),
{
    if rows.len() == 0 {
        tbl
    } else {
        upsert_fold(upsert_by(tbl, key, merge, rows[0]), key, merge, rows.drop_first())
    }
}

/// Upserting two batches in turn is upserting their concatenation.
pub proof fn lemma_fold_append<T, K>(
    tbl: Seq<T>,
    key: spec_fn(T) -> K,
    merge: spec_fn(T, T) -> T,
    a: Seq<T>,
    b: Seq<T>,
)
    ensures
        upsert_fold(tbl, key, merge, a + b) == upsert_fold(
            upsert_fold(tbl, key, merge, a),
            key,
            merge,
            b,
        ),
    decreases a.len(),
{
    if a.len() == 0 {
        assert(a + b =~= b);
    } else {
        assert((a + b)[0] == a[0]);
        assert((a + b).drop_first() =~= a.drop_first() + b);
        lemma_fold_append(upsert_by(tbl, key, merge, a[0]), key, merge, a.drop_first(), b);
    }
}

/// The rows of a pass whose keys the table does not hold yet, in order:
/// what an upsert pass appends rather than updates.
pub open spec fn fresh_rows<T, K>(tbl: Seq<T>, key: spec_fn(T) -> K, rows: Seq<T>) -> Seq<T>
    decreases rows.len(),
{
    if rows.len() == 0 {
        Seq::empty()
    } else if has_key(tbl, key, key(rows[0])) {
        fresh_rows(tbl, key, rows.drop_first())
    } else {
        seq![rows[0]] + fresh_rows(tbl, key, rows.drop_first())
    }
}

proof fn lemma_has_key_unfold<T, K>(rows: Seq<T>, key: spec_fn(T) -> K, k: K)
    requires
        rows.len() > 0,
    ensures
        has_key(rows, key, k) <==> (key(rows[0]) == k || has_key(rows.drop_first(), key, k)),
{
    if has_key(rows, key, k) {
        let w = choose|i: int| 0 <= i < rows.len() && #[trigger] key(rows[i]) == k;
        if w > 0 {
            assert(key(rows.drop_first()[w - 1]) == k);
        }
    }
    if has_key(rows.drop_first(), key, k) {
        let w = choose|i: int|
            0 <= i < rows.drop_first().len() && #[trigger] key(rows.drop_first()[i]) == k;
        assert(key(rows[w + 1]) == k);
    }
}

pub proof fn lemma_distinct_drop_first<T, K>(rows: Seq<T>, key: spec_fn(T) -> K)
    requires
        rows.len() > 0,
        distinct_keys(rows, key),
    ensures
        distinct_keys(rows.drop_first(), key),
        !has_key(rows.drop_first(), key, key(rows[0])),
{
    assert forall|i: int, j: int| 0 <= i < j < rows.drop_first().len() implies #[trigger] key(
        rows.drop_first()[i],
    ) != #[trigger] key(rows.drop_first()[j]) by {
        assert(rows.drop_first()[i] == rows[i + 1]);
        assert(rows.drop_first()[j] == rows[j + 1]);
    }
    if has_key(rows.drop_first(), key, key(rows[0])) {
        let w = choose|i: int|
            0 <= i < rows.drop_first().len() && #[trigger] key(rows.drop_first()[i]) == key(
                rows[0],
            );
        assert(key(rows[w + 1]) == key(rows[0]));
    }
}

proof fn lemma_fresh_rows_congruence<T, K>(
    t1: Seq<T>,
    t2: Seq<T>,
    key: spec_fn(T) -> K,
    rows: Seq<T>,
)
    requires
        forall|j: int|
            0 <= j < rows.len() ==> (has_key(t1, key, #[trigger] key(rows[j])) <==> has_key(
                t2,
                key,
                key(rows[j]),
            )),
    ensures
        fresh_rows(t1, key, rows) == fresh_rows(t2, key, rows),
    decreases rows.len(),
{
    if rows.len() > 0 {
        assert forall|j: int|
            0 <= j < rows.drop_first().len() implies (has_key(
            t1,
            key,
            #[trigger] key(rows.drop_first()[j]),
        ) <==> has_key(t2, key, key(rows.drop_first()[j]))) by {
            assert(rows.drop_first()[j] == rows[j + 1]);
        }
        lemma_fresh_rows_congruence(t1, t2, key, rows.drop_first());
        assert(key(rows[0]) == key(rows[0]));
    }
}

proof fn lemma_fresh_rows_all_present<T, K>(tbl: Seq<T>, key: spec_fn(T) -> K, rows: Seq<T>)
    requires
        forall|j: int| 0 <= j < rows.len() ==> has_key(tbl, key, #[trigger] key(rows[j])),
    ensures
        fresh_rows(tbl, key, rows).len() == 0,
    decreases rows.len(),
{
    if rows.len() > 0 {
        assert forall|j: int|
            0 <= j < rows.drop_first().len() implies has_key(
            tbl,
            key,
            #[trigger] key(rows.drop_first()[j]),
        ) by {
            assert(rows.drop_first()[j] == rows[j + 1]);
        }
        lemma_fresh_rows_all_present(tbl, key, rows.drop_first());
    }
}

/// Every appended row is one of the pass's rows.
pub proof fn lemma_fresh_rows_from_rows<T, K>(tbl: Seq<T>, key: spec_fn(T) -> K, rows: Seq<T>)
    ensures
        forall|p: int|
            0 <= p < fresh_rows(tbl, key, rows).len() ==> exists|j: int|
                0 <= j < rows.len() && #[trigger] fresh_rows(tbl, key, rows)[p] == rows[j]
                    && !has_key(tbl, key, key(rows[j])),
    decreases rows.len(),
{
    if rows.len() > 0 {
        lemma_fresh_rows_from_rows(tbl, key, rows.drop_first());
        let fr = fresh_rows(tbl, key, rows);
        let fr1 = fresh_rows(tbl, key, rows.drop_first());
        assert forall|p: int| 0 <= p < fr.len() implies exists|j: int|
            0 <= j < rows.len() && #[trigger] fr[p] == rows[j] && !has_key(
                tbl,
                key,
                key(rows[j]),
            ) by {
            if has_key(tbl, key, key(rows[0])) {
                let j = choose|j: int|
                    0 <= j < rows.drop_first().len() && #[trigger] fr1[p] == rows.drop_first()[j]
                        && !has_key(tbl, key, key(rows.drop_first()[j]));
                assert(rows.drop_first()[j] == rows[j + 1]);
                assert(fr[p] == rows[j + 1] && !has_key(tbl, key, key(rows[j + 1])));
            } else {
                if p == 0 {
                    assert(fr[0] == rows[0] && !has_key(tbl, key, key(rows[0])));
                } else {
                    let j = choose|j: int|
                        0 <= j < rows.drop_first().len() && #[trigger] fr1[p - 1]
                            == rows.drop_first()[j] && !has_key(
                            tbl,
                            key,
                            key(rows.drop_first()[j]),
                        );
                    assert(rows.drop_first()[j] == rows[j + 1]);
                    assert(fr[p] == fr1[p - 1]);
                    assert(fr[p] == rows[j + 1] && !has_key(tbl, key, key(rows[j + 1])));
                }
            }
        }
    }
}

/// A whole pass keeps keys distinct.
pub proof fn lemma_fold_distinct<T, K>(
    tbl: Seq<T>,
    key: spec_fn(T) -> K,
    merge: spec_fn(T, T) -> T,
    rows: Seq<T>,
)
    requires
        distinct_keys(tbl, key),
        forall|o: T, r: T| key(o) == key(r) ==> #[trigger] key(merge(o, r)) == key(o),
    ensures
        distinct_keys(upsert_fold(tbl, key, merge, rows), key),
    decreases rows.len(),
{
    if rows.len() > 0 {
        lemma_upsert_distinct(tbl, key, merge, rows[0]);
        lemma_fold_distinct(upsert_by(tbl, key, merge, rows[0]), key, merge, rows.drop_first());
    }
}

/// The exact shape of a table after a whole pass whose rows carry distinct
/// keys: a stored row is untouched or merged with the one pass row sharing
/// its key, and the rows with unseen keys are appended behind, in order.
pub proof fn lemma_fold_shape<T, K>(
    tbl: Seq<T>,
    key: spec_fn(T) -> K,
    merge: spec_fn(T, T) -> T,
    rows: Seq<T>,
)
    requires
        distinct_keys(tbl, key),
        distinct_keys(rows, key),
        forall|o: T, r: T| key(o) == key(r) ==> #[trigger] key(merge(o, r)) == key(o),
    ensures
        upsert_fold(tbl, key, merge, rows).len() == tbl.len() + fresh_rows(tbl, key, rows).len(),
        forall|p: int|
            0 <= p < tbl.len() ==> #[trigger] upsert_fold(tbl, key, merge, rows)[p] == ({
                let q = first_with_key(rows, key, key(tbl[p]));
                if q == -1 {
                    tbl[p]
                } else {
                    merge(tbl[p], rows[q])
                }
            }),
        forall|p: int|
            tbl.len() <= p < upsert_fold(tbl, key, merge, rows).len() ==> #[trigger] upsert_fold(
                tbl,
                key,
                merge,
                rows,
            )[p] == fresh_rows(tbl, key, rows)[p - tbl.len()],
        forall|k: K|
            #[trigger] has_key(upsert_fold(tbl, key, merge, rows), key, k) <==> (has_key(
                tbl,
                key,
                k,
            ) || has_key(rows, key, k)),
    decreases rows.len(),
{
    let f = upsert_fold(tbl, key, merge, rows);
    if rows.len() == 0 {
        assert forall|k: K| #[trigger] has_key(rows, key, k) implies false by {
        }
    } else {
        let r0 = rows[0];
        let k0 = key(r0);
        let rest = rows.drop_first();
        let tbl1 = upsert_by(tbl, key, merge, r0);
        lemma_first_with_key_bounds(tbl, key, k0);
        lemma_upsert_distinct(tbl, key, merge, r0);
        lemma_upsert_keys(tbl, key, merge, r0);
        lemma_distinct_drop_first(rows, key);
        lemma_fold_shape(tbl1, key, merge, rest);
        let i0 = first_with_key(tbl, key, k0);
        // the evolved table holds a key of a later row exactly when the
        // original did: later rows never share the first row's key
        assert forall|j: int|
            0 <= j < rest.len() implies (has_key(tbl1, key, #[trigger] key(rest[j])) <==> has_key(
            tbl,
            key,
            key(rest[j]),
        )) by {
            assert(rest[j] == rows[j + 1]);
            assert(key(rest[j]) != k0);
        }
        lemma_fresh_rows_congruence(tbl1, tbl, key, rest);
        assert(fresh_rows(tbl1, key, rest) == fresh_rows(tbl, key, rest));
        if i0 >= 0 {
            assert(has_key(tbl, key, k0));
            assert(fresh_rows(tbl, key, rows) == fresh_rows(tbl, key, rest));
            assert(tbl1.len() == tbl.len());
            assert(f.len() == tbl.len() + fresh_rows(tbl, key, rows).len());
            assert forall|p: int| 0 <= p < tbl.len() implies #[trigger] f[p] == ({
                let q = first_with_key(rows, key, key(tbl[p]));
                if q == -1 {
                    tbl[p]
                } else {
                    merge(tbl[p], rows[q])
                }
            }) by {
                if p == i0 {
                    assert(key(tbl1[p]) == key(tbl[p]) && key(tbl[p]) == k0);
                    assert(first_with_key(rows, key, k0) == 0);
                    lemma_first_with_key_bounds(rest, key, k0);
                    assert(first_with_key(rest, key, k0) == -1);
                    assert(f[p] == tbl1[p]);
                    assert(f[p] == merge(tbl[i0], rows[0]));
                } else {
                    assert(tbl1[p] == tbl[p]);
                    assert(key(tbl[p]) != k0);
                    let q1 = first_with_key(rest, key, key(tbl[p]));
                    lemma_first_with_key_bounds(rest, key, key(tbl[p]));
                    assert(first_with_key(rows, key, key(tbl[p])) == if q1 == -1 {
                        -1int
                    } else {
                        q1 + 1
                    });
                    if q1 != -1 {
                        assert(rest[q1] == rows[q1 + 1]);
                    }
                }
            }
            assert forall|p: int| tbl.len() <= p < f.len() implies #[trigger] f[p] == fresh_rows(
                tbl,
                key,
                rows,
            )[p - tbl.len()] by {
            }
            assert forall|k: K| #[trigger] has_key(f, key, k) <==> (has_key(tbl, key, k)
                || has_key(rows, key, k)) by {
                lemma_has_key_unfold(rows, key, k);
            }
        } else {
            assert(!has_key(tbl, key, k0));
            assert(fresh_rows(tbl, key, rows) == seq![r0] + fresh_rows(tbl, key, rest));
            assert(tbl1 == tbl.push(r0));
            assert(f.len() == tbl.len() + fresh_rows(tbl, key, rows).len());
            assert forall|p: int| 0 <= p < tbl.len() implies #[trigger] f[p] == ({
                let q = first_with_key(rows, key, key(tbl[p]));
                if q == -1 {
                    tbl[p]
                } else {
                    merge(tbl[p], rows[q])
                }
            }) by {
                assert(tbl1[p] == tbl[p]);
                assert(key(tbl[p]) != k0);
                let q1 = first_with_key(rest, key, key(tbl[p]));
                lemma_first_with_key_bounds(rest, key, key(tbl[p]));
                assert(first_with_key(rows, key, key(tbl[p])) == if q1 == -1 {
                    -1int
                } else {
                    q1 + 1
                });
                if q1 != -1 {
                    assert(rest[q1] == rows[q1 + 1]);
                }
            }
            assert forall|p: int| tbl.len() <= p < f.len() implies #[trigger] f[p] == fresh_rows(
                tbl,
                key,
                rows,
            )[p - tbl.len()] by {
                if p == tbl.len() {
                    assert(key(tbl1[p]) == k0);
                    lemma_first_with_key_bounds(rest, key, k0);
                    assert(first_with_key(rest, key, k0) == -1);
                    assert(f[p] == tbl1[p]);
                    assert(fresh_rows(tbl, key, rows)[0] == r0);
                } else {
                    assert(f[p] == fresh_rows(tbl, key, rest)[p - tbl1.len()]);
                    assert(fresh_rows(tbl, key, rows)[p - tbl.len()] == fresh_rows(
                        tbl,
                        key,
                        rest,
                    )[p - tbl.len() - 1]);
                }
            }
            assert forall|k: K| #[trigger] has_key(f, key, k) <==> (has_key(tbl, key, k)
                || has_key(rows, key, k)) by {
                lemma_has_key_unfold(rows, key, k);
            }
        }
    }
}

/// Repeating a pass with the same keys and refreshed rows: no table grows,
/// and every row is untouched or refreshed in the sense of `rel`.
pub proof fn lemma_fold_refresh<T, K>(
    tbl: Seq<T>,
    key: spec_fn(T) -> K,
    merge: spec_fn(T, T) -> T,
    rows1: Seq<T>,
    rows2: Seq<T>,
    rel: spec_fn(T, T) -> bool,
)
    requires
        distinct_keys(tbl, key),
        distinct_keys(rows1, key),
        rows2.len() == rows1.len(),
        forall|j: int|
            0 <= j < rows1.len() ==> #[trigger] key(rows2[j]) == key(rows1[j]) && rel(
                rows1[j],
                rows2[j],
            ),
        forall|o: T, r: T| key(o) == key(r) ==> #[trigger] key(merge(o, r)) == key(o),
        // merging a refreshed row into what its first merge produced is a refresh
        forall|t: T, a: T, b: T|
            key(t) == key(a) && key(a) == key(b) && rel(a, b) ==> #[trigger] rel(
                merge(t, a),
                merge(merge(t, a), b),
            ),
        // merging a refreshed row into the row it refreshes is a refresh
        forall|a: T, b: T| key(a) == key(b) && rel(a, b) ==> #[trigger] rel(a, merge(a, b)),
    ensures
        ({
            let f1 = upsert_fold(tbl, key, merge, rows1);
            let f2 = upsert_fold(f1, key, merge, rows2);
            &&& f2.len() == f1.len()
            &&& forall|p: int| 0 <= p < f1.len() ==> f1[p] == f2[p] || rel(f1[p], #[trigger] f2[p])
        }),
{
    let f1 = upsert_fold(tbl, key, merge, rows1);
    let f2 = upsert_fold(f1, key, merge, rows2);
    lemma_fold_distinct(tbl, key, merge, rows1);
    assert forall|i: int, j: int| 0 <= i < j < rows2.len() implies #[trigger] key(rows2[i])
        != #[trigger] key(rows2[j]) by {
        assert(key(rows2[i]) == key(rows1[i]));
        assert(key(rows2[j]) == key(rows1[j]));
    }
    lemma_fold_shape(tbl, key, merge, rows1);
    lemma_fold_shape(f1, key, merge, rows2);
    // every key of the second pass is already stored after the first
    assert forall|j: int| 0 <= j < rows2.len() implies has_key(
        f1,
        key,
        #[trigger] key(rows2[j]),
    ) by {
        assert(key(rows2[j]) == key(rows1[j]));
        assert(has_key(rows1, key, key(rows1[j])));
    }
    lemma_fresh_rows_all_present(f1, key, rows2);
    assert(f2.len() == f1.len());
    lemma_fresh_rows_from_rows(tbl, key, rows1);
    assert forall|p: int| 0 <= p < f1.len() implies f1[p] == f2[p] || rel(
        f1[p],
        #[trigger] f2[p],
    ) by {
        let q2 = first_with_key(rows2, key, key(f1[p]));
        lemma_first_with_key_bounds(rows2, key, key(f1[p]));
        if p < tbl.len() {
            let q1 = first_with_key(rows1, key, key(tbl[p]));
            lemma_first_with_key_bounds(rows1, key, key(tbl[p]));
            if q1 == -1 {
                // untouched by the first pass, so untouched by the second
                assert(f1[p] == tbl[p]);
                if has_key(rows2, key, key(f1[p])) {
                    let w = choose|j: int|
                        0 <= j < rows2.len() && #[trigger] key(rows2[j]) == key(f1[p]);
                    assert(key(rows1[w]) == key(tbl[p]));
                    assert(has_key(rows1, key, key(tbl[p])));
                    assert(false);
                }
                assert(q2 == -1);
                assert(f2[p] == f1[p]);
            } else {
                assert(f1[p] == merge(tbl[p], rows1[q1]));
                assert(key(f1[p]) == key(tbl[p]));
                assert(key(rows2[q1]) == key(rows1[q1]));
                assert(key(rows2[q1]) == key(f1[p]));
                assert forall|j: int| 0 <= j < q1 implies #[trigger] key(rows2[j]) != key(
                    f1[p],
                ) by {
                    assert(key(rows2[j]) == key(rows1[j]));
                }
                lemma_first_match_at(rows2, key, key(f1[p]), q1);
                assert(f2[p] == merge(f1[p], rows2[q1]));
                assert(rel(merge(tbl[p], rows1[q1]), merge(merge(tbl[p], rows1[q1]), rows2[q1])));
            }
        } else {
            // appended by the first pass: the row is a pass row itself
            let fr = fresh_rows(tbl, key, rows1);
            assert(f1[p] == fr[p - tbl.len()]);
            let j = choose|j: int|
                0 <= j < rows1.len() && #[trigger] fr[p - tbl.len()] == rows1[j] && !has_key(
                    tbl,
                    key,
                    key(rows1[j]),
                );
            assert(f1[p] == rows1[j]);
            assert(key(rows2[j]) == key(f1[p]));
            assert forall|q: int| 0 <= q < j implies #[trigger] key(rows2[q]) != key(f1[p]) by {
                assert(key(rows2[q]) == key(rows1[q]));
            }
            lemma_first_match_at(rows2, key, key(f1[p]), j);
            assert(f2[p] == merge(f1[p], rows2[j]));
            assert(rel(rows1[j], merge(rows1[j], rows2[j])));
        }
    }
}

/// An upsert into a child table keeps every child resolving, provided the
/// incoming row's own foreign key resolves.
pub proof fn lemma_upsert_child_resolve<C, P, K>(
    children: Seq<C>,
    parents: Seq<P>,
    key: spec_fn(C) -> K,
    merge: spec_fn(C, C) -> C,
    row: C,
    fk: spec_fn(C) -> i64,
    pk: spec_fn(P) -> i64,
)
    requires
        all_resolve(children, parents, fk, pk),
        has_key(parents, pk, fk(row)),
        forall|o: C| key(o) == key(row) ==> #[trigger] fk(merge(o, row)) == fk(row),
    ensures
        all_resolve(upsert_by(children, key, merge, row), parents, fk, pk),
{
    lemma_first_with_key_bounds(children, key, key(row));
    let children2 = upsert_by(children, key, merge, row);
    let i = first_with_key(children, key, key(row));
    assert forall|c: int| 0 <= c < children2.len() implies has_key(
        parents,
        pk,
        #[trigger] fk(children2[c]),
    ) by {
        if i == -1 && c == children.len() {
            assert(fk(children2[c]) == fk(row));
        } else if c == i {
            assert(fk(children2[c]) == fk(row));
        } else {
            assert(children2[c] == children[c]);
        }
    }
}

/// Equality of two text columns, by content.
pub fn str_eq(a: &String, b: &String) -> (r: bool)
    ensures
        r == (a@ == b@),
{
    a.eq(b)
}

/// The view of an optional text column.
pub open spec fn opt_view(o: Option<String>) -> Option<Seq<char>> {
    match o {
        Some(s) => Some(s@),
        None => None,
    }
}

/// Equality of two optional text columns, by content.
pub fn opt_str_eq(a: &Option<String>, b: &Option<String>) -> (r: bool)
    ensures
        r == (opt_view(*a) == opt_view(*b)),
{
    match (a, b) {
        (Some(x), Some(y)) => str_eq(x, y),
        (None, None) => true,
        _ => false,
    }
}

/// A copy of an optional text column.
pub fn clone_opt_string(o: &Option<String>) -> (r: Option<String>)
    ensures
        r == *o,
{
    match o {
        Some(s) => Some(s.clone()),
        None => None,
    }
}

/// The rows satisfying `p`, in stored (insertion) order.
pub open spec fn filter_rows<T>(rows: Seq<T>, p: spec_fn(T) -> bool) -> Seq<T>
    decreases rows.len(),
{
    if rows.len() == 0 {
        Seq::empty()
    } else {
        filter_rows(rows.drop_last(), p) + if p(rows.last()) {
            seq![rows.last()]
        } else {
            Seq::empty()
        }
    }
}

/// How one more scanned row extends a filtered prefix.
pub proof fn lemma_filter_take_step<T>(rows: Seq<T>, p: spec_fn(T) -> bool, i: int)
    requires
        0 <= i < rows.len(),
    ensures
        filter_rows(rows.take(i + 1), p) == filter_rows(rows.take(i), p) + if p(rows[i]) {
            seq![rows[i]]
        } else {
            Seq::<T>::empty()
        },
{
    assert(rows.take(i + 1).drop_last() =~= rows.take(i));
    assert(rows.take(i + 1).last() == rows[i]);
}

/// The whole table is its own full scan.
pub proof fn lemma_take_all<T>(rows: Seq<T>)
    ensures
        rows.take(rows.len() as int) =~= rows,
{
}

/// The rows satisfying `p` with their positions in the table, in stored
/// order: a row's position is its local, auto-assigned identity.
pub open spec fn filter_rows_idx<T>(rows: Seq<T>, p: spec_fn(T) -> bool) -> Seq<(int, T)>
    decreases rows.len(),
{
    if rows.len() == 0 {
        Seq::empty()
    } else {
        filter_rows_idx(rows.drop_last(), p) + if p(rows.last()) {
            seq![(rows.len() - 1, rows.last())]
        } else {
            Seq::empty()
        }
    }
}

/// How one more scanned row extends an indexed filtered prefix.
pub proof fn lemma_filter_idx_take_step<T>(rows: Seq<T>, p: spec_fn(T) -> bool, i: int)
    requires
        0 <= i < rows.len(),
    ensures
        filter_rows_idx(rows.take(i + 1), p) == filter_rows_idx(rows.take(i), p) + if p(rows[i]) {
            seq![(i, rows[i])]
        } else {
            Seq::<(int, T)>::empty()
        },
{
    assert(rows.take(i + 1).drop_last() =~= rows.take(i));
    assert(rows.take(i + 1).last() == rows[i]);
    assert(rows.take(i + 1).len() - 1 == i);
}

/// Both filtered views of a table agree in length.
pub proof fn lemma_filter_idx_len<T>(rows: Seq<T>, p: spec_fn(T) -> bool)
    ensures
        filter_rows_idx(rows, p).len() == filter_rows(rows, p).len(),
        forall|k: int|
            0 <= k < filter_rows(rows, p).len() ==> (#[trigger] filter_rows_idx(rows, p)[k]).1
                == filter_rows(rows, p)[k],
    decreases rows.len(),
{
    if rows.len() > 0 {
        lemma_filter_idx_len(rows.drop_last(), p);
    }
}

/// Index of the last row satisfying `p`, or -1.
pub open spec fn last_match<T>(rows: Seq<T>, p: spec_fn(T) -> bool) -> int
    decreases rows.len(),
{
    if rows.len() == 0 {
        -1
    } else if p(rows.last()) {
        rows.len() - 1
    } else {
        last_match(rows.drop_last(), p)
    }
}

/// What the last-match index means.
pub proof fn lemma_last_match<T>(rows: Seq<T>, p: spec_fn(T) -> bool)
    ensures
        last_match(rows, p) == -1 <==> forall|i: int| 0 <= i < rows.len() ==> !p(#[trigger] rows[i]),
        last_match(rows, p) != -1 ==> {
            let q = last_match(rows, p);
            &&& 0 <= q < rows.len()
            &&& p(rows[q])
            &&& forall|i: int| q < i < rows.len() ==> !p(#[trigger] rows[i])
        },
    decreases rows.len(),
{
    if rows.len() == 0 {
    } else if p(rows.last()) {
    } else {
        lemma_last_match(rows.drop_last(), p);
        assert forall|i: int| 0 <= i < rows.len() - 1 implies rows.drop_last()[i] == rows[i] by {}
        let q = last_match(rows.drop_last(), p);
        if q != -1 {
            assert(rows[q] == rows.drop_last()[q]);
        }
    }
}

/// A scan that saw its last hit at `q` and nothing after found the last
/// match.
pub proof fn lemma_last_match_at<T>(rows: Seq<T>, p: spec_fn(T) -> bool, q: int)
    requires
        0 <= q < rows.len(),
        p(rows[q]),
        forall|i: int| q < i < rows.len() ==> !p(#[trigger] rows[i]),
    ensures
        last_match(rows, p) == q,
    decreases rows.len(),
{
    if q == rows.len() - 1 {
    } else {
        assert(!p(rows.last()));
        assert(rows.drop_last()[q] == rows[q]);
        assert forall|i: int| q < i < rows.drop_last().len() implies !p(
            #[trigger] rows.drop_last()[i],
        ) by {
            assert(rows.drop_last()[i] == rows[i]);
        }
        lemma_last_match_at(rows.drop_last(), p, q);
    }
}

/// The key of the sections table.
pub open spec fn sec_key() -> spec_fn(SectionRow) -> i64 {
    |r: SectionRow| r.sectionid
}

/// A section upsert refreshes every mutable field from the incoming row.
pub open spec fn sec_merge() -> spec_fn(SectionRow, SectionRow) -> SectionRow {
    |o: SectionRow, n: SectionRow| n
}

/// The key of the modules table.
pub open spec fn mod_key() -> spec_fn(ModuleRow) -> i64 {
    |r: ModuleRow| r.moduleid
}

/// A module upsert refreshes every mutable field from the incoming row.
pub open spec fn mod_merge() -> spec_fn(ModuleRow, ModuleRow) -> ModuleRow {
    |o: ModuleRow, n: ModuleRow| n
}

/// The foreign key of a module row.
pub open spec fn mod_fk() -> spec_fn(ModuleRow) -> i64 {
    |r: ModuleRow| r.section_id
}

/// The key of the content table: a module may own files sharing a name as
/// long as the URLs differ.
pub open spec fn content_key() -> spec_fn(ContentRow) -> (Seq<char>, Seq<char>, i64) {
    |r: ContentRow| (r.filename@, r.fileurl@, r.module_id)
}

/// A content upsert refreshes the timestamps but keeps the local download
/// path already recorded for the row.
pub open spec fn content_merge() -> spec_fn(ContentRow, ContentRow) -> ContentRow {
    |o: ContentRow, n: ContentRow| ContentRow { localpath: o.localpath, ..n }
}

/// The foreign key of a content row.
pub open spec fn content_fk() -> spec_fn(ContentRow) -> i64 {
    |r: ContentRow| r.module_id
}

/// The key of the files table.
pub open spec fn file_key() -> spec_fn(FileRow) -> (Seq<char>, i64) {
    |r: FileRow| (r.filename@, r.page_id)
}

/// A file upsert refreshes the URL and timestamps but keeps the local
/// download path already recorded for the row.
pub open spec fn file_merge() -> spec_fn(FileRow, FileRow) -> FileRow {
    |o: FileRow, n: FileRow| FileRow { localpath: o.localpath, ..n }
}

/// The foreign key of a file row.
pub open spec fn file_fk() -> spec_fn(FileRow) -> i64 {
    |r: FileRow| r.page_id
}

/// The key of the pages table.
pub open spec fn page_key() -> spec_fn(PageRow) -> i64 {
    |r: PageRow| r.pageid
}

/// The course-module id of a page row, which file rows and history entries
/// reference.
pub open spec fn page_cm() -> spec_fn(PageRow) -> i64 {
    |r: PageRow| r.coursemodule
}

/// The foreign key of a history entry.
pub open spec fn hist_fk() -> spec_fn(HistoryRow) -> i64 {
    |r: HistoryRow| r.cmid
}

/// The change-detection merge for pages: equal content refreshes only
/// `lastfetched`; changed content overwrites the content and both
/// timestamps, leaving the identifying fields as stored.
pub open spec fn page_merge() -> spec_fn(PageRow, PageRow) -> PageRow {
    |o: PageRow, n: PageRow|
        if opt_view(o.content) == opt_view(n.content) {
            PageRow { lastfetched: n.lastfetched, ..o }
        } else {
            PageRow { content: n.content, timemodified: n.timemodified, lastfetched: n.lastfetched, ..o }
        }
}

/// What a tracked page upsert appends to the history: one entry holding the
/// new content and the sync timestamp, exactly when a stored page's content
/// really changed.
pub open spec fn history_after(pages: Seq<PageRow>, hist: Seq<HistoryRow>, row: PageRow) -> Seq<
    HistoryRow,
> {
    let i = first_with_key(pages, page_key(), page_key()(row));
    if i == -1 {
        hist
    } else if opt_view(pages[i].content) == opt_view(row.content) {
        hist
    } else {
        hist.push(
            HistoryRow { cmid: pages[i].coursemodule, content: row.content, timestamp: row.lastfetched },
        )
    }
}

/// A whole sync pass over the pages table with its change tracker: each
/// page is upserted in order, and the history log grows by one entry for
/// each stored page whose content really changed.
pub open spec fn tracked_fold(
    ps: Seq<PageRow>,
    hs: Seq<HistoryRow>,
    rows: Seq<PageRow>,
) -> (Seq<PageRow>, Seq<HistoryRow>)
    decreases rows.len(),
{
    if rows.len() == 0 {
        (ps, hs)
    } else {
        tracked_fold(
            upsert_by(ps, page_key(), page_merge(), rows[0]),
            history_after(ps, hs, rows[0]),
            rows.drop_first(),
        )
    }
}

/// The normalized store: one growable table per entity, plus the
/// append-only history log.
pub struct Store {
    pub sections: Vec<SectionRow>,
    pub modules: Vec<ModuleRow>,
    pub contents: Vec<ContentRow>,
    pub pages: Vec<PageRow>,
    pub files: Vec<FileRow>,
    pub history: Vec<HistoryRow>,
}

impl Store {
    /// Well-formedness: remote keys are unique per table, and every child
    /// row's foreign key resolves to a parent row.
    pub open spec fn wf(self) -> bool {
        &&& distinct_keys(self.sections@, sec_key())
        &&& distinct_keys(self.modules@, mod_key())
        &&& distinct_keys(self.contents@, content_key())
        &&& distinct_keys(self.pages@, page_key())
        &&& distinct_keys(self.files@, file_key())
        &&& all_resolve(self.modules@, self.sections@, mod_fk(), sec_key())
        &&& all_resolve(self.contents@, self.modules@, content_fk(), mod_key())
        &&& all_resolve(self.files@, self.pages@, file_fk(), page_key())
        &&& all_resolve(self.history@, self.pages@, hist_fk(), page_cm())
    }

    /// An empty store.
    pub fn new() -> (s: Store)
        ensures
            s.wf(),
            s.sections@ =~= Seq::<SectionRow>::empty(),
            s.modules@ =~= Seq::<ModuleRow>::empty(),
            s.contents@ =~= Seq::<ContentRow>::empty(),
            s.pages@ =~= Seq::<PageRow>::empty(),
            s.files@ =~= Seq::<FileRow>::empty(),
            s.history@ =~= Seq::<HistoryRow>::empty(),
    {
        Store {
            sections: Vec::new(),
            modules: Vec::new(),
            contents: Vec::new(),
            pages: Vec::new(),
            files: Vec::new(),
            history: Vec::new(),
        }
    }

    /// Index of the section row with the given remote id, if any.
    fn find_section(&self, sectionid: i64) -> (r: Option<usize>)
        ensures
            match r {
                Some(i) => i < self.sections@.len() && first_with_key(
                    self.sections@,
                    sec_key(),
                    sectionid,
                ) == i,
                None => !has_key(self.sections@, sec_key(), sectionid),
            },
    {
        let n = self.sections.len();
        let mut i: usize = 0;
        while i < n
            invariant
                i <= n,
                n == self.sections@.len(),
                forall|j: int| 0 <= j < i ==> #[trigger] sec_key()(self.sections@[j]) != sectionid,
            decreases n - i,
        {
            if self.sections[i].sectionid == sectionid {
                proof {
                    lemma_first_match_at(self.sections@, sec_key(), sectionid, i as int);
                }
                return Some(i);
            }
            assert(sec_key()(self.sections@[i as int]) != sectionid);
            i = i + 1;
        }
        proof {
            lemma_first_with_key_bounds(self.sections@, sec_key(), sectionid);
        }
        None
    }

    /// Insert the section or refresh the existing row's mutable fields.
    pub fn upsert_section(&mut self, row: SectionRow)
        requires
            old(self).wf(),
        ensures
            final(self).wf(),
            final(self).sections@ == upsert_by(old(self).sections@, sec_key(), sec_merge(), row),
            final(self).modules@ == old(self).modules@,
            final(self).contents@ == old(self).contents@,
            final(self).pages@ == old(self).pages@,
            final(self).files@ == old(self).files@,
            final(self).history@ == old(self).history@,
    {
        proof {
            lemma_upsert_distinct(self.sections@, sec_key(), sec_merge(), row);
            lemma_upsert_resolve(
                self.modules@,
                self.sections@,
                mod_fk(),
                sec_key(),
                sec_key(),
                sec_merge(),
                row,
            );
        }
        match self.find_section(row.sectionid) {
            Some(i) => {
                proof {
                    assert(sec_merge()(self.sections@[i as int], row) == row);
                }
                self.sections.set(i, row);
            },
            None => {
                proof {
                    lemma_first_with_key_bounds(self.sections@, sec_key(), row.sectionid);
                }
                self.sections.push(row);
            },
        }
    }

    /// Index of the module row with the given remote id, if any.
    fn find_module(&self, moduleid: i64) -> (r: Option<usize>)
        ensures
            match r {
                Some(i) => i < self.modules@.len() && first_with_key(
                    self.modules@,
                    mod_key(),
                    moduleid,
                ) == i,
                None => !has_key(self.modules@, mod_key(), moduleid),
            },
    {
        let n = self.modules.len();
        let mut i: usize = 0;
        while i < n
            invariant
                i <= n,
                n == self.modules@.len(),
                forall|j: int| 0 <= j < i ==> #[trigger] mod_key()(self.modules@[j]) != moduleid,
            decreases n - i,
        {
            if self.modules[i].moduleid == moduleid {
                proof {
                    lemma_first_match_at(self.modules@, mod_key(), moduleid, i as int);
                }
                return Some(i);
            }
            assert(mod_key()(self.modules@[i as int]) != moduleid);
            i = i + 1;
        }
        proof {
            lemma_first_with_key_bounds(self.modules@, mod_key(), moduleid);
        }
        None
    }

    /// Insert the module or refresh the existing row's mutable fields.
    /// The owning section must already be stored: parents are written
    /// before their children.
    pub fn upsert_module(&mut self, row: ModuleRow)
        requires
            old(self).wf(),
            has_key(old(self).sections@, sec_key(), row.section_id),
        ensures
            final(self).wf(),
            final(self).modules@ == upsert_by(old(self).modules@, mod_key(), mod_merge(), row),
            final(self).sections@ == old(self).sections@,
            final(self).contents@ == old(self).contents@,
            final(self).pages@ == old(self).pages@,
            final(self).files@ == old(self).files@,
            final(self).history@ == old(self).history@,
    {
        proof {
            lemma_upsert_distinct(self.modules@, mod_key(), mod_merge(), row);
            lemma_upsert_resolve(
                self.contents@,
                self.modules@,
                content_fk(),
                mod_key(),
                mod_key(),
                mod_merge(),
                row,
            );
            lemma_upsert_child_resolve(
                self.modules@,
                self.sections@,
                mod_key(),
                mod_merge(),
                row,
                mod_fk(),
                sec_key(),
            );
        }
        match self.find_module(row.moduleid) {
            Some(i) => {
                self.modules.set(i, row);
            },
            None => {
                proof {
                    lemma_first_with_key_bounds(self.modules@, mod_key(), row.moduleid);
                }
                self.modules.push(row);
            },
        }
    }

    /// Index of the content row with the given (filename, fileurl,
    /// module_id) key, if any.
    fn find_content(&self, filename: &String, fileurl: &String, module_id: i64) -> (r: Option<
        usize,
    >)
        ensures
            match r {
                Some(i) => i < self.contents@.len() && first_with_key(
                    self.contents@,
                    content_key(),
                    (filename@, fileurl@, module_id),
                ) == i,
                None => !has_key(self.contents@, content_key(), (filename@, fileurl@, module_id)),
            },
    {
        let n = self.contents.len();
        let mut i: usize = 0;
        while i < n
            invariant
                i <= n,
                n == self.contents@.len(),
                forall|j: int|
                    0 <= j < i ==> #[trigger] content_key()(self.contents@[j]) != (
                        filename@,
                        fileurl@,
                        module_id,
                    ),
            decreases n - i,
        {
            let c = &self.contents[i];
            if c.module_id == module_id && str_eq(&c.filename, filename) && str_eq(
                &c.fileurl,
                fileurl,
            ) {
                proof {
                    lemma_first_match_at(
                        self.contents@,
                        content_key(),
                        (filename@, fileurl@, module_id),
                        i as int,
                    );
                }
                return Some(i);
            }
            assert(content_key()(self.contents@[i as int]) != (filename@, fileurl@, module_id));
            i = i + 1;
        }
        proof {
            lemma_first_with_key_bounds(self.contents@, content_key(), (filename@, fileurl@, module_id));
        }
        None
    }

    /// Insert the content item or refresh the existing row's timestamps,
    /// keeping any local download path already recorded. The owning module
    /// must already be stored.
    pub fn upsert_content(&mut self, row: ContentRow)
        requires
            old(self).wf(),
            has_key(old(self).modules@, mod_key(), row.module_id),
        ensures
            final(self).wf(),
            final(self).contents@ == upsert_by(
                old(self).contents@,
                content_key(),
                content_merge(),
                row,
            ),
            final(self).sections@ == old(self).sections@,
            final(self).modules@ == old(self).modules@,
            final(self).pages@ == old(self).pages@,
            final(self).files@ == old(self).files@,
            final(self).history@ == old(self).history@,
    {
        proof {
            lemma_upsert_distinct(self.contents@, content_key(), content_merge(), row);
            lemma_upsert_child_resolve(
                self.contents@,
                self.modules@,
                content_key(),
                content_merge(),
                row,
                content_fk(),
                mod_key(),
            );
        }
        match self.find_content(&row.filename, &row.fileurl, row.module_id) {
            Some(i) => {
                let merged = ContentRow {
                    module_id: row.module_id,
                    filename: row.filename,
                    fileurl: row.fileurl,
                    localpath: clone_opt_string(&self.contents[i].localpath),
                    timemodified: row.timemodified,
                    lastfetched: row.lastfetched,
                };
                self.contents.set(i, merged);
            },
            None => {
                proof {
                    lemma_first_with_key_bounds(
                        self.contents@,
                        content_key(),
                        content_key()(row),
                    );
                }
                self.contents.push(row);
            },
        }
    }

    /// Index of the page row with the given remote page id, if any.
    fn find_page(&self, pageid: i64) -> (r: Option<usize>)
        ensures
            match r {
                Some(i) => i < self.pages@.len() && first_with_key(
                    self.pages@,
                    page_key(),
                    pageid,
                ) == i,
                None => !has_key(self.pages@, page_key(), pageid),
            },
    {
        let n = self.pages.len();
        let mut i: usize = 0;
        while i < n
            invariant
                i <= n,
                n == self.pages@.len(),
                forall|j: int| 0 <= j < i ==> #[trigger] page_key()(self.pages@[j]) != pageid,
            decreases n - i,
        {
            if self.pages[i].pageid == pageid {
                proof {
                    lemma_first_match_at(self.pages@, page_key(), pageid, i as int);
                }
                return Some(i);
            }
            assert(page_key()(self.pages@[i as int]) != pageid);
            i = i + 1;
        }
        proof {
            lemma_first_with_key_bounds(self.pages@, page_key(), pageid);
        }
        None
    }

    /// The tracked page upsert. An unseen page is inserted and leaves no
    /// history; a page whose stored content equals the incoming content has
    /// only `lastfetched` refreshed; a page whose content really changed is
    /// overwritten and one history entry is appended, holding the new
    /// content and the sync timestamp.
    pub fn upsert_page(&mut self, row: PageRow)
        requires
            old(self).wf(),
        ensures
            final(self).wf(),
            final(self).pages@ == upsert_by(old(self).pages@, page_key(), page_merge(), row),
            final(self).history@ == history_after(old(self).pages@, old(self).history@, row),
            final(self).sections@ == old(self).sections@,
            final(self).modules@ == old(self).modules@,
            final(self).contents@ == old(self).contents@,
            final(self).files@ == old(self).files@,
    {
        proof {
            lemma_upsert_distinct(self.pages@, page_key(), page_merge(), row);
            lemma_upsert_resolve(
                self.files@,
                self.pages@,
                file_fk(),
                page_key(),
                page_key(),
                page_merge(),
                row,
            );
            lemma_upsert_resolve(
                self.history@,
                self.pages@,
                hist_fk(),
                page_cm(),
                page_key(),
                page_merge(),
                row,
            );
        }
        match self.find_page(row.pageid) {
            Some(i) => {
                let ghost pages0 = self.pages@;
                let stored = &self.pages[i];
                if opt_str_eq(&stored.content, &row.content) {
                    let merged = PageRow {
                        pageid: stored.pageid,
                        coursemodule: stored.coursemodule,
                        courseid: stored.courseid,
                        name: clone_opt_string(&stored.name),
                        intro: clone_opt_string(&stored.intro),
                        content: clone_opt_string(&stored.content),
                        revision: stored.revision,
                        timemodified: stored.timemodified,
                        lastfetched: row.lastfetched,
                    };
                    self.pages.set(i, merged);
                } else {
                    let cmid = stored.coursemodule;
                    let merged = PageRow {
                        pageid: stored.pageid,
                        coursemodule: stored.coursemodule,
                        courseid: stored.courseid,
                        name: clone_opt_string(&stored.name),
                        intro: clone_opt_string(&stored.intro),
                        content: clone_opt_string(&row.content),
                        revision: stored.revision,
                        timemodified: row.timemodified,
                        lastfetched: row.lastfetched,
                    };
                    self.pages.set(i, merged);
                    let entry = HistoryRow {
                        cmid,
                        content: row.content,
                        timestamp: row.lastfetched,
                    };
                    assert(page_cm()(self.pages@[i as int]) == entry.cmid);
                    self.history.push(entry);
                }
            },
            None => {
                proof {
                    lemma_first_with_key_bounds(self.pages@, page_key(), row.pageid);
                }
                self.pages.push(row);
            },
        }
    }

    /// Index of the file row with the given (filename, page_id) key, if
    /// any.
    fn find_file(&self, filename: &String, page_id: i64) -> (r: Option<usize>)
        ensures
            match r {
                Some(i) => i < self.files@.len() && first_with_key(
                    self.files@,
                    file_key(),
                    (filename@, page_id),
                ) == i,
                None => !has_key(self.files@, file_key(), (filename@, page_id)),
            },
    {
        let n = self.files.len();
        let mut i: usize = 0;
        while i < n
            invariant
                i <= n,
                n == self.files@.len(),
                forall|j: int|
                    0 <= j < i ==> #[trigger] file_key()(self.files@[j]) != (filename@, page_id),
            decreases n - i,
        {
            let f = &self.files[i];
            if f.page_id == page_id && str_eq(&f.filename, filename) {
                proof {
                    lemma_first_match_at(self.files@, file_key(), (filename@, page_id), i as int);
                }
                return Some(i);
            }
            assert(file_key()(self.files@[i as int]) != (filename@, page_id));
            i = i + 1;
        }
        proof {
            lemma_first_with_key_bounds(self.files@, file_key(), (filename@, page_id));
        }
        None
    }

    /// Insert the page attachment or refresh the existing row's URL and
    /// timestamps, keeping any local download path already recorded. The
    /// owning page must already be stored.
    pub fn upsert_file(&mut self, row: FileRow)
        requires
            old(self).wf(),
            has_key(old(self).pages@, page_key(), row.page_id),
        ensures
            final(self).wf(),
            final(self).files@ == upsert_by(old(self).files@, file_key(), file_merge(), row),
            final(self).sections@ == old(self).sections@,
            final(self).modules@ == old(self).modules@,
            final(self).contents@ == old(self).contents@,
            final(self).pages@ == old(self).pages@,
            final(self).history@ == old(self).history@,
    {
        proof {
            lemma_upsert_distinct(self.files@, file_key(), file_merge(), row);
            lemma_upsert_child_resolve(
                self.files@,
                self.pages@,
                file_key(),
                file_merge(),
                row,
                file_fk(),
                page_key(),
            );
        }
        match self.find_file(&row.filename, row.page_id) {
            Some(i) => {
                let merged = FileRow {
                    page_id: row.page_id,
                    filename: row.filename,
                    fileurl: row.fileurl,
                    localpath: clone_opt_string(&self.files[i].localpath),
                    timemodified: row.timemodified,
                    lastfetched: row.lastfetched,
                };
                self.files.set(i, merged);
            },
            None => {
                proof {
                    lemma_first_with_key_bounds(self.files@, file_key(), file_key()(row));
                }
                self.files.push(row);
            },
        }
    }
}

} // verus!
