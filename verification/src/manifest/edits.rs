//! Edits of a manifest: from one state to the next.
use std::collections::BTreeMap;
use vstd::prelude::*;

use crate::error;
use crate::error::{Error, ErrorKind, Result};
use crate::manifest::state;
use crate::manifest::state::{Manifest, ManifestState};
use crate::options::{BucketOptions, BucketSettings};
use crate::ordered;
use crate::ordered::Modelled;
use crate::table::{TableId, TableProperties, TableSummary};
use crate::text;
use crate::text::join;
use crate::types::Sequence;

verus! {

/// The tables of a bucket, or none.
pub open spec fn list_in(
    lists: Map<Seq<char>, Seq<TableSummary>>,
    bucket: Seq<char>,
) -> Seq<TableSummary> {
    if lists.dom().contains(bucket) {
        lists[bucket]
    } else {
        Seq::empty()
    }
}

/// Whether a list has a table of this identifier.
pub open spec fn has_id(list: Seq<TableSummary>, id: TableId) -> bool {
    exists|i: int| 0 <= i < list.len() && (#[trigger] list[i]).id == id
}

/// Whether the table at `i` is the first of this identifier.
pub open spec fn is_first(list: Seq<TableSummary>, id: TableId, i: int) -> bool {
    &&& 0 <= i < list.len()
    &&& list[i].id == id
    &&& forall|j: int| 0 <= j < i ==> (#[trigger] list[j]).id != id
}

/// The first table of an identifier.
pub open spec fn first_of(list: Seq<TableSummary>, id: TableId) -> TableSummary {
    list[choose|i: int| is_first(list, id, i)]
}

/// A list with one more table. A table that is there already is not added again; another
/// table of its identifier is a contradiction.
pub open spec fn placed(list: Seq<TableSummary>, table: TableSummary) -> Option<Seq<TableSummary>> {
    if !has_id(list, table.id) {
        Some(list.push(table))
    } else if first_of(list, table.id) == table {
        Some(list)
    } else {
        None
    }
}

/// A list with more tables.
pub open spec fn placed_all(list: Seq<TableSummary>, tables: Seq<TableSummary>) -> Option<
    Seq<TableSummary>,
>
    decreases tables.len(),
{
    if tables.len() == 0 {
        Some(list)
    } else {
        match placed_all(list, tables.drop_last()) {
            Some(list) => placed(list, tables.last()),
            None => None,
        }
    }
}

/// A list without the tables of some identifiers.
pub open spec fn without(list: Seq<TableSummary>, removed: Seq<TableId>) -> Seq<TableSummary>
    decreases list.len(),
{
    if list.len() == 0 {
        list
    } else {
        let before = without(list.drop_last(), removed);
        if removed.contains(list.last().id) {
            before
        } else {
            before.push(list.last())
        }
    }
}

/// Buckets with tables to add to them.
pub open spec fn rows(tables: Seq<(String, TableProperties)>) -> Seq<(Seq<char>, TableSummary)> {
    Seq::new(tables.len(), |i: int| (tables[i].0@, tables[i].1@))
}

/// Table lists with more tables, each added once.
pub open spec fn added(
    lists: Map<Seq<char>, Seq<TableSummary>>,
    rows: Seq<(Seq<char>, TableSummary)>,
) -> Option<Map<Seq<char>, Seq<TableSummary>>>
    decreases rows.len(),
{
    if rows.len() == 0 {
        Some(lists)
    } else {
        match added(lists, rows.drop_last()) {
            Some(lists) => match placed(list_in(lists, rows.last().0), rows.last().1) {
                Some(list) => Some(lists.insert(rows.last().0, list)),
                None => None,
            },
            None => None,
        }
    }
}

/// Table lists with more tables at their ends.
pub open spec fn pushed(
    lists: Map<Seq<char>, Seq<TableSummary>>,
    rows: Seq<(Seq<char>, TableSummary)>,
) -> Map<Seq<char>, Seq<TableSummary>>
    decreases rows.len(),
{
    if rows.len() == 0 {
        lists
    } else {
        let lists = pushed(lists, rows.drop_last());
        lists.insert(rows.last().0, list_in(lists, rows.last().0).push(rows.last().1))
    }
}

/// Whether every row names a bucket.
pub open spec fn buckets_exist(
    buckets: Map<Seq<char>, BucketSettings>,
    rows: Seq<(Seq<char>, TableSummary)>,
) -> bool {
    forall|i: int| 0 <= i < rows.len() ==> buckets.dom().contains((#[trigger] rows[i]).0)
}

/// Whether an error names the bucket of the first row whose bucket does not exist.
pub open spec fn names_missing_bucket(
    buckets: Map<Seq<char>, BucketSettings>,
    rows: Seq<(Seq<char>, TableSummary)>,
    error: Error,
) -> bool {
    exists|i: int|
        {
            &&& 0 <= i < rows.len()
            &&& !buckets.dom().contains((#[trigger] rows[i]).0)
            &&& buckets_exist(buckets, rows.take(i))
            &&& error.says(ErrorKind::Corruption, "table references missing bucket: "@ + rows[i].0)
        }
}

/// Whether an error names the first table that cannot be added.
pub open spec fn names_conflicting_table(
    lists: Map<Seq<char>, Seq<TableSummary>>,
    rows: Seq<(Seq<char>, TableSummary)>,
    error: Error,
) -> bool {
    exists|i: int|
        {
            &&& 0 <= i < rows.len()
            &&& added(lists, rows.take(i)) is Some
            &&& added(lists, rows.take(i + 1)) is None
            &&& error.says(
                ErrorKind::Corruption,
                "table id "@ + text::decimal((#[trigger] rows[i]).1.id.0 as nat)
                    + " has conflicting manifest properties"@,
            )
        }
}

/// Blob files that may be deleted, with more of them. One that is there already keeps its
/// commit.
pub open spec fn marked(pending: Map<u64, Sequence>, ids: Seq<u64>, sequence: Sequence) -> Map<
    u64,
    Sequence,
> {
    Map::new(
        |id: u64| pending.dom().contains(id) || ids.contains(id),
        |id: u64|
            if pending.dom().contains(id) {
                pending[id]
            } else {
                sequence
            },
    )
}

/// Blob files that may be deleted, without some of them.
pub open spec fn cleared(pending: Map<u64, Sequence>, ids: Seq<u64>) -> Map<u64, Sequence> {
    Map::new(|id: u64| pending.dom().contains(id) && !ids.contains(id), |id: u64| pending[id])
}

/// What creating a bucket gives: nothing to do where it exists with the same options, and an
/// error where it exists with others.
pub open spec fn create_bucket_edited(
    before: Manifest,
    name: Seq<char>,
    options: BucketSettings,
    result: Result<Option<ManifestState>>,
) -> bool {
    let buckets = ordered::map_of(before.buckets);
    match result {
        Ok(Some(next)) => !buckets.dom().contains(name) && state::bucket_added(
            before,
            next@,
            name,
            options,
        ),
        Ok(None) => buckets.dom().contains(name) && buckets[name] == options,
        Err(error) => if buckets.dom().contains(name) {
            &&& buckets[name] != options
            &&& error.says(
                ErrorKind::InvalidOptions,
                "existing bucket options do not match requested options"@,
            )
        } else {
            &&& before.next_bucket_generation == u64::MAX
            &&& error.says(
                ErrorKind::Corruption,
                "bucket-generation high-water mark overflow"@,
            )
        },
    }
}

/// Edits a manifest to have a bucket.
pub fn create_bucket_edit(state: &ManifestState, name: &str, options: &BucketOptions) -> (result:
    Result<Option<ManifestState>>)
    requires
        state.wf(),
    ensures
        create_bucket_edited(state@, name@, options@, result),
        result matches Ok(Some(next)) ==> next.wf(),
{
    if let Some(existing) = state.buckets.get(name) {
        if existing.same(options) {
            return Ok(None);
        }
        return Err(
            Error::invalid_options("existing bucket options do not match requested options"),
        );
    }
    let mut next: ManifestState = state.clone();
    match next.insert_new_bucket(name.to_owned(), options.clone()) {
        Ok(()) => Ok(Some(next)),
        Err(error) => Err(error),
    }
}

/// What dropping a bucket gives. Its blob files are marked as deletable.
pub open spec fn drop_bucket_edited(
    before: Manifest,
    name: Seq<char>,
    pending: Seq<u64>,
    sequence: Sequence,
    result: Result<Option<ManifestState>>,
) -> bool {
    let exists = ordered::map_of(before.buckets).dom().contains(name);
    match result {
        Ok(Some(next)) => {
            &&& exists
            &&& state::bucket_removed(
                before,
                (Manifest { pending_blob_deletions: before.pending_blob_deletions, ..next@ }),
                name,
            )
            &&& ordered::map_of(next@.pending_blob_deletions) == marked(
                ordered::map_of(before.pending_blob_deletions),
                pending,
                sequence,
            )
        },
        Ok(None) => false,
        Err(error) => !exists && error.says(
            ErrorKind::InvalidOptions,
            "cannot drop a bucket that does not exist"@,
        ),
    }
}

fn mark_pending(next: &mut BTreeMap<u64, Sequence>, ids: &Vec<u64>, sequence: Sequence)
    ensures
        ordered::ids_sorted(ordered::id_pairs(final(next)@)),
        ordered::map_of(ordered::id_pairs(final(next)@)) == marked(
            ordered::map_of(ordered::id_pairs(old(next)@)),
            ids@,
            sequence,
        ),
        ids@.len() == 0 ==> final(next)@ == old(next)@,
{
    let ghost before = next@;
    let mut i: usize = 0;
    assert(before =~= marked(before, ids@.take(0), sequence));
    while i < ids.len()
        invariant
            i <= ids@.len(),
            before == old(next)@,
            next@ == marked(before, ids@.take(i as int), sequence),
            i == 0 ==> next@ == before,
        decreases ids@.len() - i,
    {
        let id: u64 = ids[i];
        let ghost shorter = ids@.take(i as int);
        let ghost longer = ids@.take(i + 1);
        proof {
            assert(longer =~= shorter.push(id));
            assert forall|other: u64| longer.contains(other) == (shorter.contains(other) || other
                == id) by {
                if shorter.contains(other) {
                    let k = choose|k: int| 0 <= k < shorter.len() && shorter[k] == other;
                    assert(longer[k] == other);
                }
                assert(longer[i as int] == id);
            }
        }
        if !next.contains_key(&id) {
            let _ = next.insert(id, sequence);
        }
        assert(next@ =~= marked(before, longer, sequence));
        i = i + 1;
    }
    proof {
        assert(ids@.take(i as int) =~= ids@);
        ordered::id_pairs_stand_for(before);
        ordered::id_pairs_stand_for(next@);
    }
}

/// Edits a manifest not to have a bucket.
pub fn drop_bucket_edit(
    state: &ManifestState,
    name: &str,
    pending: &Vec<u64>,
    sequence: Sequence,
) -> (result: Result<Option<ManifestState>>)
    requires
        state.wf(),
    ensures
        drop_bucket_edited(state@, name@, pending@, sequence, result),
        result matches Ok(Some(next)) ==> next.wf(),
{
    if !state.buckets.contains_key(name) {
        return Err(Error::invalid_options("cannot drop a bucket that does not exist"));
    }
    let mut next: ManifestState = state.clone();
    next.remove_bucket(name);
    mark_pending(&mut next.pending_blob_deletions, pending, sequence);
    Ok(Some(next))
}

/// What creating a checkpoint gives.
pub open spec fn create_checkpoint_edited(
    before: Manifest,
    name: Seq<char>,
    sequence: Sequence,
    result: Result<Option<ManifestState>>,
) -> bool {
    let checkpoints = ordered::map_of(before.checkpoints);
    match result {
        Ok(Some(next)) => {
            &&& !checkpoints.dom().contains(name)
            &&& ordered::map_of(next@.checkpoints) == checkpoints.insert(name, sequence)
            &&& next@ == (Manifest { checkpoints: next@.checkpoints, ..before })
        },
        Ok(None) => false,
        Err(error) => checkpoints.dom().contains(name) && error.says(
            ErrorKind::CheckpointAlreadyExists,
            name,
        ),
    }
}

/// Edits a manifest to keep a commit readable under a name.
pub fn create_checkpoint_edit(state: &ManifestState, name: &str, sequence: Sequence) -> (result:
    Result<Option<ManifestState>>)
    requires
        state.wf(),
    ensures
        create_checkpoint_edited(state@, name@, sequence, result),
        result matches Ok(Some(next)) ==> next.wf(),
{
    let mut next: ManifestState = state.clone();
    if next.checkpoints.insert(name.to_owned(), sequence).is_some() {
        return Err(Error::CheckpointAlreadyExists { name: name.to_owned() });
    }
    Ok(Some(next))
}

/// What deleting a checkpoint gives.
pub open spec fn delete_checkpoint_edited(
    before: Manifest,
    name: Seq<char>,
    result: Result<Option<ManifestState>>,
) -> bool {
    let checkpoints = ordered::map_of(before.checkpoints);
    match result {
        Ok(Some(next)) => {
            &&& checkpoints.dom().contains(name)
            &&& ordered::map_of(next@.checkpoints) == checkpoints.remove(name)
            &&& next@ == (Manifest { checkpoints: next@.checkpoints, ..before })
        },
        Ok(None) => false,
        Err(error) => !checkpoints.dom().contains(name) && error.says(
            ErrorKind::CheckpointNotFound,
            name,
        ),
    }
}

/// Edits a manifest to forget a checkpoint.
pub fn delete_checkpoint_edit(state: &ManifestState, name: &str) -> (result: Result<
    Option<ManifestState>,
>)
    requires
        state.wf(),
    ensures
        delete_checkpoint_edited(state@, name@, result),
        result matches Ok(Some(next)) ==> next.wf(),
{
    let mut next: ManifestState = state.clone();
    if next.checkpoints.remove(name).is_none() {
        return Err(Error::CheckpointNotFound { name: name.to_owned() });
    }
    Ok(Some(next))
}

/// What clearing deletable blob files gives: nothing to do for no files.
pub open spec fn clear_pending_edited(
    before: Manifest,
    ids: Seq<u64>,
    result: Option<ManifestState>,
) -> bool {
    match result {
        Some(next) => {
            &&& ids.len() > 0
            &&& ordered::map_of(next@.pending_blob_deletions) == cleared(
                ordered::map_of(before.pending_blob_deletions),
                ids,
            )
            &&& next@ == (Manifest {
                pending_blob_deletions: next@.pending_blob_deletions,
                ..before
            })
        },
        None => ids.len() == 0,
    }
}

/// Edits a manifest to forget deletable blob files.
pub fn clear_pending_edit(state: &ManifestState, ids: &[u64]) -> (result: Option<ManifestState>)
    requires
        state.wf(),
    ensures
        clear_pending_edited(state@, ids@, result),
        result matches Some(next) ==> next.wf(),
{
    if ids.len() == 0 {
        return None;
    }
    let mut next: ManifestState = state.clone();
    let ghost start = next;
    let ghost before = next.pending_blob_deletions@;
    let mut i: usize = 0;
    assert(before =~= cleared(before, ids@.take(0)));
    while i < ids.len()
        invariant
            i <= ids@.len(),
            start.wf(),
            before == start.pending_blob_deletions@,
            next == (ManifestState {
                pending_blob_deletions: next.pending_blob_deletions,
                ..start
            }),
            next.pending_blob_deletions@ == cleared(before, ids@.take(i as int)),
        decreases ids@.len() - i,
    {
        let id: u64 = ids[i];
        let ghost shorter = ids@.take(i as int);
        let ghost longer = ids@.take(i + 1);
        proof {
            assert(longer =~= shorter.push(id));
            assert forall|other: u64| longer.contains(other) == (shorter.contains(other) || other
                == id) by {
                if shorter.contains(other) {
                    let k = choose|k: int| 0 <= k < shorter.len() && shorter[k] == other;
                    assert(longer[k] == other);
                }
                assert(longer[i as int] == id);
            }
        }
        let _ = next.pending_blob_deletions.remove(&id);
        assert(next.pending_blob_deletions@ =~= cleared(before, longer));
        i = i + 1;
    }
    proof {
        assert(ids@.take(i as int) =~= ids@);
        ordered::id_pairs_stand_for(before);
        ordered::id_pairs_stand_for(next.pending_blob_deletions@);
    }
    Some(next)
}

/// Whether one manifest is another with other tables and another replay floor.
pub open spec fn only_tables_and_floor(before: Manifest, after: Manifest, floor: Sequence) -> bool {
    after == (Manifest { tables: after.tables, wal_replay_floor: floor, ..before })
}

/// What adding flushed tables at the ends of their lists gives.
pub open spec fn push_tables_edited(
    before: Manifest,
    rows: Seq<(Seq<char>, TableSummary)>,
    floor: Sequence,
    result: Result<Option<ManifestState>>,
) -> bool {
    let exist = buckets_exist(ordered::map_of(before.buckets), rows);
    match result {
        Ok(Some(next)) => {
            &&& exist
            &&& ordered::map_of(next@.tables) == pushed(ordered::map_of(before.tables), rows)
            &&& only_tables_and_floor(before, next@, floor)
        },
        Ok(None) => false,
        Err(error) => !exist && names_missing_bucket(
            ordered::map_of(before.buckets),
            rows,
            error,
        ),
    }
}

/// What adding flushed tables once gives: nothing to do where nothing changes, and an error
/// where an identifier is taken by another table.
pub open spec fn add_tables_edited(
    before: Manifest,
    rows: Seq<(Seq<char>, TableSummary)>,
    floor: Sequence,
    result: Result<Option<ManifestState>>,
) -> bool {
    let exist = buckets_exist(ordered::map_of(before.buckets), rows);
    let lists = ordered::map_of(before.tables);
    let after = added(lists, rows);
    match result {
        Ok(Some(next)) => {
            &&& exist
            &&& after == Some(ordered::map_of(next@.tables))
            &&& only_tables_and_floor(before, next@, floor)
            &&& next@ != before
        },
        Ok(None) => exist && after == Some(lists) && floor == before.wal_replay_floor,
        Err(error) => if exist {
            after is None && names_conflicting_table(lists, rows, error)
        } else {
            names_missing_bucket(ordered::map_of(before.buckets), rows, error)
        },
    }
}

fn missing_bucket(what: &str, bucket: &str) -> (error: Error)
    ensures
        error.says(ErrorKind::Corruption, what@ + bucket@),
{
    Error::Corruption { message: join(what, bucket) }
}

fn check_buckets(state: &ManifestState, tables: &Vec<(String, TableProperties)>) -> (result: Result<
    (),
>)
    requires
        state.wf(),
    ensures
        match result {
            Ok(()) => buckets_exist(state.buckets.map(), rows(tables@)),
            Err(error) => !buckets_exist(state.buckets.map(), rows(tables@))
                && names_missing_bucket(state.buckets.map(), rows(tables@), error),
        },
{
    let mut i: usize = 0;
    while i < tables.len()
        invariant
            i <= tables@.len(),
            state.wf(),
            forall|j: int|
                0 <= j < i ==> state.buckets.map().dom().contains((#[trigger] rows(tables@)[j]).0),
        decreases tables@.len() - i,
    {
        assert(rows(tables@)[i as int].0 == tables@[i as int].0@);
        if !state.buckets.contains_key(tables[i].0.as_str()) {
            assert forall|j: int| 0 <= j < i implies state.buckets.map().dom().contains(
                (#[trigger] rows(tables@).take(i as int)[j]).0,
            ) by {
                assert(rows(tables@)[j] == rows(tables@).take(i as int)[j]);
            }
            return Err(missing_bucket("table references missing bucket: ", tables[i].0.as_str()));
        }
        i = i + 1;
    }
    Ok(())
}

fn copy_list(state: &ManifestState, bucket: &str) -> (list: Vec<TableProperties>)
    requires
        state.wf(),
    ensures
        list.deep_view() == list_in(state.tables.map(), bucket@),
{
    match state.tables.get(bucket) {
        Some(list) => list.copy_model(),
        None => {
            let none: Vec<TableProperties> = Vec::new();
            assert(none.deep_view() =~= Seq::<TableSummary>::empty());
            none
        },
    }
}

/// Edits a manifest to have flushed tables at the ends of their lists.
pub fn push_tables_edit(
    state: &ManifestState,
    tables: &Vec<(String, TableProperties)>,
    floor: Sequence,
) -> (result: Result<Option<ManifestState>>)
    requires
        state.wf(),
    ensures
        push_tables_edited(state@, rows(tables@), floor, result),
        result matches Ok(Some(next)) ==> next.wf(),
{
    if let Err(error) = check_buckets(state, tables) {
        return Err(error);
    }
    let ghost all = rows(tables@);
    let ghost lists = state.tables.map();
    let mut next: ManifestState = state.clone();
    let ghost start = next;
    let mut i: usize = 0;
    assert(all.take(0) =~= Seq::empty());
    while i < tables.len()
        invariant
            i <= tables@.len(),
            all == rows(tables@),
            next.wf(),
            next == (ManifestState { tables: next.tables, ..start }),
            next.tables.map() == pushed(lists, all.take(i as int)),
        decreases tables@.len() - i,
    {
        let bucket: &str = tables[i].0.as_str();
        let mut list: Vec<TableProperties> = copy_list(&next, bucket);
        let ghost before = list.deep_view();
        list.push(tables[i].1.clone());
        proof {
            assert(list.deep_view() =~= before.push(tables@[i as int].1@));
            assert(all.take(i + 1).drop_last() =~= all.take(i as int));
            assert(all.take(i + 1).last() == all[i as int]);
        }
        let _ = next.tables.insert(bucket.to_owned(), list);
        i = i + 1;
    }
    assert(all.take(i as int) =~= all);
    next.wal_replay_floor = floor;
    Ok(Some(next))
}

/// Places a table in a list unless it is there already.
fn place(list: &mut Vec<TableProperties>, table: &TableProperties) -> (placed_it: bool)
    ensures
        match placed(old(list).deep_view(), table@) {
            Some(after) => placed_it && final(list).deep_view() == after,
            None => !placed_it && final(list).deep_view() == old(list).deep_view(),
        },
{
    let ghost views = list.deep_view();
    let mut i: usize = 0;
    while i < list.len()
        invariant
            i <= list@.len(),
            *list == *old(list),
            views == list.deep_view(),
            forall|j: int| 0 <= j < i ==> (#[trigger] views[j]).id != table@.id,
        decreases list@.len() - i,
    {
        assert(views[i as int] == list@[i as int]@);
        if list[i].id == table.id {
            proof {
                assert(is_first(views, table@.id, i as int));
                let k = choose|k: int| is_first(views, table@.id, k);
                if k < i {
                    assert(views[k].id != table@.id);
                } else if k > i {
                    assert(views[i as int].id != table@.id);
                }
            }
            return list[i].same(table);
        }
        i = i + 1;
    }
    assert(!has_id(views, table@.id));
    list.push(table.clone());
    assert(list.deep_view() =~= views.push(table@));
    true
}

/// Rows that cannot be added cannot be added with more rows after them.
proof fn no_rows_after_none(
    lists: Map<Seq<char>, Seq<TableSummary>>,
    all: Seq<(Seq<char>, TableSummary)>,
    count: int,
)
    requires
        0 <= count <= all.len(),
        added(lists, all.take(count)) is None,
    ensures
        added(lists, all) is None,
    decreases all.len() - count,
{
    if count < all.len() {
        assert(all.take(count + 1).drop_last() =~= all.take(count));
        no_rows_after_none(lists, all, count + 1);
    } else {
        assert(all.take(count) =~= all);
    }
}

fn table_conflict(what: &str, id: TableId, found: &str) -> (error: Error)
    ensures
        error.says(ErrorKind::Corruption, what@ + text::decimal(id.0 as nat) + found@),
{
    Error::Corruption { message: text::join_number(what, id.get(), found) }
}

/// Edits a manifest to have flushed tables, each once.
pub fn add_tables_edit(
    state: &ManifestState,
    tables: &Vec<(String, TableProperties)>,
    floor: Sequence,
) -> (result: Result<Option<ManifestState>>)
    requires
        state.wf(),
    ensures
        add_tables_edited(state@, rows(tables@), floor, result),
        result matches Ok(Some(next)) ==> next.wf(),
{
    if let Err(error) = check_buckets(state, tables) {
        return Err(error);
    }
    let ghost all = rows(tables@);
    let ghost lists = state.tables.map();
    let mut next: ManifestState = state.clone();
    let ghost start = next;
    let mut i: usize = 0;
    assert(all.take(0) =~= Seq::empty());
    while i < tables.len()
        invariant
            i <= tables@.len(),
            all == rows(tables@),
            lists == ordered::map_of(state@.tables),
            next.wf(),
            next == (ManifestState { tables: next.tables, ..start }),
            added(lists, all.take(i as int)) == Some(next.tables.map()),
            buckets_exist(ordered::map_of(state@.buckets), all),
        decreases tables@.len() - i,
    {
        let bucket: &str = tables[i].0.as_str();
        let mut list: Vec<TableProperties> = copy_list(&next, bucket);
        proof {
            assert(all.take(i + 1).drop_last() =~= all.take(i as int));
            assert(all.take(i + 1).last() == all[i as int]);
        }
        if !place(&mut list, &tables[i].1) {
            proof {
                no_rows_after_none(lists, all, i + 1);
                assert(all[i as int].1.id == tables@[i as int].1.id);
            }
            return Err(
                table_conflict("table id ", tables[i].1.id, " has conflicting manifest properties"),
            );
        }
        let _ = next.tables.insert(bucket.to_owned(), list);
        i = i + 1;
    }
    assert(all.take(i as int) =~= all);
    next.wal_replay_floor = floor;
    if next.same(state) {
        Ok(None)
    } else {
        Ok(Some(next))
    }
}

/// Tables of one bucket that take the place of others.
pub type Replacement = (String, Vec<TableId>, Vec<TableProperties>);

/// Mathematical form of a [`Replacement`].
pub struct Swap {
    /// The bucket.
    pub bucket: Seq<char>,
    /// The identifiers of the tables that go.
    pub removed: Seq<TableId>,
    /// The tables that come.
    pub outputs: Seq<TableSummary>,
}

/// The mathematical form of a replacement.
pub open spec fn swap_of(replacement: Replacement) -> Swap {
    Swap {
        bucket: replacement.0@,
        removed: replacement.1@,
        outputs: replacement.2.deep_view(),
    }
}

/// The mathematical form of replacements.
pub open spec fn swaps(replacements: Seq<Replacement>) -> Seq<Swap> {
    Seq::new(replacements.len(), |i: int| swap_of(replacements[i]))
}

/// Whether all of these tables are in a list.
pub open spec fn all_present(list: Seq<TableSummary>, removed: Seq<TableId>) -> bool {
    forall|i: int| 0 <= i < removed.len() ==> has_id(list, #[trigger] removed[i])
}

/// Whether none of these tables is in a list.
pub open spec fn none_present(list: Seq<TableSummary>, removed: Seq<TableId>) -> bool {
    forall|i: int| 0 <= i < removed.len() ==> !has_id(list, #[trigger] removed[i])
}

/// Whether every output is in a list.
pub open spec fn outputs_present(list: Seq<TableSummary>, outputs: Seq<TableSummary>) -> bool {
    forall|i: int| 0 <= i < outputs.len() ==> list.contains(#[trigger] outputs[i])
}

/// Whether a swap was made already.
pub open spec fn is_applied(list: Seq<TableSummary>, swap: Swap) -> bool {
    none_present(list, swap.removed) && outputs_present(list, swap.outputs)
}

/// Whether a swap may be made, again or for the first time: it is not made in part.
pub open spec fn may_swap(lists: Map<Seq<char>, Seq<TableSummary>>, swap: Swap) -> bool {
    &&& lists.dom().contains(swap.bucket)
    &&& is_applied(lists[swap.bucket], swap) || all_present(lists[swap.bucket], swap.removed)
}

/// A list after a swap. A swap that was made already changes nothing; an output whose
/// identifier another table has is a contradiction.
pub open spec fn swapped(list: Seq<TableSummary>, swap: Swap) -> Option<Seq<TableSummary>> {
    if is_applied(list, swap) {
        Some(list)
    } else {
        placed_all(without(list, swap.removed), swap.outputs)
    }
}

/// Table lists after swaps.
pub open spec fn swapped_all(lists: Map<Seq<char>, Seq<TableSummary>>, all: Seq<Swap>) -> Option<
    Map<Seq<char>, Seq<TableSummary>>,
>
    decreases all.len(),
{
    if all.len() == 0 {
        Some(lists)
    } else {
        match swapped_all(lists, all.drop_last()) {
            Some(lists) => match swapped(list_in(lists, all.last().bucket), all.last()) {
                Some(list) => Some(lists.insert(all.last().bucket, list)),
                None => None,
            },
            None => None,
        }
    }
}

/// Table lists after swaps that each remove and append.
pub open spec fn replaced_all(lists: Map<Seq<char>, Seq<TableSummary>>, all: Seq<Swap>) -> Map<
    Seq<char>,
    Seq<TableSummary>,
>
    decreases all.len(),
{
    if all.len() == 0 {
        lists
    } else {
        let lists = replaced_all(lists, all.drop_last());
        let list = list_in(lists, all.last().bucket);
        lists.insert(
            all.last().bucket,
            without(list, all.last().removed) + all.last().outputs,
        )
    }
}

/// Whether every swap names a bucket and tables that it has.
pub open spec fn inputs_exist(before: Manifest, all: Seq<Swap>) -> bool {
    let buckets = ordered::map_of(before.buckets);
    let lists = ordered::map_of(before.tables);
    forall|i: int|
        0 <= i < all.len() ==> {
            let swap = #[trigger] all[i];
            &&& buckets.dom().contains(swap.bucket)
            &&& lists.dom().contains(swap.bucket)
            &&& all_present(lists[swap.bucket], swap.removed)
        }
}

/// What keeps a swap from being made, where its inputs must all exist.
pub open spec fn input_fault(before: Manifest, swap: Swap) -> Option<Seq<char>> {
    let lists = ordered::map_of(before.tables);
    if !ordered::map_of(before.buckets).dom().contains(swap.bucket) {
        Some("compaction references missing bucket: "@ + swap.bucket)
    } else if !lists.dom().contains(swap.bucket) {
        Some("manifest is missing table list for bucket: "@ + swap.bucket)
    } else {
        error::first_fault(swap.removed, missing_inputs(lists[swap.bucket]))
    }
}

/// What is wrong with an input table that is not in a list.
pub open spec fn missing_inputs(list: Seq<TableSummary>) -> spec_fn(TableId) -> Option<Seq<char>> {
    |id: TableId|
        if has_id(list, id) {
            None
        } else {
            Some("compaction input table is missing: "@ + text::decimal(id.0 as nat))
        }
}

/// See [`input_fault`].
pub open spec fn input_faults(before: Manifest) -> spec_fn(Swap) -> Option<Seq<char>> {
    |swap: Swap| input_fault(before, swap)
}

/// What keeps a swap from being made, again or for the first time.
pub open spec fn swap_fault(lists: Map<Seq<char>, Seq<TableSummary>>, swap: Swap) -> Option<
    Seq<char>,
> {
    if !lists.dom().contains(swap.bucket) {
        Some("compaction references missing bucket: "@ + swap.bucket)
    } else if !may_swap(lists, swap) {
        Some("compaction manifest edit for bucket "@ + swap.bucket + " is partially applied"@)
    } else {
        None
    }
}

/// See [`swap_fault`].
pub open spec fn swap_faults(lists: Map<Seq<char>, Seq<TableSummary>>) -> spec_fn(Swap) -> Option<
    Seq<char>,
> {
    |swap: Swap| swap_fault(lists, swap)
}

/// What is wrong with the first output that cannot be placed.
pub open spec fn output_fault(list: Seq<TableSummary>, outputs: Seq<TableSummary>) -> Option<
    Seq<char>,
>
    decreases outputs.len(),
{
    if outputs.len() == 0 {
        None
    } else {
        match output_fault(list, outputs.drop_last()) {
            Some(text) => Some(text),
            None => if placed_all(list, outputs) is None {
                Some(
                    "replacement table id "@ + text::decimal(outputs.last().id.0 as nat)
                        + " has conflicting properties"@,
                )
            } else {
                None
            },
        }
    }
}

/// What is wrong with the first swap whose outputs cannot be placed.
pub open spec fn outputs_fault(
    lists: Map<Seq<char>, Seq<TableSummary>>,
    all: Seq<Swap>,
) -> Option<Seq<char>>
    decreases all.len(),
{
    if all.len() == 0 {
        None
    } else {
        match (outputs_fault(lists, all.drop_last()), swapped_all(lists, all.drop_last())) {
            (None, Some(lists)) => {
                let list = list_in(lists, all.last().bucket);
                if is_applied(list, all.last()) {
                    None
                } else {
                    output_fault(without(list, all.last().removed), all.last().outputs)
                }
            },
            (fault, _) => fault,
        }
    }
}

/// What replacing tables gives, where the inputs must all exist.
pub open spec fn replace_tables_edited(
    before: Manifest,
    all: Seq<Swap>,
    pending: Seq<u64>,
    sequence: Sequence,
    result: Result<Option<ManifestState>>,
) -> bool {
    match result {
        Ok(Some(next)) => {
            &&& inputs_exist(before, all)
            &&& ordered::map_of(next@.tables) == replaced_all(ordered::map_of(before.tables), all)
            &&& ordered::map_of(next@.pending_blob_deletions) == marked(
                ordered::map_of(before.pending_blob_deletions),
                pending,
                sequence,
            )
            &&& before.same_but_files(next@)
        },
        Ok(None) => false,
        Err(error) => !inputs_exist(before, all) && (error::first_fault(
            all,
            input_faults(before),
        ) matches Some(text) && error.says(ErrorKind::Corruption, text)),
    }
}

/// What replacing tables gives, where the edit may have been made already.
pub open spec fn swap_tables_edited(
    before: Manifest,
    all: Seq<Swap>,
    pending: Seq<u64>,
    sequence: Sequence,
    result: Result<Option<ManifestState>>,
) -> bool {
    let lists = ordered::map_of(before.tables);
    let may = forall|i: int| 0 <= i < all.len() ==> may_swap(lists, #[trigger] all[i]);
    let after = swapped_all(lists, all);
    let files = marked(ordered::map_of(before.pending_blob_deletions), pending, sequence);
    match result {
        Ok(Some(next)) => {
            &&& may
            &&& after == Some(ordered::map_of(next@.tables))
            &&& ordered::map_of(next@.pending_blob_deletions) == files
            &&& before.same_but_files(next@)
            &&& next@ != before
        },
        Ok(None) => {
            &&& may
            &&& after == Some(lists)
            &&& files == ordered::map_of(before.pending_blob_deletions)
        },
        Err(error) => if may {
            &&& after is None
            &&& outputs_fault(lists, all) matches Some(text) && error.says(
                ErrorKind::Corruption,
                text,
            )
        } else {
            error::first_fault(all, swap_faults(lists)) matches Some(text) && error.says(
                ErrorKind::Corruption,
                text,
            )
        },
    }
}

fn list_has_id(list: &Vec<TableProperties>, id: TableId) -> (found: bool)
    ensures
        found == has_id(list.deep_view(), id),
{
    let ghost views = list.deep_view();
    let mut i: usize = 0;
    while i < list.len()
        invariant
            i <= list@.len(),
            views == list.deep_view(),
            forall|j: int| 0 <= j < i ==> (#[trigger] views[j]).id != id,
        decreases list@.len() - i,
    {
        assert(views[i as int] == list@[i as int]@);
        if list[i].id == id {
            return true;
        }
        i = i + 1;
    }
    false
}

/// Counts how many of these tables are in a list.
fn count_present(list: &Vec<TableProperties>, removed: &Vec<TableId>) -> (count: usize)
    ensures
        count <= removed@.len(),
        (count == removed@.len()) == all_present(list.deep_view(), removed@),
        (count == 0) == none_present(list.deep_view(), removed@),
{
    let ghost views = list.deep_view();
    let mut count: usize = 0;
    let mut i: usize = 0;
    while i < removed.len()
        invariant
            i <= removed@.len(),
            views == list.deep_view(),
            count <= i,
            count < i ==> exists|j: int| 0 <= j < i && !has_id(views, #[trigger] removed@[j]),
            count == i ==> forall|j: int| 0 <= j < i ==> has_id(views, #[trigger] removed@[j]),
            count > 0 ==> exists|j: int| 0 <= j < i && has_id(views, #[trigger] removed@[j]),
            count == 0 ==> forall|j: int| 0 <= j < i ==> !has_id(views, #[trigger] removed@[j]),
        decreases removed@.len() - i,
    {
        let ghost before = count;
        if list_has_id(list, removed[i]) {
            count = count + 1;
        }
        proof {
            assert(has_id(views, removed@[i as int]) == (count > before));
            if before < i {
                let j = choose|j: int| 0 <= j < i && !has_id(views, #[trigger] removed@[j]);
                assert(!has_id(views, removed@[j]));
            }
        }
        i = i + 1;
    }
    count
}

fn list_contains(list: &Vec<TableProperties>, table: &TableProperties) -> (found: bool)
    ensures
        found == list.deep_view().contains(table@),
{
    let ghost views = list.deep_view();
    let mut i: usize = 0;
    while i < list.len()
        invariant
            i <= list@.len(),
            views == list.deep_view(),
            forall|j: int| 0 <= j < i ==> #[trigger] views[j] != table@,
        decreases list@.len() - i,
    {
        assert(views[i as int] == list@[i as int]@);
        if list[i].same(table) {
            return true;
        }
        i = i + 1;
    }
    false
}

fn outputs_match(list: &Vec<TableProperties>, outputs: &Vec<TableProperties>) -> (matches: bool)
    ensures
        matches == outputs_present(list.deep_view(), outputs.deep_view()),
{
    let ghost wanted = outputs.deep_view();
    let mut i: usize = 0;
    while i < outputs.len()
        invariant
            i <= outputs@.len(),
            wanted == outputs.deep_view(),
            forall|j: int| 0 <= j < i ==> list.deep_view().contains(#[trigger] wanted[j]),
        decreases outputs@.len() - i,
    {
        assert(wanted[i as int] == outputs@[i as int]@);
        if !list_contains(list, &outputs[i]) {
            return false;
        }
        i = i + 1;
    }
    true
}

fn ids_contain(ids: &Vec<TableId>, id: TableId) -> (found: bool)
    ensures
        found == ids@.contains(id),
{
    let mut i: usize = 0;
    while i < ids.len()
        invariant
            i <= ids@.len(),
            forall|j: int| 0 <= j < i ==> ids@[j] != id,
        decreases ids@.len() - i,
    {
        if ids[i] == id {
            return true;
        }
        i = i + 1;
    }
    false
}

/// Copies a list without the tables of some identifiers.
fn retain(list: &Vec<TableProperties>, removed: &Vec<TableId>) -> (kept: Vec<TableProperties>)
    ensures
        kept.deep_view() == without(list.deep_view(), removed@),
{
    let ghost views = list.deep_view();
    let mut kept: Vec<TableProperties> = Vec::new();
    let mut i: usize = 0;
    proof {
        assert(views.take(0) =~= Seq::empty());
        assert(kept.deep_view() =~= Seq::empty());
    }
    while i < list.len()
        invariant
            i <= list@.len(),
            views == list.deep_view(),
            kept.deep_view() == without(views.take(i as int), removed@),
        decreases list@.len() - i,
    {
        proof {
            assert(views[i as int] == list@[i as int]@);
            assert(views.take(i + 1).drop_last() =~= views.take(i as int));
            assert(views.take(i + 1).last() == views[i as int]);
        }
        if !ids_contain(removed, list[i].id) {
            let ghost before = kept.deep_view();
            kept.push(list[i].clone());
            assert(kept.deep_view() =~= before.push(views[i as int]));
        }
        i = i + 1;
    }
    assert(views.take(i as int) =~= views);
    kept
}

fn check_inputs(state: &ManifestState, replacement: &Replacement) -> (result: Result<()>)
    requires
        state.wf(),
    ensures
        ({
            let swap = swap_of(*replacement);
            let exist = {
                &&& state.buckets.map().dom().contains(swap.bucket)
                &&& state.tables.map().dom().contains(swap.bucket)
                &&& all_present(state.tables.map()[swap.bucket], swap.removed)
            };
            match result {
                Ok(()) => exist,
                Err(error) => !exist && (input_fault(state@, swap) matches Some(text)
                    && error.says(ErrorKind::Corruption, text)),
            }
        }),
        result is Ok ==> input_fault(state@, swap_of(*replacement)) is None,
{
    let bucket: &str = replacement.0.as_str();
    if !state.buckets.contains_key(bucket) {
        return Err(missing_bucket("compaction references missing bucket: ", bucket));
    }
    let tables: &Vec<TableProperties> = match state.tables.get(bucket) {
        Some(tables) => tables,
        None => {
            return Err(missing_bucket("manifest is missing table list for bucket: ", bucket));
        },
    };
    let removed: &Vec<TableId> = &replacement.1;
    let ghost list = tables.deep_view();
    let mut i: usize = 0;
    assert(removed@.take(0) =~= Seq::empty());
    while i < removed.len()
        invariant
            i <= removed@.len(),
            list == tables.deep_view(),
            list == state.tables.map()[replacement.0@],
            removed@ == replacement.1@,
            forall|j: int| 0 <= j < i ==> has_id(list, #[trigger] removed@[j]),
            state.buckets.map().dom().contains(replacement.0@),
            state.tables.map().dom().contains(replacement.0@),
            error::first_fault(removed@.take(i as int), missing_inputs(list)) is None,
        decreases removed@.len() - i,
    {
        proof {
            error::one_more_item(removed@, missing_inputs(list), i as int);
        }
        if !list_has_id(tables, removed[i]) {
            proof {
                reveal_strlit("");
                error::first_fault_stays(removed@, missing_inputs(list), i + 1);
                let text = "compaction input table is missing: "@ + text::decimal(
                    removed@[i as int].0 as nat,
                );
                assert(text + ""@ =~= text);
            }
            return Err(table_conflict("compaction input table is missing: ", removed[i], ""));
        }
        i = i + 1;
    }
    assert(removed@.take(i as int) =~= removed@);
    Ok(())
}

/// Edits a manifest to have other tables in the place of compacted ones.
pub fn replace_tables_edit(
    state: &ManifestState,
    replacements: &Vec<Replacement>,
    pending: &Vec<u64>,
    sequence: Sequence,
) -> (result: Result<Option<ManifestState>>)
    requires
        state.wf(),
    ensures
        replace_tables_edited(state@, swaps(replacements@), pending@, sequence, result),
        result matches Ok(Some(next)) ==> next.wf(),
{
    let ghost all = swaps(replacements@);
    let ghost lists = state.tables.map();
    let mut i: usize = 0;
    assert(all.take(0) =~= Seq::empty());
    while i < replacements.len()
        invariant
            i <= replacements@.len(),
            all == swaps(replacements@),
            state.wf(),
            inputs_exist(state@, all.take(i as int)),
            error::first_fault(all.take(i as int), input_faults(state@)) is None,
        decreases replacements@.len() - i,
    {
        proof {
            assert(all[i as int] == swap_of(replacements@[i as int]));
            error::one_more_item(all, input_faults(state@), i as int);
        }
        if let Err(error) = check_inputs(state, &replacements[i]) {
            proof {
                error::first_fault_stays(all, input_faults(state@), i + 1);
            }
            return Err(error);
        }
        assert forall|j: int| 0 <= j < i + 1 implies {
            let swap = #[trigger] all.take(i + 1)[j];
            &&& state.buckets.map().dom().contains(swap.bucket)
            &&& state.tables.map().dom().contains(swap.bucket)
            &&& all_present(state.tables.map()[swap.bucket], swap.removed)
        } by {
            if j < i {
                assert(all.take(i as int)[j] == all.take(i + 1)[j]);
            }
        }
        i = i + 1;
    }
    assert(all.take(i as int) =~= all);
    let mut next: ManifestState = state.clone();
    let ghost start = next;
    let mut i: usize = 0;
    assert(all.take(0) =~= Seq::empty());
    while i < replacements.len()
        invariant
            i <= replacements@.len(),
            all == swaps(replacements@),
            next.wf(),
            next == (ManifestState { tables: next.tables, ..start }),
            next.tables.map() == replaced_all(lists, all.take(i as int)),
        decreases replacements@.len() - i,
    {
        let bucket: &str = replacements[i].0.as_str();
        let list: Vec<TableProperties> = copy_list(&next, bucket);
        let mut kept: Vec<TableProperties> = retain(&list, &replacements[i].1);
        let ghost before = kept.deep_view();
        let mut outputs: Vec<TableProperties> = replacements[i].2.copy_model();
        let ghost more = outputs.deep_view();
        kept.append(&mut outputs);
        proof {
            assert(kept.deep_view() =~= before + more);
            assert(all.take(i + 1).drop_last() =~= all.take(i as int));
            assert(all.take(i + 1).last() == swap_of(replacements@[i as int]));
        }
        let _ = next.tables.insert(bucket.to_owned(), kept);
        i = i + 1;
    }
    assert(all.take(i as int) =~= all);
    mark_pending(&mut next.pending_blob_deletions, pending, sequence);
    Ok(Some(next))
}

/// Tells whether a swap may be made.
fn check_swap(state: &ManifestState, replacement: &Replacement) -> (result: Result<()>)
    requires
        state.wf(),
    ensures
        match result {
            Ok(()) => may_swap(state.tables.map(), swap_of(*replacement)),
            Err(error) => swap_fault(state.tables.map(), swap_of(*replacement)) matches Some(text)
                && error.says(ErrorKind::Corruption, text),
        },
{
    let bucket: &str = replacement.0.as_str();
    let tables: &Vec<TableProperties> = match state.tables.get(bucket) {
        Some(tables) => tables,
        None => {
            return Err(missing_bucket("compaction references missing bucket: ", bucket));
        },
    };
    let present: usize = count_present(tables, &replacement.1);
    if present == 0 && outputs_match(tables, &replacement.2) {
        return Ok(());
    }
    if present != replacement.1.len() {
        let message: String = join("compaction manifest edit for bucket ", bucket);
        return Err(
            Error::Corruption { message: join(message.as_str(), " is partially applied") },
        );
    }
    Ok(())
}

/// Tables that cannot be placed cannot be placed with more tables after them.
proof fn no_place_after_none(list: Seq<TableSummary>, tables: Seq<TableSummary>, count: int)
    requires
        0 <= count <= tables.len(),
        placed_all(list, tables.take(count)) is None,
    ensures
        placed_all(list, tables) is None,
    decreases tables.len() - count,
{
    if count < tables.len() {
        assert(tables.take(count + 1).drop_last() =~= tables.take(count));
        no_place_after_none(list, tables, count + 1);
    } else {
        assert(tables.take(count) =~= tables);
    }
}

/// What is wrong with the first outputs is what is wrong with all of them.
proof fn first_output_fault(list: Seq<TableSummary>, outputs: Seq<TableSummary>, count: int)
    requires
        0 <= count <= outputs.len(),
        output_fault(list, outputs.take(count)) is Some,
    ensures
        output_fault(list, outputs) == output_fault(list, outputs.take(count)),
    decreases outputs.len() - count,
{
    if count < outputs.len() {
        assert(outputs.take(count + 1).drop_last() =~= outputs.take(count));
        first_output_fault(list, outputs, count + 1);
    } else {
        assert(outputs.take(count) =~= outputs);
    }
}

/// What is wrong with the outputs of the first swaps is what is wrong with all of them.
proof fn first_outputs_fault(
    lists: Map<Seq<char>, Seq<TableSummary>>,
    all: Seq<Swap>,
    count: int,
)
    requires
        0 <= count <= all.len(),
        outputs_fault(lists, all.take(count)) is Some,
    ensures
        outputs_fault(lists, all) == outputs_fault(lists, all.take(count)),
    decreases all.len() - count,
{
    if count < all.len() {
        assert(all.take(count + 1).drop_last() =~= all.take(count));
        first_outputs_fault(lists, all, count + 1);
    } else {
        assert(all.take(count) =~= all);
    }
}

/// Outputs that can be placed have no fault.
proof fn placed_outputs_have_no_fault(list: Seq<TableSummary>, outputs: Seq<TableSummary>)
    requires
        placed_all(list, outputs) is Some,
    ensures
        output_fault(list, outputs) is None,
    decreases outputs.len(),
{
    if outputs.len() > 0 {
        placed_outputs_have_no_fault(list, outputs.drop_last());
    }
}

/// Swaps that cannot be made cannot be made with more swaps after them.
proof fn no_swap_after_none(
    lists: Map<Seq<char>, Seq<TableSummary>>,
    all: Seq<Swap>,
    count: int,
)
    requires
        0 <= count <= all.len(),
        swapped_all(lists, all.take(count)) is None,
    ensures
        swapped_all(lists, all) is None,
    decreases all.len() - count,
{
    if count < all.len() {
        assert(all.take(count + 1).drop_last() =~= all.take(count));
        no_swap_after_none(lists, all, count + 1);
    } else {
        assert(all.take(count) =~= all);
    }
}

/// Makes one swap in a list.
fn swap_list(list: Vec<TableProperties>, replacement: &Replacement) -> (result: Result<
    Vec<TableProperties>,
>)
    ensures
        match result {
            Ok(after) => swapped(list.deep_view(), swap_of(*replacement)) == Some(
                after.deep_view(),
            ),
            Err(error) => {
                &&& swapped(list.deep_view(), swap_of(*replacement)) is None
                &&& output_fault(
                    without(list.deep_view(), replacement.1@),
                    replacement.2.deep_view(),
                ) matches Some(text) && error.says(ErrorKind::Corruption, text)
            },
        },
{
    let present: usize = count_present(&list, &replacement.1);
    if present == 0 && outputs_match(&list, &replacement.2) {
        return Ok(list);
    }
    let mut kept: Vec<TableProperties> = retain(&list, &replacement.1);
    let outputs: &Vec<TableProperties> = &replacement.2;
    let ghost start = kept.deep_view();
    let ghost wanted = outputs.deep_view();
    let mut i: usize = 0;
    assert(wanted.take(0) =~= Seq::empty());
    while i < outputs.len()
        invariant
            i <= outputs@.len(),
            wanted == outputs.deep_view(),
            wanted == swap_of(*replacement).outputs,
            start == without(list.deep_view(), swap_of(*replacement).removed),
            !is_applied(list.deep_view(), swap_of(*replacement)),
            placed_all(start, wanted.take(i as int)) == Some(kept.deep_view()),
            output_fault(start, wanted.take(i as int)) is None,
        decreases outputs@.len() - i,
    {
        proof {
            assert(wanted.take(i + 1).drop_last() =~= wanted.take(i as int));
            assert(wanted.take(i + 1).last() == outputs@[i as int]@);
        }
        if !place(&mut kept, &outputs[i]) {
            proof {
                no_place_after_none(start, wanted, i + 1);
                first_output_fault(start, wanted, i + 1);
            }
            return Err(
                table_conflict(
                    "replacement table id ",
                    outputs[i].id,
                    " has conflicting properties",
                ),
            );
        }
        i = i + 1;
    }
    assert(wanted.take(i as int) =~= wanted);
    Ok(kept)
}

/// Edits a manifest to have other tables in the place of compacted ones, once.
pub fn swap_tables_edit(
    state: &ManifestState,
    replacements: &Vec<Replacement>,
    pending: &Vec<u64>,
    sequence: Sequence,
) -> (result: Result<Option<ManifestState>>)
    requires
        state.wf(),
    ensures
        swap_tables_edited(state@, swaps(replacements@), pending@, sequence, result),
        result matches Ok(Some(next)) ==> next.wf(),
{
    let ghost all = swaps(replacements@);
    let ghost lists = state.tables.map();
    let mut i: usize = 0;
    assert(all.take(0) =~= Seq::empty());
    while i < replacements.len()
        invariant
            i <= replacements@.len(),
            all == swaps(replacements@),
            lists == ordered::map_of(state@.tables),
            state.wf(),
            forall|j: int| 0 <= j < i ==> may_swap(lists, #[trigger] all[j]),
            error::first_fault(all.take(i as int), swap_faults(lists)) is None,
        decreases replacements@.len() - i,
    {
        proof {
            assert(all[i as int] == swap_of(replacements@[i as int]));
            error::one_more_item(all, swap_faults(lists), i as int);
        }
        if let Err(error) = check_swap(state, &replacements[i]) {
            proof {
                error::first_fault_stays(all, swap_faults(lists), i + 1);
                assert(!may_swap(lists, all[i as int]));
            }
            return Err(error);
        }
        i = i + 1;
    }
    let mut next: ManifestState = state.clone();
    let ghost start = next;
    let mut i: usize = 0;
    assert(all.take(0) =~= Seq::empty());
    while i < replacements.len()
        invariant
            i <= replacements@.len(),
            all == swaps(replacements@),
            lists == ordered::map_of(state@.tables),
            next.wf(),
            next == (ManifestState { tables: next.tables, ..start }),
            swapped_all(lists, all.take(i as int)) == Some(next.tables.map()),
            outputs_fault(lists, all.take(i as int)) is None,
            forall|j: int| 0 <= j < all.len() ==> may_swap(lists, #[trigger] all[j]),
        decreases replacements@.len() - i,
    {
        let bucket: &str = replacements[i].0.as_str();
        let list: Vec<TableProperties> = copy_list(&next, bucket);
        let ghost found = list.deep_view();
        proof {
            assert(all.take(i + 1).drop_last() =~= all.take(i as int));
            assert(all.take(i + 1).last() == swap_of(replacements@[i as int]));
        }
        match swap_list(list, &replacements[i]) {
            Ok(after) => {
                proof {
                    let swap = swap_of(replacements@[i as int]);
                    if !is_applied(found, swap) {
                        placed_outputs_have_no_fault(without(found, swap.removed), swap.outputs);
                    }
                }
                let _ = next.tables.insert(bucket.to_owned(), after);
            },
            Err(error) => {
                proof {
                    no_swap_after_none(lists, all, i + 1);
                    first_outputs_fault(lists, all, i + 1);
                }
                return Err(error);
            },
        }
        i = i + 1;
    }
    assert(all.take(i as int) =~= all);
    mark_pending(&mut next.pending_blob_deletions, pending, sequence);
    if next.same(state) {
        Ok(None)
    } else {
        Ok(Some(next))
    }
}

proof fn created_bucket_may_follow(
    before: Manifest,
    name: Seq<char>,
    options: BucketSettings,
    next: ManifestState,
)
    requires
        before.sorted(),
        before.buckets_sound(),
        create_bucket_edited(before, name, options, Ok(Some(next))),
    ensures
        before.may_become(next@),
{
    let generations = ordered::map_of(before.bucket_generations);
    if generations.dom().contains(name) {
        let i = ordered::map_key_is_in_pairs(before.bucket_generations, name);
        assert(state::names_of(before.bucket_generations)[i] == name);
        assert(state::names_of(before.bucket_generations).len()
            == state::names_of(before.buckets).len());
        assert(state::names_of(before.buckets)[i] == name);
        ordered::sorted_names_are_distinct(before.buckets);
        ordered::pair_is_in_map(before.buckets, i);
    }
}

/// A bucket that is dropped and created again is another incarnation.
pub proof fn recreated_bucket_is_another_incarnation(
    before: Manifest,
    name: Seq<char>,
    pending: Seq<u64>,
    sequence: Sequence,
    dropped: ManifestState,
    options: BucketSettings,
    next: ManifestState,
)
    requires
        before.generations_sound(),
        ordered::map_of(before.bucket_generations).dom().contains(name),
        drop_bucket_edited(before, name, pending, sequence, Ok(Some(dropped))),
        create_bucket_edited(dropped@, name, options, Ok(Some(next))),
    ensures
        ordered::map_of(next@.bucket_generations).dom().contains(name),
        ordered::map_of(next@.bucket_generations)[name] != ordered::map_of(
            before.bucket_generations,
        )[name],
{
    let i = ordered::map_key_is_in_pairs(before.bucket_generations, name);
    state::new_generation_is_fresh(before, i);
}

/// Whether a list has this table as the first of its identifier.
spec fn holds(list: Seq<TableSummary>, table: TableSummary) -> bool {
    has_id(list, table.id) && first_of(list, table.id) == table
}

pub(crate) proof fn first_is_unique(list: Seq<TableSummary>, id: TableId, i: int)
    requires
        is_first(list, id, i),
    ensures
        has_id(list, id),
        first_of(list, id) == list[i],
{
    let k = choose|k: int| is_first(list, id, k);
    if k < i {
        assert(list[k].id != id);
    } else if k > i {
        assert(list[i].id != id);
    }
}

pub(crate) proof fn some_is_first(list: Seq<TableSummary>, id: TableId, i: int) -> (first: int)
    requires
        0 <= i < list.len(),
        list[i].id == id,
    ensures
        is_first(list, id, first),
    decreases i,
{
    if forall|j: int| 0 <= j < i ==> (#[trigger] list[j]).id != id {
        i
    } else {
        let j = choose|j: int| 0 <= j < i && (#[trigger] list[j]).id == id;
        some_is_first(list, id, j)
    }
}

/// What a list holds, it still holds with more tables.
proof fn placing_keeps(list: Seq<TableSummary>, table: TableSummary, other: TableSummary)
    requires
        holds(list, other),
        placed(list, table) is Some,
    ensures
        holds(placed(list, table)->0, other),
{
    let after = placed(list, table)->0;
    let i = choose|i: int| 0 <= i < list.len() && (#[trigger] list[i]).id == other.id;
    let k = some_is_first(list, other.id, i);
    first_is_unique(list, other.id, k);
    assert(is_first(after, other.id, k));
    first_is_unique(after, other.id, k);
}

/// A list holds a table that was placed in it.
proof fn placing_places(list: Seq<TableSummary>, table: TableSummary)
    requires
        placed(list, table) is Some,
    ensures
        holds(placed(list, table)->0, table),
{
    if !has_id(list, table.id) {
        let after = list.push(table);
        assert forall|j: int| 0 <= j < list.len() implies (#[trigger] after[j]).id != table.id by {
            assert(list[j].id != table.id);
        }
        assert(is_first(after, table.id, list.len() as int));
        first_is_unique(after, table.id, list.len() as int);
    }
}

/// After tables were added, the lists hold every one of them.
proof fn adding_adds(
    lists: Map<Seq<char>, Seq<TableSummary>>,
    all: Seq<(Seq<char>, TableSummary)>,
    i: int,
)
    requires
        added(lists, all) is Some,
        0 <= i < all.len(),
    ensures
        holds(list_in(added(lists, all)->0, all[i].0), all[i].1),
    decreases all.len(),
{
    let before = all.drop_last();
    let middle = added(lists, before)->0;
    placing_places(list_in(middle, all.last().0), all.last().1);
    if i < all.len() - 1 {
        adding_adds(lists, before, i);
        assert(before[i] == all[i]);
        if all[i].0 == all.last().0 {
            placing_keeps(list_in(middle, all[i].0), all.last().1, all[i].1);
        }
    }
}

/// Tables that the lists hold are not added again.
proof fn held_tables_change_nothing(
    lists: Map<Seq<char>, Seq<TableSummary>>,
    all: Seq<(Seq<char>, TableSummary)>,
)
    requires
        forall|i: int|
            0 <= i < all.len() ==> holds(list_in(lists, (#[trigger] all[i]).0), all[i].1),
    ensures
        added(lists, all) == Some(lists),
    decreases all.len(),
{
    if all.len() > 0 {
        let before = all.drop_last();
        assert forall|i: int| 0 <= i < before.len() implies holds(
            list_in(lists, (#[trigger] before[i]).0),
            before[i].1,
        ) by {
            assert(all[i] == before[i]);
        }
        held_tables_change_nothing(lists, before);
        assert(holds(list_in(lists, all[all.len() - 1].0), all[all.len() - 1].1));
        assert(lists.insert(all.last().0, list_in(lists, all.last().0)) =~= lists);
    }
}

/// An edit that adds tables and is repeated after it took effect changes nothing.
pub proof fn repeated_add_changes_nothing(
    before: Manifest,
    all: Seq<(Seq<char>, TableSummary)>,
    floor: Sequence,
    next: ManifestState,
    again: Result<Option<ManifestState>>,
)
    requires
        add_tables_edited(before, all, floor, Ok(Some(next))),
        add_tables_edited(next@, all, floor, again),
    ensures
        again matches Ok(unchanged) && (unchanged matches Some(same) ==> ordered::map_of(
            same@.tables,
        ) == ordered::map_of(next@.tables)),
{
    let lists = ordered::map_of(before.tables);
    let after = ordered::map_of(next@.tables);
    assert forall|i: int| 0 <= i < all.len() implies holds(
        list_in(after, (#[trigger] all[i]).0),
        all[i].1,
    ) by {
        adding_adds(lists, all, i);
    }
    held_tables_change_nothing(after, all);
}

/// After outputs were placed, the list has every one of them.
proof fn placing_all_places(list: Seq<TableSummary>, tables: Seq<TableSummary>, i: int)
    requires
        placed_all(list, tables) is Some,
        0 <= i < tables.len(),
    ensures
        holds(placed_all(list, tables)->0, tables[i]),
    decreases tables.len(),
{
    let before = tables.drop_last();
    let middle = placed_all(list, before)->0;
    placing_places(middle, tables.last());
    if i < tables.len() - 1 {
        placing_all_places(list, before, i);
        placing_keeps(middle, tables.last(), tables[i]);
    }
}

/// A list without some tables has none of them, and placing others brings none back.
proof fn removed_stay_removed(
    list: Seq<TableSummary>,
    removed: Seq<TableId>,
    tables: Seq<TableSummary>,
    id: TableId,
)
    requires
        removed.contains(id),
        placed_all(without(list, removed), tables) is Some,
        forall|i: int| 0 <= i < tables.len() ==> (#[trigger] tables[i]).id != id,
    ensures
        !has_id(placed_all(without(list, removed), tables)->0, id),
    decreases tables.len(),
{
    if tables.len() == 0 {
        without_has_none(list, removed, id);
    } else {
        let before = tables.drop_last();
        assert forall|i: int| 0 <= i < before.len() implies (#[trigger] before[i]).id != id by {
            assert(tables[i] == before[i]);
        }
        removed_stay_removed(list, removed, before, id);
        let middle = placed_all(without(list, removed), before)->0;
        let after = placed(middle, tables.last())->0;
        assert(tables[tables.len() - 1].id != id);
        if has_id(after, id) {
            let k = choose|k: int| 0 <= k < after.len() && (#[trigger] after[k]).id == id;
            assert(middle[k].id == id);
        }
    }
}

proof fn without_has_none(list: Seq<TableSummary>, removed: Seq<TableId>, id: TableId)
    requires
        removed.contains(id),
    ensures
        !has_id(without(list, removed), id),
    decreases list.len(),
{
    if list.len() > 0 {
        without_has_none(list.drop_last(), removed, id);
        let before = without(list.drop_last(), removed);
        let after = without(list, removed);
        if has_id(after, id) {
            let k = choose|k: int| 0 <= k < after.len() && (#[trigger] after[k]).id == id;
            if k < before.len() {
                assert(before[k].id == id);
            }
        }
    }
}

/// A compaction edit that took effect is seen as made already, and making it again changes
/// nothing. The outputs must not reuse the identifiers of the inputs.
pub proof fn repeated_swap_changes_nothing(list: Seq<TableSummary>, swap: Swap)
    requires
        swapped(list, swap) is Some,
        forall|i: int|
            0 <= i < swap.outputs.len() ==> !swap.removed.contains((#[trigger] swap.outputs[i]).id),
    ensures
        is_applied(swapped(list, swap)->0, swap),
        swapped(swapped(list, swap)->0, swap) == swapped(list, swap),
{
    if !is_applied(list, swap) {
        let after = swapped(list, swap)->0;
        let start = without(list, swap.removed);
        assert forall|i: int| 0 <= i < swap.removed.len() implies !has_id(
            after,
            #[trigger] swap.removed[i],
        ) by {
            let id = swap.removed[i];
            assert forall|j: int| 0 <= j < swap.outputs.len() implies (
            #[trigger] swap.outputs[j]).id != id by {
                assert(!swap.removed.contains(swap.outputs[j].id));
            }
            removed_stay_removed(list, swap.removed, swap.outputs, id);
        }
        assert forall|i: int| 0 <= i < swap.outputs.len() implies after.contains(
            #[trigger] swap.outputs[i],
        ) by {
            placing_all_places(start, swap.outputs, i);
            let id = swap.outputs[i].id;
            let k = choose|k: int| 0 <= k < after.len() && (#[trigger] after[k]).id == id;
            let first = some_is_first(after, id, k);
            first_is_unique(after, id, first);
            assert(after[first] == swap.outputs[i]);
        }
    }
}

/// One change to a manifest.
#[derive(Debug)]
pub enum ManifestEdit {
    /// Publishes the state as it is, under the epoch of the writer.
    ClaimEpoch,
    /// Creates a bucket.
    CreateBucket {
        /// Its name.
        name: String,
        /// Its options.
        options: BucketOptions,
    },
    /// Drops a bucket.
    DropBucket {
        /// Its name.
        name: String,
        /// Blob files that become deletable.
        pending: Vec<u64>,
        /// The commit from which on they are.
        sequence: Sequence,
    },
    /// Keeps a commit readable under a name.
    CreateCheckpoint {
        /// The name.
        name: String,
        /// The commit.
        sequence: Sequence,
    },
    /// Forgets a checkpoint.
    DeleteCheckpoint {
        /// Its name.
        name: String,
    },
    /// Adds flushed tables at the ends of their lists.
    PushTables {
        /// The tables, with their buckets.
        tables: Vec<(String, TableProperties)>,
        /// The new replay floor.
        wal_replay_floor: Sequence,
    },
    /// Adds flushed tables that are not there yet.
    AddTables {
        /// The tables, with their buckets.
        tables: Vec<(String, TableProperties)>,
        /// The new replay floor.
        wal_replay_floor: Sequence,
    },
    /// Puts tables in the place of others, which must exist.
    ReplaceTables {
        /// The replacements.
        replacements: Vec<Replacement>,
        /// Blob files that become deletable.
        pending: Vec<u64>,
        /// The commit from which on they are.
        sequence: Sequence,
    },
    /// Puts tables in the place of others, unless that was done already.
    SwapTables {
        /// The replacements.
        replacements: Vec<Replacement>,
        /// Blob files that become deletable.
        pending: Vec<u64>,
        /// The commit from which on they are.
        sequence: Sequence,
    },
    /// Forgets deletable blob files.
    ClearPending {
        /// The files.
        ids: Vec<u64>,
    },
}

/// What an edit gives: the next state, nothing to do, or an error.
pub open spec fn edited(
    edit: ManifestEdit,
    before: Manifest,
    result: Result<Option<ManifestState>>,
) -> bool {
    match edit {
        ManifestEdit::ClaimEpoch => result matches Ok(Some(next)) && next@ == before,
        ManifestEdit::CreateBucket { name, options } => create_bucket_edited(
            before,
            name@,
            options@,
            result,
        ),
        ManifestEdit::DropBucket { name, pending, sequence } => drop_bucket_edited(
            before,
            name@,
            pending@,
            sequence,
            result,
        ),
        ManifestEdit::CreateCheckpoint { name, sequence } => create_checkpoint_edited(
            before,
            name@,
            sequence,
            result,
        ),
        ManifestEdit::DeleteCheckpoint { name } => delete_checkpoint_edited(before, name@, result),
        ManifestEdit::PushTables { tables, wal_replay_floor } => push_tables_edited(
            before,
            rows(tables@),
            wal_replay_floor,
            result,
        ),
        ManifestEdit::AddTables { tables, wal_replay_floor } => add_tables_edited(
            before,
            rows(tables@),
            wal_replay_floor,
            result,
        ),
        ManifestEdit::ReplaceTables { replacements, pending, sequence } => replace_tables_edited(
            before,
            swaps(replacements@),
            pending@,
            sequence,
            result,
        ),
        ManifestEdit::SwapTables { replacements, pending, sequence } => swap_tables_edited(
            before,
            swaps(replacements@),
            pending@,
            sequence,
            result,
        ),
        ManifestEdit::ClearPending { ids } => match result {
            Ok(next) => clear_pending_edited(before, ids@, next),
            Err(_) => false,
        },
    }
}

impl ManifestEdit {
    /// Applies the edit to a state.
    pub fn apply(&self, state: &ManifestState) -> (result: Result<Option<ManifestState>>)
        requires
            state.wf(),
        ensures
            edited(*self, state@, result),
            result matches Ok(Some(next)) ==> next.wf(),
    {
        match self {
            ManifestEdit::ClaimEpoch => Ok(Some(state.clone())),
            ManifestEdit::CreateBucket { name, options } => create_bucket_edit(
                state,
                name.as_str(),
                options,
            ),
            ManifestEdit::DropBucket { name, pending, sequence } => drop_bucket_edit(
                state,
                name.as_str(),
                pending,
                *sequence,
            ),
            ManifestEdit::CreateCheckpoint { name, sequence } => create_checkpoint_edit(
                state,
                name.as_str(),
                *sequence,
            ),
            ManifestEdit::DeleteCheckpoint { name } => delete_checkpoint_edit(state, name.as_str()),
            ManifestEdit::PushTables { tables, wal_replay_floor } => push_tables_edit(
                state,
                tables,
                *wal_replay_floor,
            ),
            ManifestEdit::AddTables { tables, wal_replay_floor } => add_tables_edit(
                state,
                tables,
                *wal_replay_floor,
            ),
            ManifestEdit::ReplaceTables { replacements, pending, sequence } => replace_tables_edit(
                state,
                replacements,
                pending,
                *sequence,
            ),
            ManifestEdit::SwapTables { replacements, pending, sequence } => swap_tables_edit(
                state,
                replacements,
                pending,
                *sequence,
            ),
            ManifestEdit::ClearPending { ids } => Ok(clear_pending_edit(state, ids.as_slice())),
        }
    }
}

/// The replay floor that an edit sets.
pub open spec fn new_floor(edit: ManifestEdit) -> Option<Sequence> {
    match edit {
        ManifestEdit::PushTables { wal_replay_floor, .. } => Some(wal_replay_floor),
        ManifestEdit::AddTables { wal_replay_floor, .. } => Some(wal_replay_floor),
        _ => None,
    }
}

/// Every edit of a sound manifest gives a state that may follow it: no counter falls back,
/// and no bucket that stays changes its incarnation. The one thing an edit could move back is
/// the replay floor that it sets.
pub proof fn edit_may_follow(edit: ManifestEdit, before: Manifest, next: ManifestState)
    requires
        before.sorted(),
        before.buckets_sound(),
        edited(edit, before, Ok(Some(next))),
        new_floor(edit) matches Some(floor) ==> before.wal_replay_floor.0 <= floor.0,
    ensures
        before.may_become(next@),
{
    match edit {
        ManifestEdit::CreateBucket { name, options } => {
            created_bucket_may_follow(before, name@, options@, next);
        },
        _ => {},
    }
}

} // verus!
