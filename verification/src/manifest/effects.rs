//! What edits do to the buckets, tables and blob files of a manifest.
use vstd::prelude::*;

use crate::error::Result;
use crate::manifest::edits;
use crate::manifest::edits::{ManifestEdit, Replacement, Swap};
use crate::manifest::state::{Manifest, ManifestState};
use crate::options::BucketSettings;
use crate::ordered;
use crate::table::{TableId, TableProperties, TableSummary};
use crate::types::Sequence;

verus! {

/// The tables of a bucket.
pub open spec fn tables_in(manifest: Manifest, bucket: Seq<char>) -> Seq<TableSummary> {
    let lists = ordered::map_of(manifest.tables);
    if lists.dom().contains(bucket) {
        lists[bucket]
    } else {
        Seq::empty()
    }
}

/// Whether none of the replacements from `from` on removes a table of an identifier from a
/// bucket.
pub open spec fn survives(
    replacements: Seq<Replacement>,
    from: int,
    bucket: Seq<char>,
    id: TableId,
) -> bool {
    forall|j: int|
        from <= j < replacements.len() && (#[trigger] replacements[j]).0@ == bucket
            ==> !replacements[j].1@.contains(id)
}

/// Whether a replacement brings a table to a bucket.
pub open spec fn brings(
    replacement: Replacement,
    bucket: Seq<char>,
    table: TableSummary,
) -> bool {
    &&& replacement.0@ == bucket
    &&& exists|k: int| 0 <= k < replacement.2@.len() && (#[trigger] replacement.2@[k])@ == table
}

/// Whether replacements leave a table in a bucket: one of them brings it, or it was there, and
/// none after that removes it.
pub open spec fn leaves(
    replacements: Seq<Replacement>,
    old: Seq<TableSummary>,
    bucket: Seq<char>,
    table: TableSummary,
) -> bool {
    ||| old.contains(table) && survives(replacements, 0, bucket, table.id)
    ||| exists|i: int|
        0 <= i < replacements.len() && brings(#[trigger] replacements[i], bucket, table)
            && survives(replacements, i + 1, bucket, table.id)
}

/// Whether a list is another without removed tables and with outputs.
spec fn list_step(
    before: Seq<TableSummary>,
    after: Seq<TableSummary>,
    removed: Seq<TableId>,
    outputs: Seq<TableSummary>,
) -> bool {
    forall|table: TableSummary| #[trigger]
        after.contains(table) <==> (before.contains(table) && !removed.contains(table.id))
            || outputs.contains(table)
}

proof fn without_is_filter(list: Seq<TableSummary>, removed: Seq<TableId>)
    ensures
        edits::without(list, removed) == list.filter(
            |table: TableSummary| !removed.contains(table.id),
        ),
    decreases list.len(),
{
    reveal(Seq::filter);
    if list.len() > 0 {
        without_is_filter(list.drop_last(), removed);
    }
}

proof fn without_keeps_others(list: Seq<TableSummary>, removed: Seq<TableId>, table: TableSummary)
    ensures
        edits::without(list, removed).contains(table) <==> list.contains(table)
            && !removed.contains(table.id),
{
    let keep = |table: TableSummary| !removed.contains(table.id);
    without_is_filter(list, removed);
    let kept = list.filter(keep);
    if kept.contains(table) {
        list.lemma_filter_contains_rev(keep, table);
        let i = choose|i: int| 0 <= i < kept.len() && kept[i] == table;
        list.lemma_filter_pred(keep, i);
    }
    if list.contains(table) && !removed.contains(table.id) {
        let i = choose|i: int| 0 <= i < list.len() && list[i] == table;
        list.lemma_filter_contains(keep, i);
    }
}

proof fn joined_members(a: Seq<TableSummary>, b: Seq<TableSummary>, table: TableSummary)
    ensures
        (a + b).contains(table) <==> a.contains(table) || b.contains(table),
{
    let all = a + b;
    if all.contains(table) {
        let i = choose|i: int| 0 <= i < all.len() && all[i] == table;
        if i < a.len() {
            assert(a[i] == table);
        } else {
            assert(b[i - a.len()] == table);
        }
    }
    if a.contains(table) {
        let i = choose|i: int| 0 <= i < a.len() && a[i] == table;
        assert(all[i] == table);
    }
    if b.contains(table) {
        let i = choose|i: int| 0 <= i < b.len() && b[i] == table;
        assert(all[a.len() + i] == table);
    }
}

proof fn replacing_is_a_step(
    list: Seq<TableSummary>,
    removed: Seq<TableId>,
    outputs: Seq<TableSummary>,
)
    ensures
        list_step(list, edits::without(list, removed) + outputs, removed, outputs),
{
    assert forall|table: TableSummary| #[trigger]
        (edits::without(list, removed) + outputs).contains(table) <==> (list.contains(table)
            && !removed.contains(table.id)) || outputs.contains(table) by {
        joined_members(edits::without(list, removed), outputs, table);
        without_keeps_others(list, removed, table);
    }
}

proof fn placed_members(list: Seq<TableSummary>, placed: TableSummary, table: TableSummary)
    requires
        edits::placed(list, placed) is Some,
    ensures
        (edits::placed(list, placed)->0).contains(table) <==> list.contains(table) || table
            == placed,
{
    if !edits::has_id(list, placed.id) {
        assert(list.push(placed) =~= list + seq![placed]);
        joined_members(list, seq![placed], table);
        assert(seq![placed][0] == placed);
        if seq![placed].contains(table) {
            assert(table == placed);
        }
    } else {
        let i = choose|i: int| 0 <= i < list.len() && (#[trigger] list[i]).id == placed.id;
        let first = edits::some_is_first(list, placed.id, i);
        edits::first_is_unique(list, placed.id, first);
        assert(list[first] == placed);
    }
}

proof fn placed_all_members(
    list: Seq<TableSummary>,
    outputs: Seq<TableSummary>,
    table: TableSummary,
)
    requires
        edits::placed_all(list, outputs) is Some,
    ensures
        (edits::placed_all(list, outputs)->0).contains(table) <==> list.contains(table)
            || outputs.contains(table),
    decreases outputs.len(),
{
    if outputs.len() > 0 {
        let shorter = outputs.drop_last();
        placed_all_members(list, shorter, table);
        placed_members(edits::placed_all(list, shorter)->0, outputs.last(), table);
        assert(outputs =~= shorter + seq![outputs.last()]);
        joined_members(shorter, seq![outputs.last()], table);
        assert(seq![outputs.last()][0] == outputs.last());
    }
}

proof fn swapping_is_a_step(list: Seq<TableSummary>, swap: Swap)
    requires
        edits::swapped(list, swap) is Some,
    ensures
        list_step(list, edits::swapped(list, swap)->0, swap.removed, swap.outputs),
{
    let after = edits::swapped(list, swap)->0;
    assert forall|table: TableSummary| #[trigger]
        after.contains(table) <==> (list.contains(table) && !swap.removed.contains(table.id))
            || swap.outputs.contains(table) by {
        if edits::is_applied(list, swap) {
            if list.contains(table) && swap.removed.contains(table.id) {
                let i = choose|i: int| 0 <= i < list.len() && list[i] == table;
                let k = choose|k: int|
                    0 <= k < swap.removed.len() && swap.removed[k] == table.id;
                assert(edits::has_id(list, swap.removed[k]));
            }
            if swap.outputs.contains(table) {
                let k = choose|k: int| 0 <= k < swap.outputs.len() && swap.outputs[k] == table;
                assert(list.contains(swap.outputs[k]));
            }
        } else {
            placed_all_members(edits::without(list, swap.removed), swap.outputs, table);
            without_keeps_others(list, swap.removed, table);
        }
    }
}

proof fn one_more_replacement(
    replacements: Seq<Replacement>,
    old: Seq<TableSummary>,
    middle: Seq<TableSummary>,
    after: Seq<TableSummary>,
    bucket: Seq<char>,
    table: TableSummary,
)
    requires
        replacements.len() > 0,
        middle.contains(table) <==> leaves(replacements.drop_last(), old, bucket, table),
        replacements.last().0@ == bucket ==> list_step(
            middle,
            after,
            replacements.last().1@,
            replacements.last().2.deep_view(),
        ),
        replacements.last().0@ != bucket ==> after == middle,
    ensures
        after.contains(table) <==> leaves(replacements, old, bucket, table),
{
    let shorter = replacements.drop_last();
    let last = replacements.last();
    let end = shorter.len() as int;
    let id = table.id;
    let gone = last.0@ == bucket && last.1@.contains(id);
    assert(replacements[end] == last);
    assert forall|j: int| 0 <= j < end implies #[trigger] replacements[j] == shorter[j] by {}
    assert forall|from: int| 0 <= from <= end implies (#[trigger] survives(
        replacements,
        from,
        bucket,
        id,
    ) <==> survives(shorter, from, bucket, id) && !gone) by {
        if survives(replacements, from, bucket, id) {
            assert(replacements[end].0@ == bucket ==> !replacements[end].1@.contains(id));
            assert forall|j: int|
                from <= j < shorter.len() && (#[trigger] shorter[j]).0@
                    == bucket implies !shorter[j].1@.contains(id) by {
                assert(replacements[j] == shorter[j]);
            }
        }
    }
    assert(survives(replacements, end + 1, bucket, id));
    assert(last.2.deep_view().contains(table) <==> exists|k: int|
        0 <= k < last.2@.len() && (#[trigger] last.2@[k])@ == table) by {
        if last.2.deep_view().contains(table) {
            let k = choose|k: int|
                0 <= k < last.2.deep_view().len() && last.2.deep_view()[k] == table;
            assert(last.2@[k]@ == table);
        }
        if exists|k: int| 0 <= k < last.2@.len() && (#[trigger] last.2@[k])@ == table {
            let k = choose|k: int| 0 <= k < last.2@.len() && (#[trigger] last.2@[k])@ == table;
            assert(last.2.deep_view()[k] == table);
        }
    }
    if after.contains(table) {
        if brings(last, bucket, table) {
            assert(brings(replacements[end], bucket, table));
        } else {
            assert(middle.contains(table) && !gone);
            if !(old.contains(table) && survives(shorter, 0, bucket, id)) {
                let i = choose|i: int|
                    0 <= i < shorter.len() && brings(#[trigger] shorter[i], bucket, table)
                        && survives(shorter, i + 1, bucket, id);
                assert(brings(replacements[i], bucket, table));
                assert(survives(replacements, i + 1, bucket, id));
            } else {
                assert(survives(replacements, 0, bucket, id));
            }
        }
    }
    if leaves(replacements, old, bucket, table) {
        if old.contains(table) && survives(replacements, 0, bucket, id) {
            assert(survives(shorter, 0, bucket, id) && !gone);
            assert(middle.contains(table));
        } else {
            let i = choose|i: int|
                0 <= i < replacements.len() && brings(#[trigger] replacements[i], bucket, table)
                    && survives(replacements, i + 1, bucket, id);
            if i < end {
                assert(brings(shorter[i], bucket, table));
                assert(survives(shorter, i + 1, bucket, id) && !gone);
                assert(middle.contains(table));
            }
        }
    }
}

proof fn nothing_is_left_alone(old: Seq<TableSummary>, bucket: Seq<char>, table: TableSummary)
    ensures
        leaves(Seq::empty(), old, bucket, table) <==> old.contains(table),
{
    assert(survives(Seq::empty(), 0, bucket, table.id));
}

proof fn replaced_members(
    lists: Map<Seq<char>, Seq<TableSummary>>,
    replacements: Seq<Replacement>,
    bucket: Seq<char>,
    table: TableSummary,
)
    ensures
        edits::list_in(edits::replaced_all(lists, edits::swaps(replacements)), bucket).contains(
            table,
        ) <==> leaves(replacements, edits::list_in(lists, bucket), bucket, table),
    decreases replacements.len(),
{
    let all = edits::swaps(replacements);
    if replacements.len() == 0 {
        assert(replacements =~= Seq::empty());
        nothing_is_left_alone(edits::list_in(lists, bucket), bucket, table);
    } else {
        let shorter = replacements.drop_last();
        let last = replacements.last();
        assert(edits::swaps(shorter) =~= all.drop_last());
        replaced_members(lists, shorter, bucket, table);
        let middle = edits::replaced_all(lists, edits::swaps(shorter));
        let after = edits::replaced_all(lists, all);
        replacing_is_a_step(edits::list_in(middle, last.0@), last.1@, last.2.deep_view());
        one_more_replacement(
            replacements,
            edits::list_in(lists, bucket),
            edits::list_in(middle, bucket),
            edits::list_in(after, bucket),
            bucket,
            table,
        );
    }
}

proof fn swapped_members(
    lists: Map<Seq<char>, Seq<TableSummary>>,
    replacements: Seq<Replacement>,
    bucket: Seq<char>,
    table: TableSummary,
)
    requires
        edits::swapped_all(lists, edits::swaps(replacements)) is Some,
    ensures
        edits::list_in(
            edits::swapped_all(lists, edits::swaps(replacements))->0,
            bucket,
        ).contains(table) <==> leaves(
            replacements,
            edits::list_in(lists, bucket),
            bucket,
            table,
        ),
    decreases replacements.len(),
{
    let all = edits::swaps(replacements);
    if replacements.len() == 0 {
        assert(replacements =~= Seq::empty());
        nothing_is_left_alone(edits::list_in(lists, bucket), bucket, table);
    } else {
        let shorter = replacements.drop_last();
        let last = replacements.last();
        assert(edits::swaps(shorter) =~= all.drop_last());
        assert(all.last() == edits::swap_of(last));
        swapped_members(lists, shorter, bucket, table);
        let middle = edits::swapped_all(lists, edits::swaps(shorter))->0;
        let after = edits::swapped_all(lists, all)->0;
        swapping_is_a_step(edits::list_in(middle, last.0@), edits::swap_of(last));
        one_more_replacement(
            replacements,
            edits::list_in(lists, bucket),
            edits::list_in(middle, bucket),
            edits::list_in(after, bucket),
            bucket,
            table,
        );
    }
}

/// A compaction edit leaves in each bucket exactly the tables that were there and that it does
/// not remove, and those that it brings and does not remove after that. This holds whether the
/// inputs must exist or the edit may have been made already.
pub proof fn compaction_puts_outputs_in_the_place_of_inputs(
    edit: ManifestEdit,
    before: Manifest,
    next: ManifestState,
    bucket: Seq<char>,
    table: TableSummary,
)
    requires
        edits::edited(edit, before, Ok(Some(next))),
        edit is ReplaceTables || edit is SwapTables,
    ensures
        edit matches ManifestEdit::ReplaceTables { replacements, .. } ==> (tables_in(
            next@,
            bucket,
        ).contains(table) <==> leaves(
            replacements@,
            tables_in(before, bucket),
            bucket,
            table,
        )),
        edit matches ManifestEdit::SwapTables { replacements, .. } ==> (tables_in(
            next@,
            bucket,
        ).contains(table) <==> leaves(
            replacements@,
            tables_in(before, bucket),
            bucket,
            table,
        )),
{
    let lists = ordered::map_of(before.tables);
    match edit {
        ManifestEdit::ReplaceTables { replacements, .. } => {
            replaced_members(lists, replacements@, bucket, table);
        },
        ManifestEdit::SwapTables { replacements, .. } => {
            swapped_members(lists, replacements@, bucket, table);
        },
        _ => {},
    }
}

/// Whether exactly one of the replacements is of a bucket.
pub open spec fn alone_of_bucket(replacements: Seq<Replacement>, at: int) -> bool {
    &&& 0 <= at < replacements.len()
    &&& forall|j: int|
        0 <= j < replacements.len() && (#[trigger] replacements[j]).0@ == replacements[at].0@ ==> j
            == at
}

proof fn untouched_list(
    lists: Map<Seq<char>, Seq<TableSummary>>,
    replacements: Seq<Replacement>,
    bucket: Seq<char>,
)
    requires
        forall|j: int|
            0 <= j < replacements.len() ==> (#[trigger] replacements[j]).0@ != bucket,
    ensures
        edits::list_in(edits::replaced_all(lists, edits::swaps(replacements)), bucket)
            == edits::list_in(lists, bucket),
        edits::swapped_all(lists, edits::swaps(replacements)) matches Some(after)
            ==> edits::list_in(after, bucket) == edits::list_in(lists, bucket),
    decreases replacements.len(),
{
    let all = edits::swaps(replacements);
    if replacements.len() > 0 {
        let shorter = replacements.drop_last();
        assert(edits::swaps(shorter) =~= all.drop_last());
        assert(replacements[replacements.len() - 1].0@ != bucket);
        assert forall|j: int| 0 <= j < shorter.len() implies (#[trigger] shorter[j]).0@
            != bucket by {
            assert(replacements[j] == shorter[j]);
        }
        untouched_list(lists, shorter, bucket);
    }
}

proof fn list_of_lone_replacement(
    lists: Map<Seq<char>, Seq<TableSummary>>,
    replacements: Seq<Replacement>,
    at: int,
)
    requires
        alone_of_bucket(replacements, at),
    ensures
        edits::list_in(
            edits::replaced_all(lists, edits::swaps(replacements)),
            replacements[at].0@,
        ) == edits::without(edits::list_in(lists, replacements[at].0@), replacements[at].1@)
            + replacements[at].2.deep_view(),
    decreases replacements.len(),
{
    let all = edits::swaps(replacements);
    let bucket = replacements[at].0@;
    let shorter = replacements.drop_last();
    assert(edits::swaps(shorter) =~= all.drop_last());
    if at == replacements.len() - 1 {
        assert forall|j: int| 0 <= j < shorter.len() implies (#[trigger] shorter[j]).0@
            != bucket by {
            assert(replacements[j] == shorter[j]);
        }
        untouched_list(lists, shorter, bucket);
    } else {
        assert(replacements[replacements.len() - 1].0@ != bucket);
        assert(shorter[at] == replacements[at]);
        assert forall|j: int|
            0 <= j < shorter.len() && (#[trigger] shorter[j]).0@ == shorter[at].0@ implies j
            == at by {
            assert(replacements[j] == shorter[j]);
        }
        list_of_lone_replacement(lists, shorter, at);
    }
}

/// Whether outputs are new to a list: no table that stays, and no other output, has their
/// identifier.
pub open spec fn outputs_are_new(
    list: Seq<TableSummary>,
    removed: Seq<TableId>,
    outputs: Seq<TableSummary>,
) -> bool {
    &&& forall|i: int, k: int|
        0 <= i < list.len() && 0 <= k < outputs.len() && !removed.contains(list[i].id) ==> (
        #[trigger] list[i]).id != (#[trigger] outputs[k]).id
    &&& forall|i: int, j: int|
        0 <= i < j < outputs.len() ==> (#[trigger] outputs[i]).id != (#[trigger] outputs[j]).id
}

proof fn new_outputs_are_pushed(list: Seq<TableSummary>, outputs: Seq<TableSummary>)
    requires
        forall|i: int, k: int|
            0 <= i < list.len() && 0 <= k < outputs.len() ==> (#[trigger] list[i]).id != (
            #[trigger] outputs[k]).id,
        forall|i: int, j: int|
            0 <= i < j < outputs.len() ==> (#[trigger] outputs[i]).id != (#[trigger] outputs[j]).id,
    ensures
        edits::placed_all(list, outputs) == Some(list + outputs),
    decreases outputs.len(),
{
    if outputs.len() == 0 {
        assert(list + outputs =~= list);
    } else {
        let shorter = outputs.drop_last();
        let last = outputs.last();
        let end = outputs.len() - 1;
        assert forall|i: int, k: int| 0 <= i < list.len() && 0 <= k < shorter.len() implies (
        #[trigger] list[i]).id != (#[trigger] shorter[k]).id by {
            assert(outputs[k] == shorter[k]);
        }
        assert forall|i: int, j: int| 0 <= i < j < shorter.len() implies (
        #[trigger] shorter[i]).id != (#[trigger] shorter[j]).id by {
            assert(outputs[i] == shorter[i] && outputs[j] == shorter[j]);
        }
        new_outputs_are_pushed(list, shorter);
        let before = list + shorter;
        if edits::has_id(before, last.id) {
            let i = choose|i: int| 0 <= i < before.len() && (#[trigger] before[i]).id == last.id;
            if i < list.len() {
                assert(list[i].id != outputs[end].id);
            } else {
                assert(outputs[i - list.len()].id != outputs[end].id);
            }
        }
        assert(before.push(last) =~= list + outputs);
    }
}

proof fn new_outputs_come_behind(
    list: Seq<TableSummary>,
    removed: Seq<TableId>,
    outputs: Seq<TableSummary>,
)
    requires
        outputs_are_new(list, removed, outputs),
    ensures
        edits::placed_all(edits::without(list, removed), outputs) == Some(
            edits::without(list, removed) + outputs,
        ),
{
    let kept = edits::without(list, removed);
    assert forall|i: int, k: int| 0 <= i < kept.len() && 0 <= k < outputs.len() implies (
    #[trigger] kept[i]).id != (#[trigger] outputs[k]).id by {
        assert(kept.contains(kept[i]));
        without_keeps_others(list, removed, kept[i]);
        let n = choose|n: int| 0 <= n < list.len() && list[n] == kept[i];
        assert(list[n].id != outputs[k].id);
    }
    new_outputs_are_pushed(kept, outputs);
}

/// The tables that a compaction does not remove keep their order, and its outputs come behind
/// them in theirs. A bucket that it does not name keeps its list.
pub proof fn compaction_keeps_order(
    edit: ManifestEdit,
    before: Manifest,
    next: ManifestState,
    at: int,
    other: Seq<char>,
)
    requires
        edits::edited(edit, before, Ok(Some(next))),
    ensures
        edit matches ManifestEdit::ReplaceTables { replacements, .. } ==> (alone_of_bucket(
            replacements@,
            at,
        ) ==> tables_in(next@, replacements@[at].0@) == tables_in(
            before,
            replacements@[at].0@,
        ).filter(|table: TableSummary| !replacements@[at].1@.contains(table.id))
            + replacements@[at].2.deep_view()),
        edit matches ManifestEdit::ReplaceTables { replacements, .. } ==> ((forall|j: int|
            0 <= j < replacements@.len() ==> (#[trigger] replacements@[j]).0@ != other)
            ==> tables_in(next@, other) == tables_in(before, other)),
        edit matches ManifestEdit::SwapTables { replacements, .. } ==> ((forall|j: int|
            0 <= j < replacements@.len() ==> (#[trigger] replacements@[j]).0@ != other)
            ==> tables_in(next@, other) == tables_in(before, other)),
{
    let lists = ordered::map_of(before.tables);
    match edit {
        ManifestEdit::ReplaceTables { replacements, .. } => {
            if alone_of_bucket(replacements@, at) {
                list_of_lone_replacement(lists, replacements@, at);
                without_is_filter(
                    edits::list_in(lists, replacements@[at].0@),
                    replacements@[at].1@,
                );
            }
            if forall|j: int|
                0 <= j < replacements@.len() ==> (#[trigger] replacements@[j]).0@ != other {
                untouched_list(lists, replacements@, other);
            }
        },
        ManifestEdit::SwapTables { replacements, .. } => {
            if forall|j: int|
                0 <= j < replacements@.len() ==> (#[trigger] replacements@[j]).0@ != other {
                untouched_list(lists, replacements@, other);
            }
        },
        _ => {},
    }
}

/// A compaction of one bucket whose inputs are all there and whose outputs are new gives the
/// same list by either kind of edit.
pub proof fn both_compaction_edits_agree(
    list: Seq<TableSummary>,
    swap: Swap,
)
    requires
        swap.removed.len() > 0,
        forall|k: int|
            0 <= k < swap.removed.len() ==> exists|i: int|
                0 <= i < list.len() && (#[trigger] list[i]).id == #[trigger] swap.removed[k],
        outputs_are_new(list, swap.removed, swap.outputs),
    ensures
        edits::swapped(list, swap) == Some(
            list.filter(|table: TableSummary| !swap.removed.contains(table.id)) + swap.outputs,
        ),
{
    without_is_filter(list, swap.removed);
    new_outputs_come_behind(list, swap.removed, swap.outputs);
    assert(edits::has_id(list, swap.removed[0])) by {
        let i = choose|i: int| 0 <= i < list.len() && (#[trigger] list[i]).id == swap.removed[0];
        assert(list[i].id == swap.removed[0]);
    }
    assert(!edits::is_applied(list, swap));
}

/// The tables that rows add to a bucket, in order.
pub open spec fn tables_for(
    tables: Seq<(String, TableProperties)>,
    bucket: Seq<char>,
) -> Seq<TableSummary>
    decreases tables.len(),
{
    if tables.len() == 0 {
        Seq::empty()
    } else if tables.last().0@ == bucket {
        tables_for(tables.drop_last(), bucket).push(tables.last().1@)
    } else {
        tables_for(tables.drop_last(), bucket)
    }
}

proof fn pushed_lists(
    lists: Map<Seq<char>, Seq<TableSummary>>,
    tables: Seq<(String, TableProperties)>,
    bucket: Seq<char>,
)
    ensures
        edits::list_in(edits::pushed(lists, edits::rows(tables)), bucket) == edits::list_in(
            lists,
            bucket,
        ) + tables_for(tables, bucket),
    decreases tables.len(),
{
    let all = edits::rows(tables);
    if tables.len() == 0 {
        assert(edits::list_in(lists, bucket) + tables_for(tables, bucket) =~= edits::list_in(
            lists,
            bucket,
        ));
    } else {
        assert(edits::rows(tables.drop_last()) =~= all.drop_last());
        pushed_lists(lists, tables.drop_last(), bucket);
        let shorter = tables_for(tables.drop_last(), bucket);
        let old = edits::list_in(lists, bucket);
        if tables.last().0@ == bucket {
            assert((old + shorter).push(tables.last().1@) =~= old + shorter.push(
                tables.last().1@,
            ));
        }
    }
}

/// Whether rows add a table to a bucket.
pub open spec fn adds(
    tables: Seq<(String, TableProperties)>,
    bucket: Seq<char>,
    table: TableSummary,
) -> bool {
    exists|i: int|
        0 <= i < tables.len() && (#[trigger] tables[i]).0@ == bucket && tables[i].1@ == table
}

proof fn added_lists(
    lists: Map<Seq<char>, Seq<TableSummary>>,
    tables: Seq<(String, TableProperties)>,
    bucket: Seq<char>,
    table: TableSummary,
)
    requires
        edits::added(lists, edits::rows(tables)) is Some,
    ensures
        ({
            let after = edits::list_in(edits::added(lists, edits::rows(tables))->0, bucket);
            let old = edits::list_in(lists, bucket);
            &&& after.contains(table) <==> old.contains(table) || adds(tables, bucket, table)
            &&& old.len() <= after.len()
            &&& after.take(old.len() as int) == old
            &&& distinct_ids(old) ==> distinct_ids(after)
        }),
    decreases tables.len(),
{
    let all = edits::rows(tables);
    let old = edits::list_in(lists, bucket);
    if tables.len() == 0 {
        assert(old.take(old.len() as int) =~= old);
    } else {
        let shorter = tables.drop_last();
        let last = tables.last();
        let end = shorter.len() as int;
        assert(edits::rows(shorter) =~= all.drop_last());
        added_lists(lists, shorter, bucket, table);
        let middle = edits::added(lists, edits::rows(shorter))->0;
        let list = edits::list_in(middle, last.0@);
        let after = edits::list_in(edits::added(lists, all)->0, bucket);
        assert(tables[end] == last);
        assert(adds(tables, bucket, table) <==> adds(shorter, bucket, table) || (last.0@ == bucket
            && last.1@ == table)) by {
            if adds(tables, bucket, table) {
                let i = choose|i: int|
                    0 <= i < tables.len() && (#[trigger] tables[i]).0@ == bucket && tables[i].1@
                        == table;
                if i < end {
                    assert(shorter[i] == tables[i]);
                }
            }
            if adds(shorter, bucket, table) {
                let i = choose|i: int|
                    0 <= i < shorter.len() && (#[trigger] shorter[i]).0@ == bucket && shorter[i].1@
                        == table;
                assert(tables[i] == shorter[i]);
            }
        }
        if last.0@ == bucket {
            placed_members(list, last.1@, table);
            assert(after == edits::placed(list, last.1@)->0);
            if !edits::has_id(list, last.1@.id) {
                assert(after.take(old.len() as int) =~= list.take(old.len() as int));
                if distinct_ids(list) {
                    assert forall|i: int, j: int| 0 <= i < j < after.len() implies (
                    #[trigger] after[i]).id != (#[trigger] after[j]).id by {
                        assert(after[i] == list[i]);
                        if j < list.len() {
                            assert(after[j] == list[j]);
                        }
                    }
                }
            }
        }
    }
}

/// Whether no identifier occurs twice in a list.
pub open spec fn distinct_ids(list: Seq<TableSummary>) -> bool {
    forall|i: int, j: int|
        0 <= i < j < list.len() ==> (#[trigger] list[i]).id != (#[trigger] list[j]).id
}

/// Adding flushed tables leaves every table that was there where it was, puts each added table
/// behind them in the bucket that it is for, adds nothing else, and sets the replay floor.
/// Tables that are added once do not make an identifier occur twice.
pub proof fn flushed_tables_are_added(
    edit: ManifestEdit,
    before: Manifest,
    next: ManifestState,
    bucket: Seq<char>,
    table: TableSummary,
)
    requires
        edits::edited(edit, before, Ok(Some(next))),
    ensures
        edit matches ManifestEdit::PushTables { tables, wal_replay_floor } ==> tables_in(
            next@,
            bucket,
        ) == tables_in(before, bucket) + tables_for(tables@, bucket)
            && next@.wal_replay_floor == wal_replay_floor,
        edit matches ManifestEdit::AddTables { tables, wal_replay_floor } ==> {
            let old = tables_in(before, bucket);
            let new = tables_in(next@, bucket);
            &&& new.contains(table) <==> old.contains(table) || adds(tables@, bucket, table)
            &&& old.len() <= new.len()
            &&& new.take(old.len() as int) == old
            &&& distinct_ids(old) ==> distinct_ids(new)
            &&& next@.wal_replay_floor == wal_replay_floor
        },
{
    let lists = ordered::map_of(before.tables);
    match edit {
        ManifestEdit::PushTables { tables, .. } => {
            pushed_lists(lists, tables@, bucket);
        },
        ManifestEdit::AddTables { tables, .. } => {
            added_lists(lists, tables@, bucket, table);
        },
        _ => {},
    }
}

/// Whether an edit names a blob file as deletable.
pub open spec fn marks(edit: ManifestEdit, id: u64) -> Option<Sequence> {
    match edit {
        ManifestEdit::DropBucket { pending, sequence, .. } => if pending@.contains(id) {
            Some(sequence)
        } else {
            None
        },
        ManifestEdit::ReplaceTables { pending, sequence, .. } => if pending@.contains(id) {
            Some(sequence)
        } else {
            None
        },
        ManifestEdit::SwapTables { pending, sequence, .. } => if pending@.contains(id) {
            Some(sequence)
        } else {
            None
        },
        _ => None,
    }
}

/// Whether an edit forgets a blob file that was deletable.
pub open spec fn forgets(edit: ManifestEdit, id: u64) -> bool {
    match edit {
        ManifestEdit::ClearPending { ids } => ids@.contains(id),
        _ => false,
    }
}

/// A blob file is deletable after an edit exactly if it was before and the edit does not forget
/// it, or the edit names it. One that was deletable keeps its commit; another gets the commit of
/// the edit.
pub proof fn deletable_files_are_tracked(
    edit: ManifestEdit,
    before: Manifest,
    next: ManifestState,
    id: u64,
)
    requires
        edits::edited(edit, before, Ok(Some(next))),
    ensures
        ({
            let old = ordered::map_of(before.pending_blob_deletions);
            let new = ordered::map_of(next@.pending_blob_deletions);
            let forgotten = forgets(edit, id);
            &&& new.dom().contains(id) <==> (old.dom().contains(id) && !forgotten) || marks(
                edit,
                id,
            ) is Some
            &&& new.dom().contains(id) && old.dom().contains(id) ==> new[id] == old[id]
            &&& new.dom().contains(id) && !old.dom().contains(id) ==> Some(new[id]) == marks(
                edit,
                id,
            )
        }),
{
}

/// Creating a bucket adds it with its options, with no tables, and with an incarnation that no
/// bucket had; every other bucket stays as it was.
pub proof fn created_bucket_is_there(
    before: Manifest,
    name: Seq<char>,
    options: BucketSettings,
    next: ManifestState,
    other: Seq<char>,
)
    requires
        edits::create_bucket_edited(before, name, options, Ok(Some(next))),
    ensures
        !ordered::map_of(before.buckets).dom().contains(name),
        ordered::map_of(next@.buckets).dom().contains(name),
        ordered::map_of(next@.buckets)[name] == options,
        ordered::map_of(next@.tables).dom().contains(name),
        !ordered::map_of(before.tables).dom().contains(name) ==> tables_in(next@, name).len() == 0,
        ordered::map_of(next@.bucket_generations).dom().contains(name),
        ordered::map_of(next@.bucket_generations)[name] == before.next_bucket_generation,
        next@.next_bucket_generation > before.next_bucket_generation,
        other != name ==> same_bucket(before, next@, other),
{
}

/// Whether a bucket is the same in two manifests.
pub open spec fn same_bucket(a: Manifest, b: Manifest, name: Seq<char>) -> bool {
    let mine = ordered::map_of(a.buckets);
    let theirs = ordered::map_of(b.buckets);
    let old = ordered::map_of(a.bucket_generations);
    let new = ordered::map_of(b.bucket_generations);
    &&& mine.dom().contains(name) == theirs.dom().contains(name)
    &&& mine.dom().contains(name) ==> mine[name] == theirs[name]
    &&& old.dom().contains(name) == new.dom().contains(name)
    &&& old.dom().contains(name) ==> old[name] == new[name]
    &&& tables_in(a, name) == tables_in(b, name)
}

/// Dropping a bucket leaves no trace of it, and every other bucket as it was.
pub proof fn dropped_bucket_is_gone(
    before: Manifest,
    name: Seq<char>,
    pending: Seq<u64>,
    sequence: Sequence,
    next: ManifestState,
    other: Seq<char>,
)
    requires
        edits::drop_bucket_edited(before, name, pending, sequence, Ok(Some(next))),
    ensures
        ordered::map_of(before.buckets).dom().contains(name),
        !ordered::map_of(next@.buckets).dom().contains(name),
        !ordered::map_of(next@.bucket_generations).dom().contains(name),
        !ordered::map_of(next@.tables).dom().contains(name),
        other != name ==> same_bucket(before, next@, other),
        next@.next_bucket_generation == before.next_bucket_generation,
{
}

/// A checkpoint that was created is found under its name, at its commit, until it is deleted;
/// the other checkpoints stay, and deleting it gives back what was there before.
pub proof fn checkpoints_are_kept_until_deleted(
    before: Manifest,
    name: Seq<char>,
    sequence: Sequence,
    next: ManifestState,
    last: ManifestState,
    other: Seq<char>,
)
    requires
        edits::create_checkpoint_edited(before, name, sequence, Ok(Some(next))),
        edits::delete_checkpoint_edited(next@, name, Ok(Some(last))),
    ensures
        ordered::map_of(next@.checkpoints).dom().contains(name),
        ordered::map_of(next@.checkpoints)[name] == sequence,
        other != name ==> ordered::map_of(next@.checkpoints).dom().contains(other)
            == ordered::map_of(before.checkpoints).dom().contains(other),
        other != name && ordered::map_of(before.checkpoints).dom().contains(other)
            ==> ordered::map_of(next@.checkpoints)[other] == ordered::map_of(
            before.checkpoints,
        )[other],
        !ordered::map_of(last@.checkpoints).dom().contains(name),
        ordered::map_of(last@.checkpoints) == ordered::map_of(before.checkpoints),
{
    assert(ordered::map_of(last@.checkpoints) =~= ordered::map_of(before.checkpoints));
}

/// An edit changes only what it is about: the buckets and their incarnations only by creating or
/// dropping one, the checkpoints only by creating or deleting one, the replay floor only by
/// adding tables, and the counters of files and writers never.
pub proof fn edits_change_only_what_they_are_about(
    edit: ManifestEdit,
    before: Manifest,
    next: ManifestState,
)
    requires
        edits::edited(edit, before, Ok(Some(next))),
    ensures
        next@.next_file_id == before.next_file_id,
        next@.writer_epoch == before.writer_epoch,
        !(edit is CreateBucket) ==> next@.next_bucket_generation == before.next_bucket_generation,
        !(edit is CreateBucket) && !(edit is DropBucket) ==> next@.buckets == before.buckets
            && next@.bucket_generations == before.bucket_generations,
        !(edit is CreateCheckpoint) && !(edit is DeleteCheckpoint) ==> next@.checkpoints
            == before.checkpoints,
        !(edit is PushTables) && !(edit is AddTables) ==> next@.wal_replay_floor
            == before.wal_replay_floor,
        edit is ClaimEpoch ==> next@ == before,
        edit is CreateCheckpoint || edit is DeleteCheckpoint || edit is ClearPending
            ==> next@.tables == before.tables,
{
}

/// Whether a list has a table of an identifier.
pub open spec fn has_table(list: Seq<TableSummary>, id: TableId) -> bool {
    exists|i: int| 0 <= i < list.len() && (#[trigger] list[i]).id == id
}

/// Whether a bucket lacks its list, or a table that is to be removed.
pub open spec fn lacks_inputs(before: Manifest, replacement: Replacement) -> bool {
    let lists = ordered::map_of(before.tables);
    ||| !ordered::map_of(before.buckets).dom().contains(replacement.0@)
    ||| !lists.dom().contains(replacement.0@)
    ||| exists|k: int|
        0 <= k < replacement.1@.len() && !has_table(
            lists[replacement.0@],
            #[trigger] replacement.1@[k],
        )
}

/// An edit is refused exactly where it contradicts the manifest: a bucket that exists with other
/// options, or that is to be dropped or added to and does not exist; a checkpoint that exists, or
/// that is to be deleted and does not; a table that is to be removed and is not there. Forgetting
/// files and claiming an epoch is never refused.
pub proof fn edits_are_refused_where_they_contradict(
    edit: ManifestEdit,
    before: Manifest,
    result: Result<Option<ManifestState>>,
)
    requires
        edits::edited(edit, before, result),
    ensures
        edit matches ManifestEdit::CreateBucket { name, options } ==> {
            let buckets = ordered::map_of(before.buckets);
            &&& (result is Ok && result->Ok_0 is None) <==> buckets.dom().contains(name@)
                && buckets[name@] == options@
            &&& result is Err <==> (buckets.dom().contains(name@) && buckets[name@] != options@)
                || (!buckets.dom().contains(name@) && before.next_bucket_generation == u64::MAX)
        },
        edit matches ManifestEdit::DropBucket { name, .. } ==> (result is Err
            <==> !ordered::map_of(before.buckets).dom().contains(name@)),
        edit matches ManifestEdit::CreateCheckpoint { name, .. } ==> (result is Err
            <==> ordered::map_of(before.checkpoints).dom().contains(name@)),
        edit matches ManifestEdit::DeleteCheckpoint { name } ==> (result is Err
            <==> !ordered::map_of(before.checkpoints).dom().contains(name@)),
        edit matches ManifestEdit::PushTables { tables, .. } ==> (result is Err <==> exists|i: int|
            0 <= i < tables@.len() && !ordered::map_of(before.buckets).dom().contains(
                (#[trigger] tables@[i]).0@,
            )),
        edit matches ManifestEdit::ReplaceTables { replacements, .. } ==> (result is Err
            <==> exists|i: int|
            0 <= i < replacements@.len() && lacks_inputs(before, #[trigger] replacements@[i])),
        edit is ClaimEpoch || edit is ClearPending ==> result is Ok,
{
    match edit {
        ManifestEdit::CreateBucket { name, options } => {
            if result is Ok && result->Ok_0 is Some {
                let next = result->Ok_0->0;
                assert(next@.next_bucket_generation <= u64::MAX);
            }
        },
        ManifestEdit::PushTables { tables, .. } => {
            let all = edits::rows(tables@);
            let buckets = ordered::map_of(before.buckets);
            if result is Err {
                let i = choose|i: int|
                    0 <= i < all.len() && !buckets.dom().contains((#[trigger] all[i]).0);
                assert(!buckets.dom().contains(tables@[i].0@));
            } else {
                assert forall|i: int| 0 <= i < tables@.len() implies buckets.dom().contains(
                    (#[trigger] tables@[i]).0@,
                ) by {
                    assert(buckets.dom().contains(all[i].0));
                }
            }
        },
        ManifestEdit::ReplaceTables { replacements, .. } => {
            let all = edits::swaps(replacements@);
            assert forall|i: int| 0 <= i < replacements@.len() implies (lacks_inputs(
                before,
                #[trigger] replacements@[i],
            ) <==> !has_inputs(before, all[i])) by {
                inputs_are_there(before, replacements@[i]);
            }
            if result is Err {
                let i = choose|i: int| 0 <= i < all.len() && !has_inputs(before, #[trigger] all[i]);
                assert(lacks_inputs(before, replacements@[i]));
            } else {
                assert forall|i: int| 0 <= i < replacements@.len() implies !lacks_inputs(
                    before,
                    #[trigger] replacements@[i],
                ) by {
                    assert(has_inputs(before, all[i]));
                }
            }
        },
        _ => {},
    }
}

spec fn has_inputs(before: Manifest, swap: Swap) -> bool {
    let lists = ordered::map_of(before.tables);
    &&& ordered::map_of(before.buckets).dom().contains(swap.bucket)
    &&& lists.dom().contains(swap.bucket)
    &&& edits::all_present(lists[swap.bucket], swap.removed)
}

proof fn inputs_are_there(before: Manifest, replacement: Replacement)
    ensures
        lacks_inputs(before, replacement) <==> !has_inputs(before, edits::swap_of(replacement)),
{
    let lists = ordered::map_of(before.tables);
    let list = lists[replacement.0@];
    let removed = replacement.1@;
    assert forall|id: TableId| #[trigger] has_table(list, id) <==> edits::has_id(list, id) by {
        if has_table(list, id) {
            let i = choose|i: int| 0 <= i < list.len() && (#[trigger] list[i]).id == id;
            assert(list[i].id == id);
        }
    }
    if !edits::all_present(list, removed) {
        let k = choose|k: int|
            0 <= k < removed.len() && !edits::has_id(list, #[trigger] removed[k]);
        assert(!has_table(list, removed[k]));
    } else {
        assert forall|k: int| 0 <= k < removed.len() implies has_table(
            list,
            #[trigger] removed[k],
        ) by {
            assert(edits::has_id(list, removed[k]));
        }
    }
}

/// An edit that finds nothing to do has been made already: the bucket exists with its options, the
/// flushed tables are in their buckets and the floor is set, the compaction has taken place, the
/// files that it forgets are not waiting.
pub proof fn nothing_to_do_means_already_done(
    edit: ManifestEdit,
    before: Manifest,
    bucket: Seq<char>,
    table: TableSummary,
    id: u64,
)
    requires
        edits::edited(edit, before, Ok(None)),
    ensures
        edit matches ManifestEdit::CreateBucket { name, options } ==> ordered::map_of(
            before.buckets,
        ).dom().contains(name@) && ordered::map_of(before.buckets)[name@] == options@,
        edit matches ManifestEdit::AddTables { tables, wal_replay_floor } ==> (adds(
            tables@,
            bucket,
            table,
        ) ==> tables_in(before, bucket).contains(table)) && wal_replay_floor
            == before.wal_replay_floor,
        edit matches ManifestEdit::SwapTables { replacements, .. } ==> (tables_in(
            before,
            bucket,
        ).contains(table) <==> leaves(
            replacements@,
            tables_in(before, bucket),
            bucket,
            table,
        )),
        edit matches ManifestEdit::SwapTables { pending, .. } ==> (pending@.contains(id)
            ==> ordered::map_of(before.pending_blob_deletions).dom().contains(id)),
        edit matches ManifestEdit::ClearPending { ids } ==> (ids@.contains(id) ==> !ordered::map_of(
            before.pending_blob_deletions,
        ).dom().contains(id)),
        !(edit is DropBucket),
        !(edit is PushTables),
        !(edit is ReplaceTables),
        !(edit is CreateCheckpoint),
        !(edit is DeleteCheckpoint),
{
    let lists = ordered::map_of(before.tables);
    match edit {
        ManifestEdit::AddTables { tables, .. } => {
            added_lists(lists, tables@, bucket, table);
        },
        ManifestEdit::SwapTables { replacements, pending, sequence } => {
            swapped_members(lists, replacements@, bucket, table);
            let files = ordered::map_of(before.pending_blob_deletions);
            assert(edits::marked(files, pending@, sequence).dom().contains(id) <==> files.dom().contains(
                id,
            ) || pending@.contains(id));
        },
        ManifestEdit::ClearPending { ids } => {
            let files = ordered::map_of(before.pending_blob_deletions);
            assert(edits::cleared(files, ids@).dom().contains(id) <==> files.dom().contains(id)
                && !ids@.contains(id));
        },
        _ => {},
    }
}

/// Adding a table is refused where its bucket has another table of the same identifier.
pub proof fn other_tables_of_an_identifier_are_not_replaced(
    edit: ManifestEdit,
    before: Manifest,
    result: Result<Option<ManifestState>>,
    bucket: Seq<char>,
    old: TableSummary,
    new: TableSummary,
)
    requires
        edits::edited(edit, before, result),
        edit matches ManifestEdit::AddTables { tables, .. } && adds(tables@, bucket, new),
        distinct_ids(tables_in(before, bucket)),
        tables_in(before, bucket).contains(old),
        old.id == new.id,
        old != new,
    ensures
        result is Err,
{
    let lists = ordered::map_of(before.tables);
    let tables = edit->AddTables_tables;
    if edits::added(lists, edits::rows(tables@)) is Some {
        added_lists(lists, tables@, bucket, old);
        added_lists(lists, tables@, bucket, new);
        let after = edits::list_in(edits::added(lists, edits::rows(tables@))->0, bucket);
        let i = choose|i: int| 0 <= i < after.len() && after[i] == old;
        let j = choose|j: int| 0 <= j < after.len() && after[j] == new;
        assert(i != j);
    }
}

/// A compaction is refused where a bucket has no list, or has some of the inputs but not all: it is
/// made as a whole or not at all.
pub proof fn half_made_compactions_are_refused(
    edit: ManifestEdit,
    before: Manifest,
    result: Result<Option<ManifestState>>,
    i: int,
    there: int,
    gone: int,
)
    requires
        edits::edited(edit, before, result),
        edit matches ManifestEdit::SwapTables { replacements, .. } && 0 <= i < replacements@.len()
            && 0 <= there < replacements@[i].1@.len() && 0 <= gone < replacements@[i].1@.len()
            && has_table(tables_in(before, replacements@[i].0@), replacements@[i].1@[there])
            && !has_table(tables_in(before, replacements@[i].0@), replacements@[i].1@[gone]),
    ensures
        result is Err,
{
    let lists = ordered::map_of(before.tables);
    let replacements = edit->SwapTables_replacements;
    let swap = edits::swaps(replacements@)[i];
    assert(swap == edits::swap_of(replacements@[i]));
    if lists.dom().contains(swap.bucket) {
        let list = lists[swap.bucket];
        assert(edits::has_id(list, swap.removed[there]));
        assert(!edits::has_id(list, swap.removed[gone]));
        assert(!edits::none_present(list, swap.removed));
        assert(!edits::all_present(list, swap.removed));
    }
    assert(!edits::may_swap(lists, swap));
}

} // verus!
