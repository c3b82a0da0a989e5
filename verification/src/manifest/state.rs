//! What a manifest records, and the rules it keeps.
use std::collections::BTreeMap;
use vstd::prelude::*;
use vstd::string::*;

use crate::error::{Error, ErrorKind, Result};
use crate::options::{BucketOptions, BucketSettings};
use crate::ordered;
use crate::ordered::{list_id_pairs, same_ids};
use crate::ordered::{Modelled, NameMap};
use crate::table::{TableId, TableProperties, TableSummary};
use crate::text;
use crate::types::Sequence;

verus! {

impl DeepView for BucketOptions {
    type V = BucketSettings;

    open spec fn deep_view(&self) -> BucketSettings {
        self@
    }
}

impl Modelled for BucketOptions {
    fn copy_model(&self) -> (copy: BucketOptions) {
        self.clone()
    }

    fn same_model(&self, other: &BucketOptions) -> (same: bool) {
        self.same(other)
    }
}

impl DeepView for TableProperties {
    type V = TableSummary;

    open spec fn deep_view(&self) -> TableSummary {
        self@
    }
}

impl Modelled for Vec<TableProperties> {
    fn copy_model(&self) -> (copy: Vec<TableProperties>) {
        let mut copy: Vec<TableProperties> = Vec::with_capacity(self.len());
        let mut i: usize = 0;
        while i < self.len()
            invariant
                i <= self@.len(),
                copy@.len() == i,
                forall|j: int| 0 <= j < i ==> (#[trigger] copy@[j])@ == self@[j]@,
            decreases self@.len() - i,
        {
            copy.push(self[i].clone());
            i += 1;
        }
        proof {
            assert(copy.deep_view() =~= self.deep_view());
        }
        copy
    }

    fn same_model(&self, other: &Vec<TableProperties>) -> (same: bool) {
        if self.len() != other.len() {
            assert(self.deep_view().len() != other.deep_view().len());
            return false;
        }
        let mut i: usize = 0;
        while i < self.len()
            invariant
                self@.len() == other@.len(),
                i <= self@.len(),
                forall|j: int| 0 <= j < i ==> self@[j]@ == (#[trigger] other@[j])@,
            decreases self@.len() - i,
        {
            if !self[i].same(&other[i]) {
                assert(self.deep_view()[i as int] != other.deep_view()[i as int]);
                return false;
            }
            i += 1;
        }
        proof {
            assert(self.deep_view() =~= other.deep_view());
        }
        true
    }
}

/// What a manifest records.
#[derive(Debug, PartialEq, Eq)]
pub struct ManifestState {
    /// Last commit that need not be replayed from the log.
    pub wal_replay_floor: Sequence,
    /// Options of each bucket.
    pub buckets: NameMap<BucketOptions>,
    /// Incarnation of each bucket.
    pub bucket_generations: NameMap<u64>,
    /// Tables of each bucket.
    pub tables: NameMap<Vec<TableProperties>>,
    /// Blob files that may be deleted, with the commit from which on.
    pub pending_blob_deletions: BTreeMap<u64, Sequence>,
    /// Named commits that are kept readable.
    pub checkpoints: NameMap<Sequence>,
    /// First file identifier that is not reserved yet.
    ///
    /// It advances before the files are written: a crash may leave a gap, but no
    /// identifier is used twice.
    pub next_file_id: u64,
    /// First bucket incarnation that is not used yet.
    pub next_bucket_generation: u64,
    /// Epoch of the writer that published the manifest last.
    pub writer_epoch: u64,
}

impl Clone for ManifestState {
    fn clone(&self) -> (copy: ManifestState)
        ensures
            copy@ == self@,
            copy.wf() == self.wf(),
    {
        ManifestState {
            wal_replay_floor: self.wal_replay_floor,
            buckets: self.buckets.copy(),
            bucket_generations: self.bucket_generations.copy(),
            tables: self.tables.copy(),
            pending_blob_deletions: self.pending_blob_deletions.clone(),
            checkpoints: self.checkpoints.copy(),
            next_file_id: self.next_file_id,
            next_bucket_generation: self.next_bucket_generation,
            writer_epoch: self.writer_epoch,
        }
    }
}

/// Mathematical form of a [`ManifestState`].
#[verifier::ext_equal]
pub struct Manifest {
    /// See [`ManifestState`].
    pub wal_replay_floor: Sequence,
    /// See [`ManifestState`].
    pub buckets: Seq<(Seq<char>, BucketSettings)>,
    /// See [`ManifestState`].
    pub bucket_generations: Seq<(Seq<char>, u64)>,
    /// See [`ManifestState`].
    pub tables: Seq<(Seq<char>, Seq<TableSummary>)>,
    /// See [`ManifestState`].
    pub pending_blob_deletions: Seq<(u64, Sequence)>,
    /// See [`ManifestState`].
    pub checkpoints: Seq<(Seq<char>, Sequence)>,
    /// See [`ManifestState`].
    pub next_file_id: u64,
    /// See [`ManifestState`].
    pub next_bucket_generation: u64,
    /// See [`ManifestState`].
    pub writer_epoch: u64,
}

impl View for ManifestState {
    type V = Manifest;

    open spec fn view(&self) -> Manifest {
        Manifest {
            wal_replay_floor: self.wal_replay_floor,
            buckets: self.buckets.pairs(),
            bucket_generations: self.bucket_generations.pairs(),
            tables: self.tables.pairs(),
            pending_blob_deletions: ordered::id_pairs(self.pending_blob_deletions@),
            checkpoints: self.checkpoints.pairs(),
            next_file_id: self.next_file_id,
            next_bucket_generation: self.next_bucket_generation,
            writer_epoch: self.writer_epoch,
        }
    }
}

/// The names of a list of pairs.
pub open spec fn names_of<T>(pairs: Seq<(Seq<char>, T)>) -> Seq<Seq<char>> {
    Seq::new(pairs.len(), |i: int| pairs[i].0)
}

/// Whether a table is stored in, or refers to, the file.
pub open spec fn table_uses(table: TableSummary, id: u64) -> bool {
    table.id.0 == id || table.blob_file_ids.contains(id)
}

/// Whether a table of the list uses the file.
pub open spec fn list_uses(list: Seq<TableSummary>, id: u64) -> bool {
    exists|i: int| 0 <= i < list.len() && table_uses(#[trigger] list[i], id)
}

/// Whether a table of a bucket uses the file.
pub open spec fn tables_use(tables: Seq<(Seq<char>, Seq<TableSummary>)>, id: u64) -> bool {
    exists|i: int| 0 <= i < tables.len() && list_uses((#[trigger] tables[i]).1, id)
}

/// The table identifiers of all buckets, in order.
pub open spec fn table_ids(tables: Seq<(Seq<char>, Seq<TableSummary>)>) -> Seq<u64>
    decreases tables.len(),
{
    if tables.len() == 0 {
        Seq::empty()
    } else {
        table_ids(tables.drop_last()) + list_ids(tables.last().1)
    }
}

/// The table identifiers of a list, in order.
pub open spec fn list_ids(list: Seq<TableSummary>) -> Seq<u64> {
    Seq::new(list.len(), |i: int| list[i].id.0)
}

/// Whether identifiers are nonzero and distinct.
pub open spec fn ids_sound(ids: Seq<u64>) -> bool {
    &&& forall|i: int| 0 <= i < ids.len() ==> #[trigger] ids[i] != 0
    &&& forall|i: int, j: int| 0 <= i < j < ids.len() ==> #[trigger] ids[i] != #[trigger] ids[j]
}

/// Whether no table of a list refers to blob file zero.
pub open spec fn list_blobs_sound(list: Seq<TableSummary>) -> bool {
    forall|i: int| 0 <= i < list.len() ==> !(#[trigger] list[i]).blob_file_ids.contains(0)
}

/// The tables of all buckets, in order.
pub open spec fn all_tables(tables: Seq<(Seq<char>, Seq<TableSummary>)>) -> Seq<TableSummary>
    decreases tables.len(),
{
    if tables.len() == 0 {
        Seq::empty()
    } else {
        all_tables(tables.drop_last()) + tables.last().1
    }
}

/// What is wrong with a table that comes after others.
pub open spec fn table_fault(before: Seq<TableSummary>, table: TableSummary) -> Option<Seq<char>> {
    if table.id.0 == 0 || list_ids(before).contains(table.id.0) {
        Some(
            "manifest contains invalid or duplicate table id "@ + text::decimal(
                table.id.0 as nat,
            ),
        )
    } else if table.blob_file_ids.contains(0) {
        Some("manifest contains zero live blob file id"@)
    } else {
        None
    }
}

/// What is wrong with the first table that something is wrong with.
pub open spec fn tables_fault(tables: Seq<TableSummary>) -> Option<Seq<char>>
    decreases tables.len(),
{
    if tables.len() == 0 {
        None
    } else {
        match tables_fault(tables.drop_last()) {
            Some(text) => Some(text),
            None => table_fault(tables.drop_last(), tables.last()),
        }
    }
}

impl Manifest {
    /// Whether a table, or a pending deletion, uses the file.
    pub open spec fn uses_file(self, id: u64) -> bool {
        tables_use(self.tables, id) || ordered::has_key(self.pending_blob_deletions, id)
    }

    /// Whether every used file identifier is reserved.
    pub open spec fn files_reserved(self) -> bool {
        &&& self.next_file_id >= 1
        &&& forall|id: u64| #[trigger] self.uses_file(id) ==> id < self.next_file_id
    }

    /// Whether the generation counter is above every generation.
    pub open spec fn generations_sound(self) -> bool {
        &&& self.next_bucket_generation >= 1
        &&& forall|i: int|
            0 <= i < self.bucket_generations.len() ==> 0 < (
            #[trigger] self.bucket_generations[i]).1 < self.next_bucket_generation
        &&& forall|i: int, j: int|
            0 <= i < j < self.bucket_generations.len() ==> (
            #[trigger] self.bucket_generations[i]).1 != (#[trigger] self.bucket_generations[j]).1
    }

    /// Whether tables have distinct nonzero identifiers and no file is numbered zero.
    pub open spec fn files_sound(self) -> bool {
        &&& ids_sound(table_ids(self.tables))
        &&& forall|i: int|
            0 <= i < self.tables.len() ==> list_blobs_sound((#[trigger] self.tables[i]).1)
        &&& !ordered::has_key(self.pending_blob_deletions, 0)
    }

    /// Whether generations and tables belong to the buckets, and identifiers are sound.
    pub open spec fn buckets_sound(self) -> bool {
        &&& names_of(self.bucket_generations) == names_of(self.buckets)
        &&& self.generations_sound()
        &&& names_of(self.tables) == names_of(self.buckets)
        &&& self.files_sound()
    }

    /// The first identifier above every used one.
    pub open spec fn is_least_file_id(self, next: int) -> bool {
        &&& next >= 1
        &&& next == 1 || self.uses_file((next - 1) as u64)
        &&& forall|id: u64| #[trigger] self.uses_file(id) ==> id < next
    }

    /// What is wrong with the counter of file identifiers.
    pub open spec fn file_id_fault(self) -> Option<Seq<char>> {
        if self.files_reserved() {
            None
        } else if self.uses_file(u64::MAX) {
            Some("table id counter overflow"@)
        } else {
            let least = choose|next: int| 1 <= next <= u64::MAX && self.is_least_file_id(next);
            Some(
                "manifest file-id high-water mark "@ + text::decimal(self.next_file_id as nat)
                    + " is below live-object minimum "@ + text::decimal(least as nat),
            )
        }
    }

    /// What is wrong with the first table that something is wrong with, or else with the
    /// pending deletions.
    pub open spec fn files_fault(self) -> Option<Seq<char>> {
        match tables_fault(all_tables(self.tables)) {
            Some(text) => Some(text),
            None => if ordered::has_key(self.pending_blob_deletions, 0) {
                Some("manifest contains zero pending blob file id"@)
            } else {
                None
            },
        }
    }

    /// What is wrong with buckets, their generations or their files.
    pub open spec fn buckets_fault(self) -> Option<Seq<char>> {
        if names_of(self.bucket_generations) != names_of(self.buckets) {
            Some("manifest bucket-generation map does not match bucket map"@)
        } else if !self.generations_sound() {
            Some(
                "manifest bucket generations are zero, duplicated, or above their high-water mark"@,
            )
        } else if names_of(self.tables) != names_of(self.buckets) {
            Some("manifest table-bucket map does not match bucket map"@)
        } else {
            self.files_fault()
        }
    }

    /// Whether names and identifiers are sorted.
    pub open spec fn sorted(self) -> bool {
        &&& ordered::names_sorted(self.buckets)
        &&& ordered::names_sorted(self.bucket_generations)
        &&& ordered::names_sorted(self.tables)
        &&& ordered::ids_sorted(self.pending_blob_deletions)
        &&& ordered::names_sorted(self.checkpoints)
    }

    /// Whether a manifest may follow this one: no counter falls back, and no bucket
    /// that stays changes its incarnation.
    pub open spec fn may_become(self, next: Manifest) -> bool {
        self.keeps_counters(next) && self.keeps_generations(next)
    }

    /// Whether no counter falls back.
    pub open spec fn keeps_counters(self, next: Manifest) -> bool {
        &&& self.wal_replay_floor.0 <= next.wal_replay_floor.0
        &&& self.next_file_id <= next.next_file_id
        &&& self.next_bucket_generation <= next.next_bucket_generation
        &&& self.writer_epoch <= next.writer_epoch
    }

    /// Whether no bucket that stays changes its incarnation.
    pub open spec fn keeps_generations(self, next: Manifest) -> bool {
        let before = ordered::map_of(self.bucket_generations);
        let after = ordered::map_of(next.bucket_generations);
        forall|name: Seq<char>| #[trigger]
            before.dom().contains(name) && after.dom().contains(name) ==> before[name]
                == after[name]
    }

    /// Whether one manifest differs from another in its tables and pending deletions
    /// only.
    pub open spec fn same_but_files(self, other: Manifest) -> bool {
        other == (Manifest {
            tables: other.tables,
            pending_blob_deletions: other.pending_blob_deletions,
            ..self
        })
    }
}

/// A bucket that is recreated under its old name gets a new incarnation: a generation
/// that an earlier manifest of the history used for any bucket is never used again.
pub proof fn new_generation_is_fresh(manifest: Manifest, i: int)
    requires
        manifest.generations_sound(),
        0 <= i < manifest.bucket_generations.len(),
    ensures
        manifest.bucket_generations[i].1 != manifest.next_bucket_generation,
{
}

/// Counters of manifests that follow each other never fall back, over any number of
/// steps.
pub proof fn counters_never_fall(history: Seq<Manifest>, from: int, to: int)
    requires
        forall|i: int|
            0 <= i < history.len() - 1 ==> (#[trigger] history[i]).may_become(history[i + 1]),
        0 <= from <= to < history.len(),
    ensures
        history[from].wal_replay_floor.0 <= history[to].wal_replay_floor.0,
        history[from].next_file_id <= history[to].next_file_id,
        history[from].next_bucket_generation <= history[to].next_bucket_generation,
        history[from].writer_epoch <= history[to].writer_epoch,
    decreases to - from,
{
    if from < to {
        counters_never_fall(history, from, to - 1);
        assert(history[to - 1].may_become(history[to - 1 + 1]));
    }
}

fn highest_of_table(table: &TableProperties, start: u64) -> (highest: u64)
    ensures
        highest >= start,
        highest == start || table_uses(table@, highest),
        forall|id: u64| #[trigger] table_uses(table@, id) ==> id <= highest,
{
    let mut highest: u64 = start;
    if table.id.get() > highest {
        highest = table.id.get();
    }
    let mut i: usize = 0;
    while i < table.blob_file_ids.len()
        invariant
            i <= table.blob_file_ids@.len(),
            highest >= start,
            highest >= table.id.0,
            highest == start || table_uses(table@, highest),
            forall|j: int| 0 <= j < i ==> #[trigger] table.blob_file_ids@[j] <= highest,
        decreases table.blob_file_ids@.len() - i,
    {
        let id: u64 = table.blob_file_ids[i];
        if id > highest {
            highest = id;
            assert(table@.blob_file_ids.contains(id));
        }
        i += 1;
    }
    highest
}

fn highest_of_list(list: &Vec<TableProperties>, start: u64) -> (highest: u64)
    ensures
        highest >= start,
        highest == start || list_uses(list.deep_view(), highest),
        forall|id: u64| #[trigger] list_uses(list.deep_view(), id) ==> id <= highest,
{
    let ghost views = list.deep_view();
    let mut highest: u64 = start;
    let mut i: usize = 0;
    while i < list.len()
        invariant
            i <= list@.len(),
            views == list.deep_view(),
            highest >= start,
            highest == start || list_uses(views, highest),
            forall|j: int, id: u64|
                0 <= j < i && #[trigger] table_uses(views[j], id) ==> id <= highest,
        decreases list@.len() - i,
    {
        let ghost before = highest;
        assert(views[i as int] == list@[i as int]@);
        highest = highest_of_table(&list[i], highest);
        proof {
            if highest != before {
                assert(table_uses(views[i as int], highest));
            }
        }
        i += 1;
    }
    highest
}

impl ManifestState {
    /// Whether names and identifiers are sorted.
    pub open spec fn wf(&self) -> bool {
        &&& self.buckets.wf()
        &&& self.bucket_generations.wf()
        &&& self.tables.wf()
        &&& ordered::ids_sorted(ordered::id_pairs(self.pending_blob_deletions@))
        &&& self.checkpoints.wf()
    }

    /// Returns the manifest of a database without buckets.
    pub fn empty() -> (state: ManifestState)
        ensures
            state.wf(),
            state@ == (Manifest {
                wal_replay_floor: Sequence(0),
                buckets: Seq::empty(),
                bucket_generations: Seq::empty(),
                tables: Seq::empty(),
                pending_blob_deletions: Seq::empty(),
                checkpoints: Seq::empty(),
                next_file_id: 1,
                next_bucket_generation: 1,
                writer_epoch: 0,
            }),
    {
        proof {
            ordered::no_id_pairs();
        }
        ManifestState {
            wal_replay_floor: Sequence::zero(),
            buckets: NameMap::new(),
            bucket_generations: NameMap::new(),
            tables: NameMap::new(),
            pending_blob_deletions: BTreeMap::new(),
            checkpoints: NameMap::new(),
            next_file_id: 1,
            next_bucket_generation: 1,
            writer_epoch: 0,
        }
    }

    /// Returns the last commit that need not be replayed from the log.
    pub fn wal_replay_floor(&self) -> (floor: Sequence)
        ensures
            floor == self@.wal_replay_floor,
    {
        self.wal_replay_floor
    }

    /// Returns the options of each bucket.
    pub fn buckets(&self) -> (buckets: &NameMap<BucketOptions>)
        ensures
            *buckets == self.buckets,
    {
        &self.buckets
    }

    /// Returns the incarnation of a bucket.
    pub fn bucket_generation(&self, name: &str) -> (generation: Option<u64>)
        requires
            self.bucket_generations.wf(),
        ensures
            match generation {
                Some(generation) => self.bucket_generations.map().dom().contains(name@)
                    && generation == self.bucket_generations.map()[name@],
                None => !self.bucket_generations.map().dom().contains(name@),
            },
    {
        match self.bucket_generations.get(name) {
            Some(generation) => Some(*generation),
            None => None,
        }
    }

    /// Returns the tables of each bucket.
    pub fn tables(&self) -> (tables: &NameMap<Vec<TableProperties>>)
        ensures
            *tables == self.tables,
    {
        &self.tables
    }

    /// Returns the blob files that may be deleted.
    pub fn pending_blob_deletions(&self) -> (pending: &BTreeMap<u64, Sequence>)
        ensures
            *pending == self.pending_blob_deletions,
    {
        &self.pending_blob_deletions
    }

    /// Returns the named commits that are kept readable.
    pub fn checkpoints(&self) -> (checkpoints: &NameMap<Sequence>)
        ensures
            *checkpoints == self.checkpoints,
    {
        &self.checkpoints
    }

    /// Tells whether two states record the same.
    pub fn same(&self, other: &ManifestState) -> (same: bool)
        ensures
            same == (self@ == other@),
    {
        self.wal_replay_floor == other.wal_replay_floor && self.buckets.same(&other.buckets)
            && self.bucket_generations.same(&other.bucket_generations) && self.tables.same(
            &other.tables,
        ) && same_ids(&self.pending_blob_deletions, &other.pending_blob_deletions)
            && self.checkpoints.same(&other.checkpoints) && self.next_file_id == other.next_file_id
            && self.next_bucket_generation == other.next_bucket_generation && self.writer_epoch
            == other.writer_epoch
    }

    fn highest_file_id(&self) -> (highest: u64)
        ensures
            highest == 0 || self@.uses_file(highest),
            forall|id: u64| #[trigger] self@.uses_file(id) ==> id <= highest,
    {
        let ghost tables = self.tables.pairs();
        let listed: Vec<(u64, Sequence)> = list_id_pairs(&self.pending_blob_deletions);
        let ghost pending = listed@;
        let mut highest: u64 = 0;
        let mut i: usize = 0;
        while i < self.tables.len()
            invariant
                i <= tables.len(),
                tables == self.tables.pairs(),
                highest == 0 || tables_use(tables, highest),
                forall|j: int, id: u64|
                    0 <= j < i && #[trigger] list_uses(tables[j].1, id) ==> id <= highest,
            decreases tables.len() - i,
        {
            let ghost before = highest;
            highest = highest_of_list(self.tables.value_at(i), highest);
            proof {
                if highest != before {
                    assert(list_uses(tables[i as int].1, highest));
                }
            }
            i += 1;
        }
        let mut k: usize = 0;
        while k < listed.len()
            invariant
                k <= pending.len(),
                pending == listed@,
                pending == self@.pending_blob_deletions,
                highest == 0 || self@.uses_file(highest),
                forall|id: u64| #[trigger] tables_use(tables, id) ==> id <= highest,
                forall|j: int| 0 <= j < k ==> (#[trigger] pending[j]).0 <= highest,
            decreases pending.len() - k,
        {
            let id: u64 = listed[k].0;
            if id > highest {
                highest = id;
                assert(ordered::has_key(pending, id));
            }
            k += 1;
        }
        highest
    }

    /// Returns the first identifier above every used one.
    pub fn derived_next_file_id(&self) -> (result: Result<u64>)
        ensures
            match result {
                Ok(next) => {
                    &&& next >= 1
                    &&& next == 1 || self@.uses_file((next - 1) as u64)
                    &&& forall|id: u64| #[trigger] self@.uses_file(id) ==> id < next
                },
                Err(error) => self@.uses_file(u64::MAX) && error.says(
                    ErrorKind::Corruption,
                    "table id counter overflow"@,
                ),
            },
    {
        let highest: u64 = self.highest_file_id();
        match highest.checked_add(1) {
            Some(next) => Ok(next),
            None => Err(Error::corruption("table id counter overflow")),
        }
    }

    /// Accepts a state whose used file identifiers are all reserved.
    pub fn validate_next_file_id(&self) -> (result: Result<()>)
        ensures
            match result {
                Ok(_) => self@.files_reserved(),
                Err(error) => self@.file_id_fault() matches Some(text) && error.says(
                    ErrorKind::Corruption,
                    text,
                ),
            },
    {
        match self.derived_next_file_id() {
            Ok(minimum) => {
                if self.next_file_id < minimum {
                    proof {
                        least_file_id_is_unique(self@, minimum as int);
                    }
                    let mut message: String = text::join_number(
                        "manifest file-id high-water mark ",
                        self.next_file_id,
                        " is below live-object minimum ",
                    );
                    text::push_decimal(&mut message, minimum);
                    assert(message@ == self@.file_id_fault()->0);
                    return Err(Error::Corruption { message });
                }
                Ok(())
            },
            Err(error) => Err(error),
        }
    }

    fn generations_are_sound(&self) -> (sound: bool)
        ensures
            sound == self@.generations_sound(),
    {
        let ghost pairs = self.bucket_generations.pairs();
        if self.next_bucket_generation == 0 {
            return false;
        }
        let mut i: usize = 0;
        while i < self.bucket_generations.len()
            invariant
                self.next_bucket_generation >= 1,
                pairs == self.bucket_generations.pairs(),
                i <= pairs.len(),
                forall|a: int|
                    0 <= a < i ==> 0 < (#[trigger] pairs[a]).1 < self.next_bucket_generation,
                forall|a: int, b: int|
                    0 <= a < b < pairs.len() && a < i ==> (#[trigger] pairs[a]).1 != (
                    #[trigger] pairs[b]).1,
            decreases pairs.len() - i,
        {
            let generation: u64 = *self.bucket_generations.value_at(i);
            assert(generation == self@.bucket_generations[i as int].1);
            if generation == 0 || generation >= self.next_bucket_generation {
                return false;
            }
            let mut j: usize = i + 1;
            while j < self.bucket_generations.len()
                invariant
                    pairs == self.bucket_generations.pairs(),
                    i < j <= pairs.len(),
                    generation == pairs[i as int].1,
                    forall|b: int| i < b < j ==> generation != (#[trigger] pairs[b]).1,
                decreases pairs.len() - j,
            {
                if *self.bucket_generations.value_at(j) == generation {
                    assert(self@.bucket_generations[i as int].1
                        == self@.bucket_generations[j as int].1);
                    return false;
                }
                j += 1;
            }
            i += 1;
        }
        true
    }

    /// Accepts a state whose generations and tables belong to its buckets and whose
    /// identifiers are nonzero and distinct.
    pub fn validate_bucket_generations(&self) -> (result: Result<()>)
        ensures
            match result {
                Ok(_) => self@.buckets_sound(),
                Err(error) => self@.buckets_fault() matches Some(text) && error.says(
                    ErrorKind::Corruption,
                    text,
                ),
            },
    {
        if !same_names(&self.bucket_generations, &self.buckets) {
            return Err(
                Error::corruption("manifest bucket-generation map does not match bucket map"),
            );
        }
        if !self.generations_are_sound() {
            return Err(
                Error::corruption(
                    "manifest bucket generations are zero, duplicated, or above their high-water mark",
                ),
            );
        }
        if !same_names(&self.tables, &self.buckets) {
            return Err(Error::corruption("manifest table-bucket map does not match bucket map"));
        }
        self.validate_files()
    }

    fn validate_files(&self) -> (result: Result<()>)
        ensures
            match result {
                Ok(_) => self@.files_sound(),
                Err(error) => self@.files_fault() matches Some(text) && error.says(
                    ErrorKind::Corruption,
                    text,
                ),
            },
    {
        let ghost tables = self.tables.pairs();
        let mut seen: Vec<u64> = Vec::new();
        let mut i: usize = 0;
        proof {
            assert(tables.take(0) =~= Seq::<(Seq<char>, Seq<TableSummary>)>::empty());
            assert(seen@ =~= list_ids(all_tables(tables.take(0))));
        }
        while i < self.tables.len()
            invariant
                tables == self.tables.pairs(),
                i <= tables.len(),
                seen@ == list_ids(all_tables(tables.take(i as int))),
                tables_fault(all_tables(tables.take(i as int))) is None,
            decreases tables.len() - i,
        {
            let ghost before = all_tables(tables.take(i as int));
            proof {
                let longer = tables.take(i + 1);
                assert(longer.drop_last() =~= tables.take(i as int));
                assert(longer.last() == tables[i as int]);
            }
            match check_list(self.tables.value_at(i), &mut seen, Ghost(before)) {
                Ok(_) => {},
                Err(error) => {
                    proof {
                        fault_of_first_buckets(tables, i + 1);
                    }
                    return Err(error);
                },
            }
            i += 1;
        }
        proof {
            assert(tables.take(i as int) =~= tables);
            faultless_files_are_sound(self@);
        }
        let listed: Vec<(u64, Sequence)> = list_id_pairs(&self.pending_blob_deletions);
        let ghost pending = listed@;
        let mut k: usize = 0;
        while k < listed.len()
            invariant
                pending == listed@,
                pending == self@.pending_blob_deletions,
                k <= pending.len(),
                forall|j: int| 0 <= j < k ==> (#[trigger] pending[j]).0 != 0,
                tables_fault(all_tables(self@.tables)) is None,
                self@.files_fault() is None <==> self@.files_sound(),
            decreases pending.len() - k,
        {
            let id: u64 = listed[k].0;
            if id == 0 {
                assert(pending[k as int].0 == 0);
                assert(ordered::has_key(pending, 0));
                return Err(Error::corruption("manifest contains zero pending blob file id"));
            }
            k += 1;
        }
        Ok(())
    }

    /// Adds a bucket of a new incarnation, with no tables.
    pub fn insert_new_bucket(&mut self, name: String, options: BucketOptions) -> (result: Result<
        (),
    >)
        requires
            old(self).wf(),
        ensures
            final(self).wf(),
            match result {
                Ok(_) => bucket_added(old(self)@, final(self)@, name@, options@),
                Err(error) => {
                    &&& *final(self) == *old(self)
                    &&& old(self).next_bucket_generation == u64::MAX
                    &&& error.says(
                        ErrorKind::Corruption,
                        "bucket-generation high-water mark overflow"@,
                    )
                },
            },
    {
        let generation: u64 = self.next_bucket_generation;
        match generation.checked_add(1) {
            Some(next) => {
                self.next_bucket_generation = next;
            },
            None => {
                return Err(Error::corruption("bucket-generation high-water mark overflow"));
            },
        }
        self.bucket_generations.insert(name.clone(), generation);
        self.buckets.insert(name.clone(), options);
        if !self.tables.contains_key(name.as_str()) {
            let none: Vec<TableProperties> = Vec::new();
            assert(none.deep_view() =~= Seq::<TableSummary>::empty());
            self.tables.insert(name, none);
        }
        Ok(())
    }

    /// Removes a bucket with its incarnation and tables.
    pub fn remove_bucket(&mut self, name: &str)
        requires
            old(self).wf(),
        ensures
            final(self).wf(),
            bucket_removed(old(self)@, final(self)@, name@),
    {
        self.buckets.remove(name);
        self.bucket_generations.remove(name);
        self.tables.remove(name);
    }

    fn regresses(&self, next: &ManifestState) -> (regresses: bool)
        ensures
            regresses == !self@.keeps_counters(next@),
    {
        next.wal_replay_floor.get() < self.wal_replay_floor.get() || next.next_file_id
            < self.next_file_id || next.next_bucket_generation < self.next_bucket_generation
            || next.writer_epoch < self.writer_epoch
    }

    /// Accepts a state that may follow this one: no counter falls back, and no bucket
    /// that stays changes its incarnation.
    pub fn validate_successor(&self, next: &ManifestState) -> (result: Result<()>)
        requires
            self.wf(),
            next.wf(),
        ensures
            match result {
                Ok(_) => self@.may_become(next@),
                Err(error) => {
                    &&& !self@.may_become(next@)
                    &&& error.says(
                        ErrorKind::Corruption,
                        if self@.keeps_counters(next@) {
                            "manifest successor changes the generation of a bucket"@
                        } else {
                            "manifest successor moves a durable counter back"@
                        },
                    )
                },
            },
    {
        if self.regresses(next) {
            return Err(Error::corruption("manifest successor moves a durable counter back"));
        }
        let ghost pairs = self.bucket_generations.pairs();
        let ghost before = ordered::map_of(pairs);
        let ghost after = ordered::map_of(next.bucket_generations.pairs());
        proof {
            ordered::sorted_names_are_distinct(pairs);
        }
        let mut i: usize = 0;
        while i < self.bucket_generations.len()
            invariant
                next.wf(),
                self@.keeps_counters(next@),
                pairs == self.bucket_generations.pairs(),
                ordered::distinct_keys(pairs),
                before == ordered::map_of(pairs),
                after == next.bucket_generations.map(),
                before == ordered::map_of(self@.bucket_generations),
                after == ordered::map_of(next@.bucket_generations),
                i <= pairs.len(),
                forall|j: int|
                    0 <= j < i && after.dom().contains((#[trigger] pairs[j]).0) ==> after[pairs[j].0]
                        == pairs[j].1,
            decreases pairs.len() - i,
        {
            proof {
                ordered::pair_is_in_map(pairs, i as int);
            }
            if let Some(generation) = next.bucket_generations.get(
                self.bucket_generations.name_at(i),
            ) {
                if *generation != *self.bucket_generations.value_at(i) {
                    proof {
                        let name = pairs[i as int].0;
                        assert(before.dom().contains(name) && after.dom().contains(name));
                        assert(!self@.keeps_generations(next@));
                    }
                    return Err(
                        Error::corruption("manifest successor changes the generation of a bucket"),
                    );
                }
            }
            i += 1;
        }
        proof {
            assert forall|name: Seq<char>| #[trigger]
                before.dom().contains(name) && after.dom().contains(
                    name,
                ) implies before[name] == after[name] by {
                let j = ordered::map_key_is_in_pairs(pairs, name);
                assert(pairs[j].0 == name);
            }
        }
        Ok(())
    }

    /// Returns the identifier that the next table would get.
    pub fn next_table_id(&self) -> (result: Result<TableId>)
        ensures
            match result {
                Ok(id) => self@.files_reserved() && id.0 == self.next_file_id,
                Err(error) => self@.file_id_fault() matches Some(text) && error.says(
                    ErrorKind::Corruption,
                    text,
                ),
            },
    {
        match self.validate_next_file_id() {
            Ok(_) => Ok(TableId(self.next_file_id)),
            Err(error) => Err(error),
        }
    }
}

impl Default for ManifestState {
    fn default() -> (state: ManifestState)
        ensures
            state.wf(),
            state@ == (Manifest {
                wal_replay_floor: Sequence(0),
                buckets: Seq::empty(),
                bucket_generations: Seq::empty(),
                tables: Seq::empty(),
                pending_blob_deletions: Seq::empty(),
                checkpoints: Seq::empty(),
                next_file_id: 1,
                next_bucket_generation: 1,
                writer_epoch: 0,
            }),
    {
        ManifestState::empty()
    }
}

/// Whether `after` is `before` with one more bucket, or a bucket of a new incarnation.
pub open spec fn bucket_added(
    before: Manifest,
    after: Manifest,
    name: Seq<char>,
    options: BucketSettings,
) -> bool {
    let lists = ordered::map_of(before.tables);
    &&& ordered::map_of(after.buckets) == ordered::map_of(before.buckets).insert(name, options)
    &&& ordered::map_of(after.bucket_generations) == ordered::map_of(
        before.bucket_generations,
    ).insert(name, before.next_bucket_generation)
    &&& ordered::map_of(after.tables) == if lists.dom().contains(name) {
        lists
    } else {
        lists.insert(name, Seq::empty())
    }
    &&& after.next_bucket_generation == before.next_bucket_generation + 1
    &&& after == (Manifest {
        buckets: after.buckets,
        bucket_generations: after.bucket_generations,
        tables: after.tables,
        next_bucket_generation: after.next_bucket_generation,
        ..before
    })
}

/// Whether `after` is `before` without a bucket.
pub open spec fn bucket_removed(before: Manifest, after: Manifest, name: Seq<char>) -> bool {
    &&& ordered::map_of(after.buckets) == ordered::map_of(before.buckets).remove(name)
    &&& ordered::map_of(after.bucket_generations) == ordered::map_of(
        before.bucket_generations,
    ).remove(name)
    &&& ordered::map_of(after.tables) == ordered::map_of(before.tables).remove(name)
    &&& after == (Manifest {
        buckets: after.buckets,
        bucket_generations: after.bucket_generations,
        tables: after.tables,
        ..before
    })
}

fn same_names<A: Modelled, B: Modelled>(left: &NameMap<A>, right: &NameMap<B>) -> (same: bool)
    ensures
        same == (names_of(left.pairs()) == names_of(right.pairs())),
{
    let ghost a = names_of(left.pairs());
    let ghost b = names_of(right.pairs());
    if left.len() != right.len() {
        assert(a.len() != b.len());
        return false;
    }
    let mut i: usize = 0;
    while i < left.len()
        invariant
            a == names_of(left.pairs()),
            b == names_of(right.pairs()),
            a.len() == b.len(),
            i <= a.len(),
            forall|j: int| 0 <= j < i ==> #[trigger] a[j] == b[j],
        decreases a.len() - i,
    {
        let equal: bool = match ordered::order_names(left.name_at(i), right.name_at(i)) {
            crate::bytes_order::KeyOrder::Equal => true,
            _ => false,
        };
        if !equal {
            assert(a[i as int] != b[i as int]);
            return false;
        }
        assert(a[i as int] == b[i as int]);
        i += 1;
    }
    proof {
        assert(a =~= b);
    }
    true
}

fn contains_id(ids: &Vec<u64>, id: u64) -> (found: bool)
    ensures
        found == ids@.contains(id),
{
    let mut i: usize = 0;
    while i < ids.len()
        invariant
            i <= ids@.len(),
            forall|j: int| 0 <= j < i ==> ids@[j] != id,
        decreases ids@.len() - i,
    {
        if ids[i] == id {
            return true;
        }
        i += 1;
    }
    false
}

fn check_list(
    list: &Vec<TableProperties>,
    seen: &mut Vec<u64>,
    before: Ghost<Seq<TableSummary>>,
) -> (result: Result<()>)
    requires
        old(seen)@ == list_ids(before@),
        tables_fault(before@) is None,
    ensures
        match result {
            Ok(_) => {
                &&& final(seen)@ == list_ids(before@ + list.deep_view())
                &&& tables_fault(before@ + list.deep_view()) is None
            },
            Err(error) => tables_fault(before@ + list.deep_view()) matches Some(text)
                && error.says(ErrorKind::Corruption, text),
        },
{
    let ghost views = list.deep_view();
    let ghost all = before@ + views;
    let ghost start = before@.len() as int;
    let mut i: usize = 0;
    proof {
        assert(all.take(start) =~= before@);
    }
    while i < list.len()
        invariant
            views == list.deep_view(),
            all == before@ + views,
            start == before@.len(),
            i <= list@.len(),
            seen@ == list_ids(all.take(start + i)),
            tables_fault(all.take(start + i)) is None,
        decreases list@.len() - i,
    {
        let id: u64 = list[i].id.get();
        let ghost done = all.take(start + i);
        proof {
            assert(views[i as int] == list@[i as int]@);
            assert(all.take(start + i + 1).drop_last() =~= done);
            assert(all.take(start + i + 1).last() == views[i as int]);
        }
        if id == 0 || contains_id(seen, id) {
            let error = Error::Corruption {
                message: text::join_number(
                    "manifest contains invalid or duplicate table id ",
                    id,
                    "",
                ),
            };
            proof {
                reveal_strlit("");
                let text = "manifest contains invalid or duplicate table id "@ + text::decimal(
                    id as nat,
                );
                assert(error.spec_text() =~= text);
                fault_of_first_tables(all, start + i + 1);
            }
            return Err(error);
        }
        if contains_id(&list[i].blob_file_ids, 0) {
            proof {
                fault_of_first_tables(all, start + i + 1);
            }
            return Err(Error::corruption("manifest contains zero live blob file id"));
        }
        seen.push(id);
        assert(seen@ =~= list_ids(all.take(start + i + 1)));
        i += 1;
    }
    proof {
        assert(all.take(start + i) =~= all);
    }
    Ok(())
}

proof fn fault_of_first_tables(tables: Seq<TableSummary>, count: int)
    requires
        0 <= count <= tables.len(),
        tables_fault(tables.take(count)) is Some,
    ensures
        tables_fault(tables) == tables_fault(tables.take(count)),
    decreases tables.len() - count,
{
    if count < tables.len() {
        assert(tables.take(count + 1).drop_last() =~= tables.take(count));
        fault_of_first_tables(tables, count + 1);
    } else {
        assert(tables.take(count) =~= tables);
    }
}

proof fn fault_of_first_buckets(tables: Seq<(Seq<char>, Seq<TableSummary>)>, count: int)
    requires
        0 <= count <= tables.len(),
        tables_fault(all_tables(tables.take(count))) is Some,
    ensures
        tables_fault(all_tables(tables)) == tables_fault(all_tables(tables.take(count))),
    decreases tables.len() - count,
{
    if count < tables.len() {
        let longer = tables.take(count + 1);
        let first = all_tables(tables.take(count));
        assert(longer.drop_last() =~= tables.take(count));
        assert(all_tables(longer).take(first.len() as int) =~= first);
        fault_of_first_tables(all_tables(longer), first.len() as int);
        fault_of_first_buckets(tables, count + 1);
    } else {
        assert(tables.take(count) =~= tables);
    }
}

proof fn least_file_id_is_unique(manifest: Manifest, least: int)
    requires
        1 <= least <= u64::MAX,
        manifest.is_least_file_id(least),
    ensures
        least == choose|next: int| 1 <= next <= u64::MAX && manifest.is_least_file_id(next),
{
    let other = choose|next: int| 1 <= next <= u64::MAX && manifest.is_least_file_id(next);
    if other < least {
        assert(manifest.uses_file((least - 1) as u64));
    } else if least < other {
        assert(manifest.uses_file((other - 1) as u64));
    }
}

/// A list of tables has no fault exactly where its identifiers are sound.
proof fn faultless_tables_are_sound(tables: Seq<TableSummary>)
    ensures
        tables_fault(tables) is None <==> ids_sound(list_ids(tables)) && list_blobs_sound(tables),
    decreases tables.len(),
{
    if tables.len() > 0 {
        let before = tables.drop_last();
        let last = tables.last();
        let ids = list_ids(tables);
        faultless_tables_are_sound(before);
        assert(list_ids(before) =~= ids.drop_last());
        assert forall|i: int| 0 <= i < before.len() implies before[i] == #[trigger] tables[i] by {}
        if tables_fault(tables) is None {
            assert forall|i: int, j: int| 0 <= i < j < ids.len() implies #[trigger] ids[i]
                != #[trigger] ids[j] by {
                if j == before.len() {
                    assert(list_ids(before)[i] == ids[i]);
                } else {
                    assert(list_ids(before)[i] != list_ids(before)[j]);
                }
            }
            assert forall|i: int| 0 <= i < ids.len() implies #[trigger] ids[i] != 0 by {
                if i < before.len() {
                    assert(list_ids(before)[i] != 0);
                }
            }
        }
        if ids_sound(ids) && list_blobs_sound(tables) {
            assert forall|i: int, j: int|
                0 <= i < j < list_ids(before).len() implies #[trigger] list_ids(before)[i]
                != #[trigger] list_ids(before)[j] by {
                assert(ids[i] != ids[j]);
            }
            assert forall|i: int| 0 <= i < list_ids(before).len() implies #[trigger] list_ids(
                before,
            )[i] != 0 by {
                assert(ids[i] != 0);
            }
            assert forall|i: int| 0 <= i < before.len() implies !(
            #[trigger] before[i]).blob_file_ids.contains(0) by {
                assert(!tables[i].blob_file_ids.contains(0));
            }
            if list_ids(before).contains(last.id.0) {
                let i = choose|i: int|
                    0 <= i < list_ids(before).len() && list_ids(before)[i] == last.id.0;
                assert(ids[i] != ids[before.len() as int]);
            }
            assert(ids[before.len() as int] != 0);
            assert(!tables[before.len() as int].blob_file_ids.contains(0));
        }
    }
}

proof fn all_tables_are_of_buckets(tables: Seq<(Seq<char>, Seq<TableSummary>)>)
    ensures
        list_ids(all_tables(tables)) == table_ids(tables),
        list_blobs_sound(all_tables(tables)) <==> forall|i: int|
            0 <= i < tables.len() ==> list_blobs_sound((#[trigger] tables[i]).1),
    decreases tables.len(),
{
    if tables.len() > 0 {
        let before = tables.drop_last();
        let first = all_tables(before);
        let last = tables.last().1;
        let all = all_tables(tables);
        all_tables_are_of_buckets(before);
        assert(list_ids(all) =~= list_ids(first) + list_ids(last));
        assert forall|i: int| 0 <= i < before.len() implies before[i] == #[trigger] tables[i] by {}
        if list_blobs_sound(all) {
            assert forall|i: int| 0 <= i < first.len() implies !(
            #[trigger] first[i]).blob_file_ids.contains(0) by {
                assert(all[i] == first[i]);
            }
            assert forall|i: int| 0 <= i < last.len() implies !(
            #[trigger] last[i]).blob_file_ids.contains(0) by {
                assert(all[first.len() + i] == last[i]);
            }
            assert forall|i: int| 0 <= i < tables.len() implies list_blobs_sound(
                (#[trigger] tables[i]).1,
            ) by {
                if i < before.len() {
                    assert(list_blobs_sound(before[i].1));
                }
            }
        }
        if forall|i: int| 0 <= i < tables.len() ==> list_blobs_sound((#[trigger] tables[i]).1) {
            assert forall|i: int| 0 <= i < before.len() implies list_blobs_sound(
                (#[trigger] before[i]).1,
            ) by {
                assert(list_blobs_sound(tables[i].1));
            }
            assert(list_blobs_sound(tables[before.len() as int].1));
        }
    } else {
        assert(list_ids(all_tables(tables)) =~= Seq::empty());
    }
}

/// Files have no fault exactly where they are sound.
pub proof fn faultless_files_are_sound(manifest: Manifest)
    ensures
        manifest.files_fault() is None <==> manifest.files_sound(),
        manifest.buckets_fault() is None <==> manifest.buckets_sound(),
{
    faultless_tables_are_sound(all_tables(manifest.tables));
    all_tables_are_of_buckets(manifest.tables);
}

/// Where the tables of a bucket begin among the tables of all buckets.
spec fn place_of(tables: Seq<(Seq<char>, Seq<TableSummary>)>, bucket: int) -> int {
    table_ids(tables.take(bucket)).len() as int
}

proof fn ids_stand_at_their_place(
    tables: Seq<(Seq<char>, Seq<TableSummary>)>,
    bucket: int,
    at: int,
)
    requires
        0 <= bucket < tables.len(),
        0 <= at < tables[bucket].1.len(),
    ensures
        0 <= place_of(tables, bucket),
        place_of(tables, bucket) + at < table_ids(tables).len(),
        table_ids(tables)[place_of(tables, bucket) + at] == tables[bucket].1[at].id.0,
    decreases tables.len(),
{
    let shorter = tables.drop_last();
    if bucket < shorter.len() {
        ids_stand_at_their_place(shorter, bucket, at);
        assert(shorter.take(bucket) =~= tables.take(bucket));
        assert(shorter[bucket] == tables[bucket]);
    } else {
        assert(tables.take(bucket) =~= shorter);
    }
}

proof fn places_go_up(
    tables: Seq<(Seq<char>, Seq<TableSummary>)>,
    bucket: int,
    later: int,
)
    requires
        0 <= bucket < later <= tables.len(),
    ensures
        place_of(tables, bucket) + tables[bucket].1.len() <= place_of(tables, later),
    decreases later,
{
    let before = tables.take(later);
    assert(before.drop_last() =~= tables.take(later - 1));
    assert(before.last() == tables[later - 1]);
    assert(table_ids(before) == table_ids(before.drop_last()) + list_ids(before.last().1));
    if bucket < later - 1 {
        places_go_up(tables, bucket, later - 1);
    }
}

/// In a sound manifest every bucket has a generation and a table list and nothing else has one.
/// Generations are not zero, differ between buckets, and are below the counter for them. No table
/// and no blob file has the identifier zero, and no two tables have the same, whatever their
/// buckets.
pub proof fn sound_manifests_do_not_contradict_themselves(
    manifest: Manifest,
    bucket: int,
    other: int,
    at: int,
    place: int,
)
    requires
        manifest.buckets_sound(),
        0 <= bucket < manifest.tables.len(),
        0 <= other < manifest.tables.len(),
        0 <= at < manifest.tables[bucket].1.len(),
        0 <= place < manifest.tables[other].1.len(),
    ensures
        manifest.buckets.len() == manifest.tables.len(),
        manifest.buckets.len() == manifest.bucket_generations.len(),
        manifest.buckets[bucket].0 == manifest.tables[bucket].0,
        manifest.buckets[bucket].0 == manifest.bucket_generations[bucket].0,
        0 < manifest.bucket_generations[bucket].1 < manifest.next_bucket_generation,
        bucket != other ==> manifest.bucket_generations[bucket].1
            != manifest.bucket_generations[other].1,
        manifest.tables[bucket].1[at].id.0 != 0,
        !manifest.tables[bucket].1[at].blob_file_ids.contains(0),
        (bucket, at) != (other, place) ==> manifest.tables[bucket].1[at].id
            != manifest.tables[other].1[place].id,
        forall|i: int|
            0 <= i < manifest.pending_blob_deletions.len() ==> (
            #[trigger] manifest.pending_blob_deletions[i]).0 != 0,
{
    let tables = manifest.tables;
    let names = names_of(manifest.buckets);
    assert(names_of(tables).len() == names.len());
    assert(names_of(manifest.bucket_generations).len() == names.len());
    assert(names_of(tables)[bucket] == names[bucket]);
    assert(names_of(manifest.bucket_generations)[bucket] == names[bucket]);
    ids_stand_at_their_place(tables, bucket, at);
    ids_stand_at_their_place(tables, other, place);
    if bucket < other {
        places_go_up(tables, bucket, other);
    } else if other < bucket {
        places_go_up(tables, other, bucket);
    }
    assert(list_blobs_sound(tables[bucket].1));
    if bucket != other {
        let low = if bucket < other {
            bucket
        } else {
            other
        };
        let high = if bucket < other {
            other
        } else {
            bucket
        };
        assert(manifest.bucket_generations[low].1 != manifest.bucket_generations[high].1);
    }
}

/// The next identifier is new: no table, and no blob file that a table uses or that waits to be
/// deleted, has it or a larger one.
pub proof fn reserved_files_are_below_the_counter(
    manifest: Manifest,
    bucket: int,
    at: int,
    id: u64,
)
    requires
        manifest.files_reserved(),
        0 <= bucket < manifest.tables.len(),
        0 <= at < manifest.tables[bucket].1.len(),
    ensures
        manifest.tables[bucket].1[at].id.0 < manifest.next_file_id,
        manifest.tables[bucket].1[at].blob_file_ids.contains(id) ==> id < manifest.next_file_id,
        forall|i: int|
            0 <= i < manifest.pending_blob_deletions.len() ==> (
            #[trigger] manifest.pending_blob_deletions[i]).0 < manifest.next_file_id,
{
    let table = manifest.tables[bucket].1[at];
    assert(table_uses(table, table.id.0));
    assert(list_uses(manifest.tables[bucket].1, table.id.0));
    assert(manifest.uses_file(table.id.0));
    if table.blob_file_ids.contains(id) {
        assert(table_uses(table, id));
        assert(list_uses(manifest.tables[bucket].1, id));
        assert(manifest.uses_file(id));
    }
    assert forall|i: int| 0 <= i < manifest.pending_blob_deletions.len() implies (
    #[trigger] manifest.pending_blob_deletions[i]).0 < manifest.next_file_id by {
        assert(manifest.uses_file(manifest.pending_blob_deletions[i].0));
    }
}

/// A manifest may follow another exactly if it moves no counter back and gives every bucket that
/// both have the generation that it had. Every manifest may follow itself.
pub proof fn successors_keep_counters_and_generations(
    manifest: Manifest,
    next: Manifest,
    name: Seq<char>,
)
    ensures
        manifest.may_become(manifest),
        next.wal_replay_floor.0 < manifest.wal_replay_floor.0 || next.next_file_id
            < manifest.next_file_id || next.next_bucket_generation
            < manifest.next_bucket_generation || next.writer_epoch < manifest.writer_epoch
            ==> !manifest.may_become(next),
        ordered::map_of(manifest.bucket_generations).dom().contains(name) && ordered::map_of(
            next.bucket_generations,
        ).dom().contains(name) && ordered::map_of(manifest.bucket_generations)[name]
            != ordered::map_of(next.bucket_generations)[name] ==> !manifest.may_become(next),
        next.wal_replay_floor.0 >= manifest.wal_replay_floor.0 && next.next_file_id
            >= manifest.next_file_id && next.next_bucket_generation
            >= manifest.next_bucket_generation && next.writer_epoch >= manifest.writer_epoch
            && next.bucket_generations == manifest.bucket_generations ==> manifest.may_become(next),
{
}

} // verus!
