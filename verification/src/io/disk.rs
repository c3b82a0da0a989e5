//! What the file calls of an operation do to the files.
use vstd::prelude::*;

use crate::io::path;
use crate::io::plan;
use crate::io::plan::{Call, FileSync};
use crate::io::task::{PlatformIoParentCreation, PlatformIoTask};
use crate::options::DurabilityMode;

verus! {

/// The files of a system, as an operation sees them.
pub struct Disk {
    /// What each file holds.
    pub files: Map<Seq<char>, Seq<u8>>,
    /// What each file would hold after a crash.
    pub data: Map<Seq<char>, Seq<u8>>,
    /// What each file would hold after a crash, with its metadata.
    pub whole: Map<Seq<char>, Seq<u8>>,
    /// The directories.
    pub directories: Set<Seq<char>>,
    /// The directories whose entries would be found after a crash.
    pub settled: Set<Seq<char>>,
    /// The file that is open.
    pub open: Option<Seq<char>>,
    /// The files that are locked.
    pub locked: Set<Seq<char>>,
    /// Whether a call found the files in no state for it.
    pub failed: bool,
}

/// What a file holds: a missing one nothing.
pub open spec fn contents(disk: Disk, path: Seq<char>) -> Seq<u8> {
    if disk.files.dom().contains(path) {
        disk.files[path]
    } else {
        Seq::empty()
    }
}

/// Whether the directory of a path is there.
pub open spec fn has_directory(disk: Disk, path: Seq<char>) -> bool {
    match path::parent_path(path) {
        Some(parent) => disk.directories.contains(parent),
        None => true,
    }
}

/// The directories whose entries stay settled when an entry of the directory of a path changes.
pub open spec fn unsettled(disk: Disk, path: Seq<char>) -> Set<Seq<char>> {
    match path::parent_path(path) {
        Some(parent) => disk.settled.remove(parent),
        None => disk.settled,
    }
}

/// A map with an entry under another key.
pub open spec fn moved(map: Map<Seq<char>, Seq<u8>>, from: Seq<char>, to: Seq<char>) -> Map<
    Seq<char>,
    Seq<u8>,
> {
    if map.dom().contains(from) {
        map.remove(from).insert(to, map[from])
    } else {
        map.remove(to)
    }
}

/// The files after one call that was handed `bytes` to write.
pub open spec fn performed(disk: Disk, call: Call, bytes: Seq<u8>) -> Disk {
    match call {
        Call::Length(_) => disk,
        Call::ReadRange(_, _, _) => disk,
        Call::ReadIfPresent(_, _) => disk,
        Call::ListFiles(_) => disk,
        Call::CreateDirAll(path) => Disk { directories: disk.directories.insert(path), ..disk },
        Call::CreateFile(path) => Disk {
            files: disk.files.insert(path, Seq::empty()),
            settled: unsettled(disk, path),
            open: Some(path),
            failed: disk.failed || !has_directory(disk, path),
            ..disk
        },
        Call::OpenAppend(path) => Disk {
            files: disk.files.insert(path, contents(disk, path)),
            open: Some(path),
            failed: disk.failed || !has_directory(disk, path),
            ..disk
        },
        Call::OpenExisting(path) => Disk {
            open: Some(path),
            failed: disk.failed || !disk.files.dom().contains(path),
            ..disk
        },
        Call::OpenOrCreate(path) => Disk {
            files: disk.files.insert(path, contents(disk, path)),
            open: Some(path),
            failed: disk.failed || !has_directory(disk, path),
            ..disk
        },
        Call::Write => match disk.open {
            Some(path) => Disk {
                files: disk.files.insert(path, contents(disk, path) + bytes),
                ..disk
            },
            None => Disk { failed: true, ..disk },
        },
        Call::Truncate => match disk.open {
            Some(path) => Disk { files: disk.files.insert(path, Seq::empty()), ..disk },
            None => Disk { failed: true, ..disk },
        },
        Call::Sync(sync) => match disk.open {
            Some(path) => Disk {
                data: if sync == FileSync::Nothing {
                    disk.data
                } else {
                    disk.data.insert(path, contents(disk, path))
                },
                whole: if sync == FileSync::All {
                    disk.whole.insert(path, contents(disk, path))
                } else {
                    disk.whole
                },
                ..disk
            },
            None => Disk { failed: true, ..disk },
        },
        Call::Rename(from, to) => Disk {
            files: moved(disk.files, from, to),
            data: moved(disk.data, from, to),
            whole: moved(disk.whole, from, to),
            settled: unsettled(Disk { settled: unsettled(disk, from), ..disk }, to),
            open: None,
            failed: disk.failed || !disk.files.dom().contains(from) || !has_directory(disk, to),
            ..disk
        },
        Call::SyncDir(path) => Disk { settled: disk.settled.insert(path), ..disk },
        Call::Remove(path) => Disk {
            files: disk.files.remove(path),
            data: disk.data.remove(path),
            whole: disk.whole.remove(path),
            settled: unsettled(disk, path),
            ..disk
        },
        Call::Lock(path) => Disk {
            locked: disk.locked.insert(path),
            failed: disk.failed || disk.open != Some(path),
            ..disk
        },
    }
}

/// The files after calls, in order.
pub open spec fn run(disk: Disk, calls: Seq<Call>, bytes: Seq<u8>) -> Disk
    decreases calls.len(),
{
    if calls.len() == 0 {
        disk
    } else {
        performed(run(disk, calls.drop_last(), bytes), calls.last(), bytes)
    }
}

/// The bytes that an operation is handed to write.
pub open spec fn written(work: PlatformIoTask) -> Seq<u8> {
    match work {
        PlatformIoTask::Publish { plan } => plan.bytes@,
        PlatformIoTask::Append { bytes, .. } => bytes@,
        PlatformIoTask::AcquireWriterLease { owner, .. } => owner@,
        _ => Seq::empty(),
    }
}

/// The files after the first `count` calls of an operation.
#[verifier::opaque]
pub open spec fn during(disk: Disk, work: PlatformIoTask, count: int) -> Disk {
    run(disk, plan::planned(work).take(count), written(work))
}

/// The files after an operation.
#[verifier::opaque]
pub open spec fn done(disk: Disk, work: PlatformIoTask) -> Disk {
    run(disk, plan::planned(work), written(work))
}

proof fn whole_run(disk: Disk, work: PlatformIoTask)
    ensures
        during(disk, work, 0) == disk,
        during(disk, work, plan::planned(work).len() as int) == done(disk, work),
{
    reveal(during);
    reveal(done);
    assert(plan::planned(work).take(0) =~= Seq::empty());
    assert(plan::planned(work).take(plan::planned(work).len() as int) =~= plan::planned(work));
}

proof fn one_call(disk: Disk, work: PlatformIoTask, count: int)
    requires
        0 <= count < plan::planned(work).len(),
    ensures
        during(disk, work, count + 1) == performed(
            during(disk, work, count),
            plan::planned(work)[count],
            written(work),
        ),
{
    reveal(during);
    let longer = plan::planned(work).take(count + 1);
    assert(longer.drop_last() =~= plan::planned(work).take(count));
    assert(longer.last() == plan::planned(work)[count]);
}

/// Whether a commit must be found after a crash.
pub open spec fn asks_for_data(durability: DurabilityMode) -> bool {
    durability is SyncData || durability is SyncAll || durability is SyncAllStrict
}

/// Whether a commit and the metadata of its file must be found after a crash.
pub open spec fn asks_for_all(durability: DurabilityMode) -> bool {
    durability is SyncAll || durability is SyncAllStrict
}

/// An append leaves the file with what it held followed by the bytes of the operation, and no
/// other file changed. The bytes are made as durable as was asked, and no more. The directory of
/// the file is created before the file is opened.
pub proof fn append_appends(disk: Disk, work: PlatformIoTask)
    requires
        work is Append,
        !disk.failed,
    ensures
        ({
            let path = work->Append_session.path@;
            let durability = work->Append_durability;
            let after = done(disk, work);
            &&& !after.failed
            &&& after.files == disk.files.insert(path, contents(disk, path) + work->Append_bytes@)
            &&& after.data == if asks_for_data(durability) {
                disk.data.insert(path, after.files[path])
            } else {
                disk.data
            }
            &&& after.whole == if asks_for_all(durability) {
                disk.whole.insert(path, after.files[path])
            } else {
                disk.whole
            }
        }),
{
    let calls = plan::planned(work);
    let path = work->Append_session.path@;
    let start = plan::create_parent(path).len() as int;
    whole_run(disk, work);
    if start > 0 {
        one_call(disk, work, 0);
    }
    one_call(disk, work, start);
    one_call(disk, work, start + 1);
    assert(calls[start] == Call::OpenAppend(path));
    assert(calls[start + 1] == Call::Write);
    let written = during(disk, work, start + 2);
    assert(written.files =~= disk.files.insert(
        path,
        contents(disk, path) + work->Append_bytes@,
    ));
    if calls.len() > start + 2 {
        one_call(disk, work, start + 2);
    }
}

/// Opening a file to append to it creates it where it is missing, keeps what it holds, and
/// leaves it open.
pub proof fn opening_keeps_what_a_file_holds(disk: Disk, work: PlatformIoTask)
    requires
        work is OpenAppend,
        !disk.failed,
    ensures
        ({
            let path = work->OpenAppend_path@;
            let after = done(disk, work);
            &&& !after.failed
            &&& after.files == disk.files.insert(path, contents(disk, path))
            &&& after.open == Some(path)
        }),
{
    let calls = plan::planned(work);
    let path = work->OpenAppend_path@;
    let start = plan::create_parent(path).len() as int;
    whole_run(disk, work);
    if start > 0 {
        one_call(disk, work, 0);
    }
    one_call(disk, work, start);
    assert(calls[start] == Call::OpenAppend(path));
}

/// Persisting a file changes nothing that it holds, and makes it as durable as was asked.
pub proof fn persisting_makes_durable(disk: Disk, work: PlatformIoTask)
    requires
        work is Persist,
        !disk.failed,
        disk.files.dom().contains(work->Persist_session.path@),
    ensures
        ({
            let path = work->Persist_session.path@;
            let durability = work->Persist_durability;
            let after = done(disk, work);
            &&& !after.failed
            &&& after.files == disk.files
            &&& after.data == if asks_for_data(durability) {
                disk.data.insert(path, disk.files[path])
            } else {
                disk.data
            }
            &&& after.whole == if asks_for_all(durability) {
                disk.whole.insert(path, disk.files[path])
            } else {
                disk.whole
            }
        }),
{
    let calls = plan::planned(work);
    whole_run(disk, work);
    if calls.len() > 0 {
        one_call(disk, work, 0);
        one_call(disk, work, 1);
    }
}

/// Deleting a file removes it and no other.
pub proof fn deleting_removes_one_file(disk: Disk, work: PlatformIoTask)
    requires
        work is Delete,
        !disk.failed,
    ensures
        !done(disk, work).failed,
        done(disk, work).files == disk.files.remove(work->Delete_path@),
{
    whole_run(disk, work);
    one_call(disk, work, 0);
}

/// A read asks for exactly what it is to read, and changes nothing.
pub proof fn reads_change_nothing(disk: Disk, work: PlatformIoTask)
    requires
        work is Len || work is ReadExactAtOwned || work is ReadOptional || work is ListFilePaths,
    ensures
        done(disk, work) == disk,
        plan::planned(work).len() == 1,
        match plan::planned(work)[0] {
            Call::Length(path) => work matches PlatformIoTask::Len { path: own } && own@ == path,
            Call::ReadRange(path, offset, len) => work matches PlatformIoTask::ReadExactAtOwned {
                path: own,
                offset: from,
                len: count,
            } && own@ == path && from == offset && count == len,
            Call::ReadIfPresent(path, max) => work matches PlatformIoTask::ReadOptional {
                path: own,
                max_bytes,
            } && own@ == path && max_bytes == max,
            Call::ListFiles(path) => work matches PlatformIoTask::ListFilePaths { path: own }
                && own@ == path,
            _ => false,
        },
{
    whole_run(disk, work);
    one_call(disk, work, 0);
}

/// Creating a directory creates it, and making one durable settles its entries; neither touches
/// a file.
pub proof fn directories_are_created_and_settled(disk: Disk, work: PlatformIoTask)
    requires
        work is CreateDirAll || work is SyncDir,
    ensures
        done(disk, work).files == disk.files,
        done(disk, work).failed == disk.failed,
        work matches PlatformIoTask::CreateDirAll { path } ==> done(
            disk,
            work,
        ).directories.contains(path@),
        work matches PlatformIoTask::SyncDir { path } ==> done(disk, work).settled.contains(path@),
{
    whole_run(disk, work);
    one_call(disk, work, 0);
}

/// Whether two systems have the same file at a path, now and after a crash.
pub open spec fn same_file(a: Disk, b: Disk, path: Seq<char>) -> bool {
    &&& a.files.dom().contains(path) == b.files.dom().contains(path)
    &&& a.data.dom().contains(path) == b.data.dom().contains(path)
    &&& a.files[path] == b.files[path]
    &&& a.data[path] == b.data[path]
}

/// Whether the entry of a path in its directory would be found after a crash. The directory with
/// the empty path is the one that the process works in.
pub open spec fn entry_is_settled(disk: Disk, path: Seq<char>) -> bool {
    match path::parent_path(path) {
        Some(parent) => parent.len() > 0 ==> disk.settled.contains(parent),
        None => true,
    }
}

/// Whether a publish finds its directories, or creates them.
pub open spec fn can_publish(disk: Disk, work: PlatformIoTask) -> bool {
    &&& work is Publish
    &&& !disk.failed
    &&& work->plan.temporary_path@ != work->plan.path@
    &&& work->plan.create_parent == PlatformIoParentCreation::CreateAll || has_directory(
        disk,
        work->plan.temporary_path@,
    )
    &&& has_directory(disk, work->plan.path@) || path::parent_path(work->plan.path@)
        == path::parent_path(work->plan.temporary_path@)
}

/// A publish leaves the file with exactly the bytes of the operation and removes the temporary
/// file; no other file changes. Except where nothing was asked for, the bytes are durable; where
/// everything was asked for, so are the metadata of the file and its entry in its directory.
pub proof fn publish_replaces_the_file(disk: Disk, work: PlatformIoTask)
    requires
        can_publish(disk, work),
    ensures
        ({
            let plan = work->plan;
            let path = plan.path@;
            let after = done(disk, work);
            &&& !after.failed
            &&& after.files == disk.files.remove(plan.temporary_path@).insert(path, plan.bytes@)
            &&& !(plan.durability is Buffered) ==> after.data.dom().contains(path)
                && after.data[path] == plan.bytes@
            &&& asks_for_all(plan.durability) ==> {
                &&& after.whole.dom().contains(path)
                &&& after.whole[path] == plan.bytes@
                &&& entry_is_settled(after, path)
            }
        }),
{
    publish_states(disk, work);
}

/// A publish is atomic: whenever it is interrupted, the file is as it was before, or holds
/// exactly the bytes of the operation, which are then durable unless nothing was asked for.
pub proof fn publish_is_atomic(disk: Disk, work: PlatformIoTask, count: int)
    requires
        can_publish(disk, work),
        0 <= count <= plan::planned(work).len(),
    ensures
        ({
            let plan = work->plan;
            let path = plan.path@;
            let now = during(disk, work, count);
            ||| same_file(now, disk, path)
            ||| now.files.dom().contains(path) && now.files[path] == plan.bytes@ && (!(
            plan.durability is Buffered) ==> now.data.dom().contains(path) && now.data[path]
                == plan.bytes@)
        }),
{
    publish_states(disk, work);
    let k = publish_start(work);
    let s = publish_syncs(work);
    if count <= k + 2 + s {
        assert(same_file(during(disk, work, count), disk, work->plan.path@));
    } else {
        assert(count == k + 3 + s || count == plan::planned(work).len());
        whole_run(disk, work);
    }
}

/// How many calls of a publish come before the temporary file is created.
spec fn publish_start(work: PlatformIoTask) -> int {
    if work->plan.create_parent == PlatformIoParentCreation::CreateAll {
        plan::create_parent(work->plan.temporary_path@).len() as int
    } else {
        0
    }
}

/// How many calls of a publish make the temporary file durable.
spec fn publish_syncs(work: PlatformIoTask) -> int {
    if work->plan.durability is Buffered {
        0
    } else {
        1
    }
}

proof fn publish_calls(work: PlatformIoTask)
    requires
        work is Publish,
    ensures
        ({
            let calls = plan::planned(work);
            let tmp = work->plan.temporary_path@;
            let path = work->plan.path@;
            let k = publish_start(work);
            let s = publish_syncs(work);
            &&& 0 <= k <= 1
            &&& k + 3 + s <= calls.len() <= k + 4 + s
            &&& k == 1 ==> path::parent_path(tmp) is Some && calls[0] == Call::CreateDirAll(
                path::parent_path(tmp)->0,
            )
            &&& k == 0 && work->plan.create_parent == PlatformIoParentCreation::CreateAll
                ==> path::parent_path(tmp) is None
            &&& calls[k] == Call::CreateFile(tmp)
            &&& calls[k + 1] == Call::Write
            &&& s == 1 ==> (calls[k + 2] == Call::Sync(FileSync::Data) || calls[k + 2]
                == Call::Sync(FileSync::All))
            &&& asks_for_all(work->plan.durability) ==> calls[k + 2] == Call::Sync(FileSync::All)
            &&& calls[k + 2 + s] == Call::Rename(tmp, path)
            &&& calls.len() == k + 4 + s ==> path::parent_path(path) is Some && calls[k + 3 + s]
                == Call::SyncDir(path::parent_path(path)->0)
            &&& asks_for_all(work->plan.durability) && calls.len() == k + 3 + s ==> match path::parent_path(
                path,
            ) {
                Some(parent) => parent.len() == 0,
                None => true,
            }
        }),
{
}

proof fn publish_states(disk: Disk, work: PlatformIoTask)
    requires
        can_publish(disk, work),
    ensures
        ({
            let plan = work->plan;
            let k = publish_start(work);
            let s = publish_syncs(work);
            let named = during(disk, work, k + 3 + s);
            let after = done(disk, work);
            &&& k + 3 + s <= plan::planned(work).len() <= k + 4 + s
            &&& 0 <= k <= 1
            &&& forall|n: int|
                0 <= n <= k + 2 + s ==> same_file(
                    #[trigger] during(disk, work, n),
                    disk,
                    plan.path@,
                )
            &&& !named.failed
            &&& named.files == disk.files.remove(plan.temporary_path@).insert(
                plan.path@,
                plan.bytes@,
            )
            &&& !(plan.durability is Buffered) ==> named.data.dom().contains(plan.path@)
                && named.data[plan.path@] == plan.bytes@
            &&& asks_for_all(plan.durability) ==> named.whole.dom().contains(plan.path@)
                && named.whole[plan.path@] == plan.bytes@
            &&& after.files == named.files
            &&& after.data == named.data
            &&& after.whole == named.whole
            &&& after.failed == named.failed
            &&& asks_for_all(plan.durability) ==> entry_is_settled(after, plan.path@)
        }),
{
    let plan = work->plan;
    let tmp = plan.temporary_path@;
    let path = plan.path@;
    let bytes = plan.bytes@;
    let k = publish_start(work);
    let s = publish_syncs(work);
    let len = plan::planned(work).len();
    publish_calls(work);
    whole_run(disk, work);
    if k > 0 {
        one_call(disk, work, 0);
    }
    let first = during(disk, work, k);
    assert(first.files == disk.files && first.data == disk.data && !first.failed);
    assert(has_directory(first, tmp));
    assert(has_directory(first, path));
    one_call(disk, work, k);
    let created = during(disk, work, k + 1);
    assert(created.files == disk.files.insert(tmp, Seq::empty()) && created.data == disk.data);
    assert(created.open == Some(tmp) && !created.failed && has_directory(created, path));
    one_call(disk, work, k + 1);
    let filled = during(disk, work, k + 2);
    assert(Seq::<u8>::empty() + bytes =~= bytes);
    assert(filled.files =~= disk.files.insert(tmp, bytes));
    assert(filled.open == Some(tmp) && !filled.failed && filled.data == disk.data);
    assert(has_directory(filled, path));
    if s > 0 {
        one_call(disk, work, k + 2);
    }
    let synced = during(disk, work, k + 2 + s);
    assert(synced.files == filled.files && !synced.failed && has_directory(synced, path));
    assert(s > 0 ==> synced.data == disk.data.insert(tmp, bytes));
    one_call(disk, work, k + 2 + s);
    let named = during(disk, work, k + 3 + s);
    assert(named.files =~= disk.files.remove(tmp).insert(path, bytes));
    if len > k + 3 + s {
        one_call(disk, work, k + 3 + s);
    }
    assert forall|n: int| 0 <= n <= k + 2 + s implies same_file(
        #[trigger] during(disk, work, n),
        disk,
        path,
    ) by {
        if n < k {
            assert(n == 0);
        } else {
            assert(n == k || n == k + 1 || n == k + 2 || n == k + 2 + s);
        }
    }
}

proof fn lease_calls(work: PlatformIoTask)
    requires
        work is AcquireWriterLease,
    ensures
        ({
            let calls = plan::planned(work);
            let path = work->AcquireWriterLease_path@;
            let start = plan::create_parent(path).len() as int;
            &&& 0 <= start <= 1
            &&& calls.len() == start + 4
            &&& start == 0 ==> path::parent_path(path) is None
            &&& start == 1 ==> path::parent_path(path) is Some && calls[0] == Call::CreateDirAll(
                path::parent_path(path)->0,
            )
            &&& calls[start] == Call::OpenOrCreate(path)
            &&& calls[start + 1] == Call::Lock(path)
            &&& calls[start + 2] == Call::Truncate
            &&& calls[start + 3] == Call::Write
        }),
{
}

/// A lease is taken before anything is written: until the file is locked it holds what it held,
/// and at the end it holds exactly the bytes of the owner.
pub proof fn a_lease_is_locked_before_it_is_written(
    disk: Disk,
    work: PlatformIoTask,
    count: int,
)
    requires
        work is AcquireWriterLease,
        !disk.failed,
        0 <= count <= plan::planned(work).len(),
    ensures
        ({
            let path = work->AcquireWriterLease_path@;
            let now = during(disk, work, count);
            let after = done(disk, work);
            &&& !now.locked.contains(path) ==> contents(now, path) == contents(disk, path)
            &&& !after.failed
            &&& after.locked.contains(path)
            &&& after.files == disk.files.insert(path, work->owner@)
        }),
{
    let path = work->AcquireWriterLease_path@;
    let start = plan::create_parent(path).len() as int;
    let bytes = work->owner@;
    lease_calls(work);
    whole_run(disk, work);
    if start > 0 {
        one_call(disk, work, 0);
    }
    let first = during(disk, work, start);
    assert(first.files == disk.files && !first.failed && has_directory(first, path));
    one_call(disk, work, start);
    let opened = during(disk, work, start + 1);
    assert(opened.files == disk.files.insert(path, contents(disk, path)));
    assert(opened.open == Some(path) && !opened.failed);
    one_call(disk, work, start + 1);
    let held = during(disk, work, start + 2);
    assert(held.locked.contains(path) && held.files == opened.files && !held.failed);
    one_call(disk, work, start + 2);
    let emptied = during(disk, work, start + 3);
    assert(emptied.files == held.files.insert(path, Seq::empty()) && !emptied.failed);
    one_call(disk, work, start + 3);
    assert(Seq::<u8>::empty() + bytes =~= bytes);
    assert(done(disk, work).files =~= disk.files.insert(path, bytes));
    if count > start + 1 {
        assert(count == start + 2 || count == start + 3 || count == start + 4);
    } else if count != start + 1 {
        assert(count == 0 || count == start);
    }
}

} // verus!
