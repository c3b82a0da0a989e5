//! Operations on the same files keep out of each other's way.
use vstd::prelude::*;

use crate::io::path;
use crate::io::plan;
use crate::io::plan::Call;
use crate::io::resources;
use crate::io::resources::{Claim, PlatformIoAccess, ResourceKey};
use crate::io::task;
use crate::io::task::PlatformIoTask;

verus! {

/// Whether a call changes a file, or opens it to be changed.
pub open spec fn changes(call: Call, path: Seq<char>) -> bool {
    match call {
        Call::CreateFile(own) => own == path,
        Call::OpenAppend(own) => own == path,
        Call::OpenExisting(own) => own == path,
        Call::OpenOrCreate(own) => own == path,
        Call::Lock(own) => own == path,
        Call::Remove(own) => own == path,
        Call::Rename(from, to) => from == path || to == path,
        _ => false,
    }
}

/// Whether a call reads a file.
pub open spec fn reads(call: Call, path: Seq<char>) -> bool {
    match call {
        Call::Length(own) => own == path,
        Call::ReadRange(own, _, _) => own == path,
        Call::ReadIfPresent(own, _) => own == path,
        _ => false,
    }
}

/// Whether a call changes the entries of a directory, or makes them durable.
pub open spec fn changes_entries(call: Call, directory: Seq<char>) -> bool {
    match call {
        Call::CreateFile(own) => path::parent_path(own) == Some(directory),
        Call::OpenAppend(own) => path::parent_path(own) == Some(directory),
        Call::OpenOrCreate(own) => path::parent_path(own) == Some(directory),
        Call::Remove(own) => path::parent_path(own) == Some(directory),
        Call::Rename(from, to) => path::parent_path(from) == Some(directory) || path::parent_path(
            to,
        ) == Some(directory),
        Call::CreateDirAll(own) => own == directory,
        Call::SyncDir(own) => own == directory,
        _ => false,
    }
}

/// Whatever file a call of an operation changes, the operation has alone; whatever file a call
/// reads or directory it lists, the operation claims; and whatever directory a call changes the
/// entries of, the operation has alone. An append claims no directory: the file that it appends
/// to was opened before.
pub proof fn what_is_used_is_claimed(work: PlatformIoTask, i: int, path: Seq<char>)
    requires
        0 <= i < plan::planned(work).len(),
    ensures
        changes(plan::planned(work)[i], path) ==> resources::is_exclusive(
            work.claimed(),
            ResourceKey::Object(path::name_of(path)),
        ),
        reads(plan::planned(work)[i], path) ==> resources::is_claimed(
            work.claimed(),
            ResourceKey::Object(path::name_of(path)),
        ),
        changes_entries(plan::planned(work)[i], path) && !(work is Append)
            ==> resources::is_exclusive(
            work.claimed(),
            ResourceKey::Directory(path::name_of(path)),
        ),
        plan::planned(work)[i] == Call::ListFiles(path) ==> resources::is_claimed(
            work.claimed(),
            ResourceKey::Directory(path::name_of(path)),
        ),
{
    calls_use_files_and_directories(work, i, path);
    claims_are_of_files_and_directories(work);
    if files_of(work).contains(path) {
        let k = choose|k: int| 0 <= k < files_of(work).len() && files_of(work)[k] == path;
        assert(files_of(work)[k] == path);
    }
}

proof fn publish_uses_two_files(work: PlatformIoTask, i: int, path: Seq<char>)
    requires
        work is Publish,
        0 <= i < plan::planned(work).len(),
    ensures
        ({
            let plan = work->plan;
            let call = plan::planned(work)[i];
            ||| call is Write
            ||| call is Sync
            ||| call == Call::CreateFile(plan.temporary_path@)
            ||| call == Call::Rename(plan.temporary_path@, plan.path@)
            ||| path::parent_path(plan.temporary_path@) is Some && call == Call::CreateDirAll(
                path::parent_path(plan.temporary_path@)->0,
            )
            ||| path::parent_path(plan.path@) is Some && call == Call::SyncDir(
                path::parent_path(plan.path@)->0,
            )
        }),
{
}

proof fn opening_uses_one_file(work: PlatformIoTask, i: int, path: Seq<char>)
    requires
        (work matches PlatformIoTask::OpenAppend { path: own } && own@ == path) || (
        work matches PlatformIoTask::Append { session, .. } && session.path@ == path) || (
        work matches PlatformIoTask::AcquireWriterLease { path: own, .. } && own@ == path),
        0 <= i < plan::planned(work).len(),
    ensures
        ({
            let call = plan::planned(work)[i];
            ||| call is Write
            ||| call is Sync
            ||| call is Truncate
            ||| call == Call::OpenAppend(path)
            ||| call == Call::OpenOrCreate(path)
            ||| call == Call::Lock(path)
            ||| path::parent_path(path) is Some && call == Call::CreateDirAll(
                path::parent_path(path)->0,
            )
        }),
{
}

/// Whether what a call uses is among what an operation is about.
spec fn is_about(work: PlatformIoTask, call: Call, path: Seq<char>) -> bool {
    &&& changes(call, path) ==> files_of(work).contains(path) && !only_looks(work)
    &&& reads(call, path) ==> files_of(work).contains(path)
    &&& changes_entries(call, path) && !(work is Append) ==> directories_of(work).contains(path)
        && !only_looks(work)
    &&& call == Call::ListFiles(path) ==> directories_of(work).contains(path)
}

proof fn calls_use_files_and_directories(work: PlatformIoTask, i: int, path: Seq<char>)
    requires
        0 <= i < plan::planned(work).len(),
    ensures
        is_about(work, plan::planned(work)[i], path),
{
    match work {
        PlatformIoTask::Publish { plan } => {
            publish_uses_two_files(work, i, path);
            assert(files_of(work)[0] == plan.path@ && files_of(work)[1] == plan.temporary_path@);
            assert(files_of(work).contains(plan.path@));
            assert(files_of(work).contains(plan.temporary_path@));
        },
        PlatformIoTask::OpenAppend { path: own } => {
            opening_uses_one_file(work, i, own@);
            assert(files_of(work)[0] == own@);
        },
        PlatformIoTask::Append { session, .. } => {
            opening_uses_one_file(work, i, session.path@);
            assert(files_of(work)[0] == session.path@);
        },
        PlatformIoTask::AcquireWriterLease { path: own, .. } => {
            opening_uses_one_file(work, i, own@);
            assert(files_of(work)[0] == own@);
        },
        PlatformIoTask::CreateDirAll { path: own } => {
            assert(directories_of(work).contains(own@));
        },
        PlatformIoTask::SyncDir { path: own } => {
            assert(directories_of(work).contains(own@));
        },
        PlatformIoTask::ListFilePaths { path: own } => {
            assert(directories_of(work).contains(own@));
        },
        PlatformIoTask::Len { path: own } => {
            assert(files_of(work)[0] == own@);
        },
        PlatformIoTask::ReadExactAtOwned { path: own, .. } => {
            assert(files_of(work)[0] == own@);
        },
        PlatformIoTask::ReadOptional { path: own, .. } => {
            assert(files_of(work)[0] == own@);
        },
        PlatformIoTask::Persist { session, .. } => {
            assert(files_of(work)[0] == session.path@);
        },
        PlatformIoTask::Delete { path: own } => {
            assert(files_of(work)[0] == own@);
        },
    }
}

proof fn exclusive_use_conflicts(left: Seq<Claim>, right: Seq<Claim>, key: ResourceKey)
    requires
        resources::is_exclusive(left, key),
        resources::is_claimed(right, key),
    ensures
        resources::conflict(left, right),
        resources::conflict(right, left),
{
    let i = choose|i: int|
        0 <= i < left.len() && (#[trigger] left[i]).key == key && left[i].access
            == PlatformIoAccess::Exclusive;
    let j = choose|j: int| 0 <= j < right.len() && (#[trigger] right[j]).key == key;
    assert(left[i].key == right[j].key);
    assert(right[j].key == left[i].key);
}

proof fn exclusive_is_claimed(claims: Seq<Claim>, key: ResourceKey)
    requires
        resources::is_exclusive(claims, key),
    ensures
        resources::is_claimed(claims, key),
{
    let i = choose|i: int|
        0 <= i < claims.len() && (#[trigger] claims[i]).key == key && claims[i].access
            == PlatformIoAccess::Exclusive;
    assert(claims[i].key == key);
}

/// Two operations of which one changes a file that the other reads or changes conflict, under
/// whatever texts they name the file; and so do two of which one changes the entries of a
/// directory that the other lists or changes.
pub proof fn users_of_what_is_changed_conflict(
    a: PlatformIoTask,
    b: PlatformIoTask,
    first: Seq<Claim>,
    second: Seq<Claim>,
    i: int,
    j: int,
    path: Seq<char>,
    other: Seq<char>,
)
    requires
        resources::normalized(a.claimed(), first),
        resources::normalized(b.claimed(), second),
        0 <= i < plan::planned(a).len(),
        0 <= j < plan::planned(b).len(),
        path::name_of(path) == path::name_of(other),
        (changes(plan::planned(a)[i], path) && (changes(plan::planned(b)[j], other) || reads(
            plan::planned(b)[j],
            other,
        ))) || (changes_entries(plan::planned(a)[i], path) && (changes_entries(
            plan::planned(b)[j],
            other,
        ) || plan::planned(b)[j] == Call::ListFiles(other)) && !(a is Append) && !(b is Append)),
    ensures
        resources::conflict(first, second),
        resources::conflict(second, first),
{
    what_is_used_is_claimed(a, i, path);
    what_is_used_is_claimed(b, j, other);
    let key = if changes(plan::planned(a)[i], path) && (changes(plan::planned(b)[j], other)
        || reads(plan::planned(b)[j], other)) {
        ResourceKey::Object(path::name_of(path))
    } else {
        ResourceKey::Directory(path::name_of(path))
    };
    if resources::is_exclusive(b.claimed(), key) {
        exclusive_is_claimed(b.claimed(), key);
    }
    assert(resources::is_exclusive(first, key));
    assert(resources::is_claimed(second, key));
    exclusive_use_conflicts(first, second, key);
}

/// The files that an operation is about.
pub open spec fn files_of(work: PlatformIoTask) -> Seq<Seq<char>> {
    match work {
        PlatformIoTask::Len { path } => seq![path@],
        PlatformIoTask::ReadExactAtOwned { path, .. } => seq![path@],
        PlatformIoTask::ReadOptional { path, .. } => seq![path@],
        PlatformIoTask::Publish { plan } => seq![plan.path@, plan.temporary_path@],
        PlatformIoTask::Append { session, .. } => seq![session.path@],
        PlatformIoTask::OpenAppend { path } => seq![path@],
        PlatformIoTask::Persist { session, .. } => seq![session.path@],
        PlatformIoTask::Delete { path } => seq![path@],
        PlatformIoTask::AcquireWriterLease { path, .. } => seq![path@],
        _ => Seq::empty(),
    }
}

/// The directories that an operation is about: those it names, and those that the files are in
/// which it may add or remove.
pub open spec fn directories_of(work: PlatformIoTask) -> Set<Seq<char>> {
    match work {
        PlatformIoTask::Publish { plan } => Set::new(
            |directory: Seq<char>|
                path::parent_path(plan.path@) == Some(directory) || path::parent_path(
                    plan.temporary_path@,
                ) == Some(directory),
        ),
        PlatformIoTask::OpenAppend { path } => Set::new(
            |directory: Seq<char>| path::parent_path(path@) == Some(directory),
        ),
        PlatformIoTask::Delete { path } => Set::new(
            |directory: Seq<char>| path::parent_path(path@) == Some(directory),
        ),
        PlatformIoTask::AcquireWriterLease { path, .. } => Set::new(
            |directory: Seq<char>| path::parent_path(path@) == Some(directory),
        ),
        PlatformIoTask::CreateDirAll { path } => set![path@],
        PlatformIoTask::SyncDir { path } => set![path@],
        PlatformIoTask::ListFilePaths { path } => set![path@],
        _ => Set::empty(),
    }
}

/// Whether an operation only looks.
pub open spec fn only_looks(work: PlatformIoTask) -> bool {
    work is Len || work is ReadExactAtOwned || work is ReadOptional || work is ListFilePaths
}

proof fn claims_are_of_files_and_directories(work: PlatformIoTask)
    ensures
        forall|i: int|
            0 <= i < files_of(work).len() ==> resources::is_claimed(
                work.claimed(),
                ResourceKey::Object(path::name_of(#[trigger] files_of(work)[i])),
            ),
        forall|i: int|
            0 <= i < files_of(work).len() && !only_looks(work) ==> resources::is_exclusive(
                work.claimed(),
                ResourceKey::Object(path::name_of(#[trigger] files_of(work)[i])),
            ),
        forall|directory: Seq<char>| #[trigger]
            directories_of(work).contains(directory) ==> resources::is_claimed(
                work.claimed(),
                ResourceKey::Directory(path::name_of(directory)),
            ),
        forall|directory: Seq<char>| #[trigger]
            directories_of(work).contains(directory) && !only_looks(work)
                ==> resources::is_exclusive(
                work.claimed(),
                ResourceKey::Directory(path::name_of(directory)),
            ),
        forall|i: int|
            0 <= i < work.claimed().len() ==> match (#[trigger] work.claimed()[i]).key {
                ResourceKey::Object(name) => exists|j: int|
                    0 <= j < files_of(work).len() && path::name_of(#[trigger] files_of(work)[j])
                        == name,
                ResourceKey::Directory(name) => exists|directory: Seq<char>| #[trigger]
                    directories_of(work).contains(directory) && path::name_of(directory) == name,
            },
        forall|i: int|
            0 <= i < work.claimed().len() && only_looks(work) ==> (
            #[trigger] work.claimed()[i]).access == PlatformIoAccess::Shared,
{
    let all = work.claimed();
    match work {
        PlatformIoTask::Publish { plan } => {
            let own = task::parent_claims(plan.path@);
            let other = task::parent_claims(plan.temporary_path@);
            assert(all[0].key == ResourceKey::Object(path::name_of(files_of(work)[0])));
            assert(all[1].key == ResourceKey::Object(path::name_of(files_of(work)[1])));
            if own.len() > 0 {
                assert(all[2] == own[0]);
                assert(directories_of(work).contains(path::parent_path(plan.path@)->0));
            }
            if other.len() > 0 {
                assert(all[2 + own.len() as int] == other[0]);
                assert(directories_of(work).contains(path::parent_path(plan.temporary_path@)->0));
            }
        },
        PlatformIoTask::OpenAppend { path } => {
            one_file_with_parent(work, path@);
        },
        PlatformIoTask::Delete { path } => {
            one_file_with_parent(work, path@);
        },
        PlatformIoTask::AcquireWriterLease { path, .. } => {
            one_file_with_parent(work, path@);
        },
        PlatformIoTask::CreateDirAll { path } => {
            assert(all[0].key == ResourceKey::Directory(path::name_of(path@)));
            assert(directories_of(work).contains(path@));
        },
        PlatformIoTask::SyncDir { path } => {
            assert(all[0].key == ResourceKey::Directory(path::name_of(path@)));
            assert(directories_of(work).contains(path@));
        },
        PlatformIoTask::ListFilePaths { path } => {
            assert(all[0].key == ResourceKey::Directory(path::name_of(path@)));
            assert(directories_of(work).contains(path@));
        },
        _ => {
            assert(all[0].key == ResourceKey::Object(path::name_of(files_of(work)[0])));
        },
    }
}

proof fn one_file_with_parent(work: PlatformIoTask, path: Seq<char>)
    requires
        work.claimed() == seq![task::object_claim(path, PlatformIoAccess::Exclusive)]
            + task::parent_claims(path),
        files_of(work) == seq![path],
        forall|directory: Seq<char>| #[trigger]
            directories_of(work).contains(directory) <==> path::parent_path(path) == Some(
                directory,
            ),
    ensures
        resources::is_exclusive(work.claimed(), ResourceKey::Object(path::name_of(path))),
        resources::is_claimed(work.claimed(), ResourceKey::Object(path::name_of(path))),
        forall|directory: Seq<char>| #[trigger]
            directories_of(work).contains(directory) ==> resources::is_exclusive(
                work.claimed(),
                ResourceKey::Directory(path::name_of(directory)),
            ) && resources::is_claimed(
                work.claimed(),
                ResourceKey::Directory(path::name_of(directory)),
            ),
        forall|i: int|
            0 <= i < work.claimed().len() ==> match (#[trigger] work.claimed()[i]).key {
                ResourceKey::Object(name) => exists|j: int|
                    0 <= j < files_of(work).len() && path::name_of(#[trigger] files_of(work)[j])
                        == name,
                ResourceKey::Directory(name) => exists|directory: Seq<char>| #[trigger]
                    directories_of(work).contains(directory) && path::name_of(directory) == name,
            },
{
    let all = work.claimed();
    assert(all[0].key == ResourceKey::Object(path::name_of(path)));
    assert(path::name_of(files_of(work)[0]) == path::name_of(path));
    if path::parent_path(path) is Some {
        let parent = path::parent_path(path)->0;
        assert(all[1].key == ResourceKey::Directory(path::name_of(parent)));
        assert(directories_of(work).contains(parent));
    }
}

/// Two operations about the same file, or about the same directory, conflict unless both only
/// look.
pub proof fn operations_on_the_same_file_conflict(
    a: PlatformIoTask,
    b: PlatformIoTask,
    first: Seq<Claim>,
    second: Seq<Claim>,
    path: Seq<char>,
    other: Seq<char>,
)
    requires
        resources::normalized(a.claimed(), first),
        resources::normalized(b.claimed(), second),
        path::name_of(path) == path::name_of(other),
        (files_of(a).contains(path) && files_of(b).contains(other)) || (directories_of(a).contains(
            path,
        ) && directories_of(b).contains(other)),
        !only_looks(a) || !only_looks(b),
    ensures
        resources::conflict(first, second),
        resources::conflict(second, first),
{
    claims_are_of_files_and_directories(a);
    claims_are_of_files_and_directories(b);
    let key = if files_of(a).contains(path) && files_of(b).contains(other) {
        let i = choose|i: int| 0 <= i < files_of(a).len() && files_of(a)[i] == path;
        let j = choose|j: int| 0 <= j < files_of(b).len() && files_of(b)[j] == other;
        assert(files_of(a)[i] == path && files_of(b)[j] == other);
        ResourceKey::Object(path::name_of(path))
    } else {
        ResourceKey::Directory(path::name_of(path))
    };
    assert(resources::is_claimed(first, key) && resources::is_claimed(second, key));
    if !only_looks(a) {
        assert(resources::is_exclusive(first, key));
        exclusive_use_conflicts(first, second, key);
    } else {
        assert(resources::is_exclusive(second, key));
        exclusive_use_conflicts(second, first, key);
    }
}

/// Operations that share no file and no directory do not conflict, and neither do two that only
/// look.
pub proof fn unrelated_operations_do_not_conflict(
    a: PlatformIoTask,
    b: PlatformIoTask,
    first: Seq<Claim>,
    second: Seq<Claim>,
)
    requires
        resources::normalized(a.claimed(), first),
        resources::normalized(b.claimed(), second),
        (only_looks(a) && only_looks(b)) || ((forall|i: int, j: int|
            0 <= i < files_of(a).len() && 0 <= j < files_of(b).len() ==> path::name_of(
                #[trigger] files_of(a)[i],
            ) != path::name_of(#[trigger] files_of(b)[j])) && (forall|
            mine: Seq<char>,
            theirs: Seq<char>,
        |
            #[trigger] directories_of(a).contains(mine) && #[trigger] directories_of(b).contains(
                theirs,
            ) ==> path::name_of(mine) != path::name_of(theirs))),
    ensures
        !resources::conflict(first, second),
{
    claims_are_of_files_and_directories(a);
    claims_are_of_files_and_directories(b);
    if resources::conflict(first, second) {
        let (i, j) = choose|i: int, j: int|
            {
                &&& 0 <= i < first.len()
                &&& 0 <= j < second.len()
                &&& (#[trigger] first[i]).key == (#[trigger] second[j]).key
                &&& first[i].access == PlatformIoAccess::Exclusive || second[j].access
                    == PlatformIoAccess::Exclusive
            };
        let key = first[i].key;
        assert(resources::is_claimed(first, key));
        assert(resources::is_claimed(second, key));
        assert(resources::is_claimed(a.claimed(), key));
        assert(resources::is_claimed(b.claimed(), key));
        let k = choose|k: int| 0 <= k < a.claimed().len() && (#[trigger] a.claimed()[k]).key == key;
        let l = choose|l: int| 0 <= l < b.claimed().len() && (#[trigger] b.claimed()[l]).key == key;
        if only_looks(a) && only_looks(b) {
            if first[i].access == PlatformIoAccess::Exclusive {
                assert(resources::is_exclusive(first, key));
                assert(resources::is_exclusive(a.claimed(), key));
            } else {
                assert(resources::is_exclusive(second, key));
                assert(resources::is_exclusive(b.claimed(), key));
            }
        } else {
            assert(a.claimed()[k].key == key && b.claimed()[l].key == key);
        }
    }
}

} // verus!
