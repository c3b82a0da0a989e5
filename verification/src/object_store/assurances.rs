//! What the checks of an object store show, and what the backend never does to its objects.
use vstd::prelude::*;

use crate::error::{Error, ErrorKind, Result};
use crate::limits;
use crate::object_store::backend;
use crate::object_store::backend::{ObjectStoreReadObject, StorageObjectKind};
use crate::object_store::contract;
use crate::object_store::keys;
use crate::object_store::reclamation;
use crate::object_store::reclamation::QualifiedObjectStoreReclamation;
use crate::object_store::{Condition, Exchange, PutIf};

verus! {

/// Whether an exchange with a property stands between two places of a history.
pub open spec fn seen(
    history: Seq<Exchange>,
    from: int,
    to: int,
    wanted: spec_fn(Exchange) -> bool,
) -> bool {
    exists|i: int| from <= i < to && wanted(#[trigger] history[i])
}

/// The tag under which an exchange stored bytes under a key, if it did.
pub open spec fn stored_tag(exchange: Exchange, key: Seq<char>) -> Option<Seq<char>> {
    match exchange {
        Exchange::Put { key: asked, reply: Ok(etag), .. } => if asked == key {
            Some(etag@)
        } else {
            None
        },
        Exchange::PutIf { key: asked, reply: Ok(PutIf::Stored { etag }), .. } => if asked == key {
            Some(etag@)
        } else {
            None
        },
        _ => None,
    }
}

/// The bytes that a write sends.
pub open spec fn sent_bytes(exchange: Exchange) -> Seq<u8> {
    match exchange {
        Exchange::Put { bytes, .. } => bytes,
        Exchange::PutIf { bytes, .. } => bytes,
        _ => Seq::empty(),
    }
}

/// Whether a write is one under a condition.
pub open spec fn writes_under(exchange: Exchange, wanted: Condition) -> bool {
    match exchange {
        Exchange::PutIf { condition, .. } => condition == wanted,
        _ => false,
    }
}

/// Whether a conditional write of a key was refused.
pub open spec fn is_refused(exchange: Exchange, key: Seq<char>, wanted: Condition) -> bool {
    match exchange {
        Exchange::PutIf {
            key: asked,
            condition,
            reply: Ok(PutIf::PreconditionFailed { .. }),
            ..
        } => asked == key && condition == wanted,
        _ => false,
    }
}

/// Whether metadata of a key has a size and a tag.
pub open spec fn shows_size(
    exchange: Exchange,
    key: Seq<char>,
    size: nat,
    tag: Seq<char>,
) -> bool {
    match exchange {
        Exchange::Head { key: asked, reply: Ok(Some(meta)) } => asked == key && meta.size == size
            && meta.etag@ == tag,
        _ => false,
    }
}

/// Whether metadata of a key shows no provider version.
pub open spec fn shows_no_version(exchange: Exchange, key: Seq<char>) -> bool {
    match exchange {
        Exchange::Head { key: asked, reply: Ok(Some(meta)) } => asked == key && meta.version
            is None,
        _ => false,
    }
}

/// Whether a read of a key gave back bytes.
pub open spec fn gives_back(exchange: Exchange, key: Seq<char>, bytes: Seq<u8>) -> bool {
    match exchange {
        Exchange::Get { key: asked, reply: Ok(Some(read)) } => asked == key && read@ == bytes,
        _ => false,
    }
}

/// Whether a read of a part of a key under a tag gave back bytes.
pub open spec fn gives_back_part(
    exchange: Exchange,
    key: Seq<char>,
    tag: Seq<char>,
    bytes: Seq<u8>,
) -> bool {
    match exchange {
        Exchange::GetRange { key: asked, offset, etag, reply: Ok(read), .. } => asked == key
            && offset == 0 && etag == tag && read@ == bytes,
        _ => false,
    }
}

/// Whether a read of a part of a key under a tag was refused since the object had changed.
pub open spec fn is_stale(exchange: Exchange, key: Seq<char>, tag: Seq<char>) -> bool {
    match exchange {
        Exchange::GetRange { key: asked, etag, reply: Err(error), .. } => asked == key && etag
            == tag && error.kind() == ErrorKind::ObjectVersionChanged,
        _ => false,
    }
}

/// Whether a listing of the directory of a key has the key exactly as often as wanted.
pub open spec fn lists_key(exchange: Exchange, key: Seq<char>, wanted: bool) -> bool {
    match exchange {
        Exchange::List { prefix, reply: Ok(metas) } => prefix == reclamation::parent_of(key)
            && wanted == exists|i: int|
            0 <= i < metas@.len() && (#[trigger] metas@[i]).key@ == key,
        _ => false,
    }
}

/// Whether metadata or bytes of a key were not found.
pub open spec fn finds_nothing(exchange: Exchange, key: Seq<char>) -> bool {
    match exchange {
        Exchange::Head { key: asked, reply: Ok(None) } => asked == key,
        Exchange::Get { key: asked, reply: Ok(None) } => asked == key,
        _ => false,
    }
}

/// Whether a key was deleted.
pub open spec fn is_deleted(exchange: Exchange, key: Seq<char>) -> bool {
    match exchange {
        Exchange::Delete { key: asked, reply: Ok(_) } => asked == key,
        _ => false,
    }
}

/// The key that a request may change.
pub open spec fn changed_key(exchange: Exchange) -> Option<Seq<char>> {
    match exchange {
        Exchange::Put { key, .. } => Some(key),
        Exchange::PutIf { key, .. } => Some(key),
        Exchange::Delete { key, .. } => Some(key),
        _ => None,
    }
}

/// Whether a history shows a client that keeps its contract: a write and a later overwrite of one
/// key, of which the second is conditional on the tag of the first. The tags and the bytes differ.
/// In between, the first write is what metadata and bytes show, and conditional writes with a
/// condition that fails are refused. After the overwrite it is what they show, and a read under
/// the first tag is refused.
pub open spec fn keeps_contract(
    history: Seq<Exchange>,
    from: int,
    key: Seq<char>,
    wrote: int,
    overwrote: int,
) -> bool {
    let first = stored_tag(history[wrote], key)->0;
    let second = stored_tag(history[overwrote], key)->0;
    let bytes = sent_bytes(history[wrote]);
    let more = sent_bytes(history[overwrote]);
    let end = history.len() as int;
    &&& from <= wrote < overwrote < end
    &&& stored_tag(history[wrote], key) is Some
    &&& stored_tag(history[overwrote], key) is Some
    &&& writes_under(history[overwrote], Condition::Tagged(first))
    &&& first != second
    &&& bytes != more
    &&& seen(history, wrote, overwrote, |e: Exchange| shows_size(e, key, bytes.len(), first))
    &&& seen(history, wrote, overwrote, |e: Exchange| gives_back(e, key, bytes))
    &&& seen(history, wrote, overwrote, |e: Exchange| is_refused(e, key, Condition::Absent))
    &&& seen(
        history,
        wrote,
        overwrote,
        |e: Exchange|
            is_refused(e, key, Condition::Tagged("trine-object-client-contract-mismatch"@)),
    )
    &&& seen(history, overwrote, end, |e: Exchange| is_stale(e, key, first))
    &&& seen(history, overwrote, end, |e: Exchange| shows_size(e, key, more.len(), second))
    &&& seen(history, overwrote, end, |e: Exchange| gives_back(e, key, more))
}

proof fn probe_bytes_differ()
    ensures
        contract::contract_first() != contract::contract_second(),
        reclamation::reclamation_first() != reclamation::reclamation_second(),
{
    reveal_strlit("trine-object-client-contract:first");
    reveal_strlit("trine-object-client-contract:second");
    reveal_strlit("trine-object-reclamation:first");
    reveal_strlit("trine-object-reclamation:second");
    vstd::utf8::encode_utf8_decode_utf8("trine-object-client-contract:first"@);
    vstd::utf8::encode_utf8_decode_utf8("trine-object-client-contract:second"@);
    vstd::utf8::encode_utf8_decode_utf8("trine-object-reclamation:first"@);
    vstd::utf8::encode_utf8_decode_utf8("trine-object-reclamation:second"@);
    assert("trine-object-client-contract:first"@.len()
        != "trine-object-client-contract:second"@.len());
    assert("trine-object-reclamation:first"@.len() != "trine-object-reclamation:second"@.len());
}

/// A client that passes the check was seen to keep its contract.
pub proof fn checked_client_keeps_its_contract(
    before: Seq<Exchange>,
    after: Seq<Exchange>,
    key: Seq<char>,
)
    requires
        contract::contract_checked(before, after, key, Ok(())),
    ensures
        exists|wrote: int, overwrote: int| #[trigger]
            keeps_contract(after, before.len() as int, key, wrote, overwrote),
{
    let from = before.len() as int;
    probe_bytes_differ();
    assert(contract::contract_passes(after, from, key, 0));
    assert(contract::contract_passes(after, from, key, 1));
    assert(contract::contract_passes(after, from, key, 2));
    assert(contract::contract_passes(after, from, key, 3));
    assert(contract::contract_passes(after, from, key, 4));
    assert(contract::contract_passes(after, from, key, 5));
    assert(contract::contract_passes(after, from, key, 6));
    assert(contract::contract_passes(after, from, key, 7));
    assert(contract::contract_passes(after, from, key, 8));
    assert(contract::contract_passes(after, from, key, 9));
    let first = stored_tag(after[from + 1], key)->0;
    let second = stored_tag(after[from + 6], key)->0;
    let bytes = sent_bytes(after[from + 1]);
    let more = sent_bytes(after[from + 6]);
    assert(shows_size(after[from + 2], key, bytes.len(), first));
    assert(gives_back(after[from + 3], key, bytes));
    assert(is_refused(after[from + 4], key, Condition::Absent));
    assert(is_stale(after[from + 7], key, first));
    assert(shows_size(after[from + 8], key, more.len(), second));
    assert(gives_back(after[from + 9], key, more));
    assert(keeps_contract(after, from, key, from + 1, from + 6));
}

/// The check of a client changes no object but the one that it is made with, and it starts by
/// deleting that one.
pub proof fn check_changes_only_its_own_object(
    before: Seq<Exchange>,
    after: Seq<Exchange>,
    key: Seq<char>,
    result: Result<()>,
    i: int,
)
    requires
        contract::contract_checked(before, after, key, result),
        before.len() <= i < after.len(),
    ensures
        changed_key(after[i]) is Some ==> changed_key(after[i]) == Some(key),
        after[before.len() as int] matches Exchange::Delete { .. },
{
    let from = before.len() as int;
    let last = after.len() - from - 1;
    if 0 < last {
        assert(contract::contract_passes(after, from, key, 0));
    }
    if i - from < last {
        assert(contract::contract_passes(after, from, key, i - from));
    }
    assert(contract::contract_asks(after, from, key, i - from));
}

/// Whether a history shows that a deleted key is gone: neither metadata nor bytes are found, and
/// the listing of its directory does not have it.
pub open spec fn shows_gone(history: Seq<Exchange>, from: int, to: int, key: Seq<char>) -> bool {
    &&& seen(
        history,
        from,
        to,
        |e: Exchange| e is Head && finds_nothing(e, key),
    )
    &&& seen(history, from, to, |e: Exchange| e is Get && finds_nothing(e, key))
    &&& seen(history, from, to, |e: Exchange| lists_key(e, key, false))
}

/// Whether a history shows the bytes of a write by every kind of read: by metadata without a
/// provider version, as a whole, as a part under the tag of the write, and in a listing.
pub open spec fn shows_written(
    history: Seq<Exchange>,
    from: int,
    to: int,
    key: Seq<char>,
    bytes: Seq<u8>,
    tag: Seq<char>,
) -> bool {
    &&& seen(
        history,
        from,
        to,
        |e: Exchange| shows_size(e, key, bytes.len(), tag) && shows_no_version(e, key),
    )
    &&& seen(history, from, to, |e: Exchange| gives_back(e, key, bytes))
    &&& seen(history, from, to, |e: Exchange| gives_back_part(e, key, tag, bytes))
    &&& seen(history, from, to, |e: Exchange| lists_key(e, key, true))
}

/// Whether a history shows that objects of a store can be reclaimed for good: one is created where
/// none was, overwritten with other bytes under its tag, and shown after each of the two by every
/// kind of read. It is deleted and then gone, and deleted once more and still gone.
pub open spec fn shows_reclamation(
    history: Seq<Exchange>,
    from: int,
    key: Seq<char>,
    wrote: int,
    overwrote: int,
    deleted: int,
    again: int,
) -> bool {
    let first = stored_tag(history[wrote], key)->0;
    let second = stored_tag(history[overwrote], key)->0;
    let bytes = sent_bytes(history[wrote]);
    let more = sent_bytes(history[overwrote]);
    &&& from <= wrote < overwrote < deleted < again < history.len()
    &&& stored_tag(history[wrote], key) is Some
    &&& writes_under(history[wrote], Condition::Absent)
    &&& stored_tag(history[overwrote], key) is Some
    &&& writes_under(history[overwrote], Condition::Tagged(first))
    &&& first != second
    &&& bytes != more
    &&& shows_written(history, wrote, overwrote, key, bytes, first)
    &&& shows_written(history, overwrote, deleted, key, more, second)
    &&& is_deleted(history[deleted], key)
    &&& shows_gone(history, deleted, again, key)
    &&& is_deleted(history[again], key)
    &&& shows_gone(history, again, history.len() as int, key)
}

proof fn look_shows_written(
    history: Seq<Exchange>,
    at: int,
    to: int,
    key: Seq<char>,
    bytes: Seq<u8>,
    tag: Seq<char>,
)
    requires
        0 <= at,
        at + 5 <= to <= history.len(),
        reclamation::look_passes(history[at], key, bytes, tag, 0),
        reclamation::look_passes(history[at + 1], key, bytes, tag, 1),
        reclamation::look_passes(history[at + 2], key, bytes, tag, 2),
        reclamation::look_passes(history[at + 3], key, bytes, tag, 3),
    ensures
        shows_written(history, at - 1, to, key, bytes, tag),
{
    assert(shows_size(history[at], key, bytes.len(), tag) && shows_no_version(history[at], key));
    assert(gives_back(history[at + 1], key, bytes));
    assert(gives_back_part(history[at + 2], key, tag, bytes));
    assert(lists_key(history[at + 3], key, true));
}

proof fn absence_shows_gone(history: Seq<Exchange>, at: int, to: int, key: Seq<char>)
    requires
        0 <= at,
        at + 3 <= to <= history.len(),
        reclamation::absence_passes(history[at], key, 0),
        reclamation::absence_passes(history[at + 1], key, 1),
        reclamation::absence_passes(history[at + 2], key, 2),
    ensures
        shows_gone(history, at - 1, to, key),
{
    assert(history[at] is Head && finds_nothing(history[at], key));
    assert(history[at + 1] is Get && finds_nothing(history[at + 1], key));
    assert(lists_key(history[at + 2], key, false));
}

/// A store that passes the reclamation check was seen to reclaim an object for good.
pub proof fn checked_store_reclaims(
    before: Seq<Exchange>,
    after: Seq<Exchange>,
    key: Seq<char>,
)
    requires
        reclamation::reclamation_checked(before, after, key, Ok(())),
    ensures
        exists|wrote: int, overwrote: int, deleted: int, again: int| #[trigger]
            shows_reclamation(
                after,
                before.len() as int,
                key,
                wrote,
                overwrote,
                deleted,
                again,
            ),
{
    let from = before.len() as int;
    probe_bytes_differ();
    assert forall|step: int| 0 <= step < 20 implies #[trigger] reclamation::reclamation_passes(
        after,
        from,
        key,
        step,
    ) by {}
    assert(reclamation::reclamation_passes(after, from, key, 0));
    assert(reclamation::reclamation_passes(after, from, key, 6));
    let first = stored_tag(after[from], key)->0;
    let second = stored_tag(after[from + 6], key)->0;
    assert(reclamation::reclamation_passes(after, from, key, 1));
    assert(reclamation::reclamation_passes(after, from, key, 2));
    assert(reclamation::reclamation_passes(after, from, key, 3));
    assert(reclamation::reclamation_passes(after, from, key, 4));
    look_shows_written(
        after,
        from + 1,
        from + 6,
        key,
        reclamation::reclamation_first(),
        first,
    );
    assert(reclamation::reclamation_passes(after, from, key, 7));
    assert(reclamation::reclamation_passes(after, from, key, 8));
    assert(reclamation::reclamation_passes(after, from, key, 9));
    assert(reclamation::reclamation_passes(after, from, key, 10));
    look_shows_written(
        after,
        from + 7,
        from + 12,
        key,
        reclamation::reclamation_second(),
        second,
    );
    assert(reclamation::reclamation_passes(after, from, key, 12));
    assert(reclamation::reclamation_passes(after, from, key, 13));
    assert(reclamation::reclamation_passes(after, from, key, 14));
    assert(reclamation::reclamation_passes(after, from, key, 15));
    absence_shows_gone(after, from + 13, from + 16, key);
    assert(reclamation::reclamation_passes(after, from, key, 16));
    assert(reclamation::reclamation_passes(after, from, key, 17));
    assert(reclamation::reclamation_passes(after, from, key, 18));
    assert(reclamation::reclamation_passes(after, from, key, 19));
    absence_shows_gone(after, from + 17, from + 20, key);
    assert(shows_reclamation(after, from, key, from, from + 6, from + 12, from + 16));
}

/// The reclamation check changes no object but the one that it is made with.
pub proof fn reclamation_check_changes_only_its_own_object(
    before: Seq<Exchange>,
    after: Seq<Exchange>,
    key: Seq<char>,
    result: Result<()>,
    i: int,
)
    requires
        reclamation::reclamation_checked(before, after, key, result),
        before.len() <= i < after.len(),
    ensures
        changed_key(after[i]) is Some ==> changed_key(after[i]) == Some(key),
{
    let from = before.len() as int;
    let last = after.len() - from - 1;
    if i - from < last {
        assert(reclamation::reclamation_passes(after, from, key, i - from));
    }
    assert(reclamation::reclamation_asks(after, from, key, i - from));
}

/// A namespace qualifies only if both a chunk and a descriptor under its prefix were reclaimed for
/// good.
pub proof fn qualified_store_reclaims(
    before: Seq<Exchange>,
    after: Seq<Exchange>,
    number: u64,
    prefix: Seq<char>,
    evidence: Seq<u8>,
    chunk: (u64, u64),
    descriptor: (u64, u64),
    qualified: QualifiedObjectStoreReclamation,
)
    requires
        reclamation::qualification(
            before,
            after,
            number,
            prefix,
            evidence,
            chunk,
            descriptor,
            Ok(qualified),
        ),
    ensures
        ({
            let middle = after.take(before.len() as int + 20);
            let root = keys::canonical(prefix);
            let chunk_key = keys::canonical(
                contract::probe_path(
                    root + "/content-v1/chunks"@,
                    "reclamation-chunk"@,
                    chunk.0,
                    chunk.1,
                ),
            );
            let descriptor_key = keys::canonical(
                contract::probe_path(
                    root + "/content-v1/domains"@,
                    "reclamation-descriptor"@,
                    descriptor.0,
                    descriptor.1,
                ),
            );
            &&& exists|a: int, b: int, c: int, d: int| #[trigger]
                shows_reclamation(middle, before.len() as int, chunk_key, a, b, c, d)
            &&& exists|a: int, b: int, c: int, d: int| #[trigger]
                shows_reclamation(after, middle.len() as int, descriptor_key, a, b, c, d)
        }),
{
    let middle = after.take(before.len() as int + 20);
    checked_store_reclaims(
        before,
        middle,
        keys::canonical(reclamation::chunk_probe_path(prefix, chunk)),
    );
    checked_store_reclaims(
        middle,
        after,
        keys::canonical(reclamation::descriptor_probe_path(prefix, descriptor)),
    );
}

/// Only a manifest is ever overwritten: a write of any other object asks for nothing but to create
/// it, and succeeds only if it was created or holds those bytes already.
pub proof fn immutable_objects_are_never_overwritten(
    before: Seq<Exchange>,
    after: Seq<Exchange>,
    kind: StorageObjectKind,
    path: Seq<char>,
    bytes: Seq<u8>,
    result: Result<()>,
    i: int,
)
    requires
        backend::written(before, after, kind, path, bytes, result),
        before.len() <= i < after.len(),
    ensures
        !(kind is Manifest) && changed_key(after[i]) is Some ==> writes_under(
            after[i],
            Condition::Absent,
        ),
        changed_key(after[i]) is Some ==> changed_key(after[i]) == Some(keys::canonical(path))
            && sent_bytes(after[i]) == bytes && !(after[i] is Delete),
{
}

/// A write reports success exactly if it stored the bytes, or found an immutable object that holds
/// them.
pub proof fn successful_write_left_the_bytes(
    before: Seq<Exchange>,
    after: Seq<Exchange>,
    kind: StorageObjectKind,
    path: Seq<char>,
    bytes: Seq<u8>,
    result: Result<()>,
)
    requires
        backend::written(before, after, kind, path, bytes, result),
    ensures
        result is Ok <==> seen(
            after,
            before.len() as int,
            after.len() as int,
            |e: Exchange|
                (stored_tag(e, keys::canonical(path)) is Some && sent_bytes(e) == bytes)
                    || gives_back(e, keys::canonical(path), bytes),
        ),
        kind is Manifest && result is Ok ==> seen(
            after,
            before.len() as int,
            after.len() as int,
            |e: Exchange|
                stored_tag(e, keys::canonical(path)) is Some && sent_bytes(e) == bytes,
        ),
{
    let from = before.len() as int;
    let key = keys::canonical(path);
    let left = |e: Exchange|
        (stored_tag(e, key) is Some && sent_bytes(e) == bytes) || gives_back(e, key, bytes);
    if after.len() > from {
        assert(left(after[from]) || !left(after[from]));
        if after.len() == from + 2 {
            assert(left(after[from + 1]) || !left(after[from + 1]));
        }
        if kind is Manifest && result is Ok {
            assert(stored_tag(after[from], key) is Some && sent_bytes(after[from]) == bytes);
        }
    }
}

/// Tables and blobs are never deleted, whatever their path; another object is deleted exactly if
/// the store was asked to delete it and did.
pub proof fn tables_and_blobs_are_never_deleted(
    before: Seq<Exchange>,
    after: Seq<Exchange>,
    kind: StorageObjectKind,
    path: Seq<char>,
    result: Result<()>,
)
    requires
        backend::removed(before, after, kind, path, result),
    ensures
        kind is Table || kind is Blob ==> result is Err && after == before,
        result is Ok <==> after.len() == before.len() + 1 && is_deleted(
            after[before.len() as int],
            keys::canonical(path),
        ),
        forall|i: int|
            before.len() <= i < after.len() && changed_key(#[trigger] after[i]) is Some
                ==> changed_key(after[i]) == Some(keys::canonical(path)),
{
}

/// An object is removed for good only if the store then showed it to be gone, and one with a
/// provider version is never deleted.
pub proof fn removed_objects_are_gone(
    before: Seq<Exchange>,
    after: Seq<Exchange>,
    path: Seq<char>,
    result: Result<()>,
    i: int,
)
    requires
        backend::removed_for_good(before, after, path, result),
        before.len() <= i < after.len(),
    ensures
        result is Ok ==> shows_gone(
            after,
            before.len() as int,
            after.len() as int,
            keys::canonical(path),
        ),
        changed_key(after[i]) is Some ==> i > before.len() && after[i] is Delete && changed_key(
            after[i],
        ) == Some(keys::canonical(path)) && shows_no_version(
            after[before.len() as int],
            keys::canonical(path),
        ),
{
    let from = before.len() as int;
    let key = keys::canonical(path);
    match after[from] {
        Exchange::Head { reply: Ok(Some(meta)), .. } => {
            if meta.version is None && after.len() > from + 2 {
                absence_of_part(after, from + 2, key, result, i);
            }
        },
        Exchange::Head { reply: Ok(None), .. } => {
            absence_of_part(after, from + 1, key, result, i);
        },
        _ => {},
    }
}

proof fn absence_of_part(
    after: Seq<Exchange>,
    at: int,
    key: Seq<char>,
    result: Result<()>,
    i: int,
)
    requires
        0 < at < after.len(),
        reclamation::found_absent(after.take(at), after, key, result),
    ensures
        result is Ok ==> shows_gone(after, at - 1, after.len() as int, key),
        at <= i < after.len() ==> changed_key(after[i]) is None,
{
    let last = after.len() - at - 1;
    if result is Ok {
        assert(reclamation::absence_passes(after[at + 0], key, 0));
        assert(reclamation::absence_passes(after[at + 1], key, 1));
        absence_shows_gone(after, at, after.len() as int, key);
    }
    if at <= i < after.len() {
        if i - at < last {
            assert(reclamation::absence_passes(after[at + (i - at)], key, i - at));
        }
        assert(reclamation::absence_asks(after[i], key, i - at));
    }
}

/// Bytes that are read are those of one version of the object: the store sent them, from the
/// beginning, in the length and under the tag that the metadata showed, or the metadata showed an
/// empty object twice under one tag.
pub proof fn whole_reads_are_of_one_version(
    before: Seq<Exchange>,
    after: Seq<Exchange>,
    kind: StorageObjectKind,
    path: Seq<char>,
    bytes: Vec<u8>,
)
    requires
        backend::read_whole(before, after, kind, path, Ok(Some(bytes))),
    ensures
        after.len() == before.len() + 2,
        after[before.len() as int] matches Exchange::Head { key, reply: Ok(Some(meta)) } && {
            &&& key == keys::canonical(path)
            &&& meta.size == bytes@.len()
            &&& bytes@.len() > 0 ==> gives_back_part(
                after[before.len() as int + 1],
                key,
                meta.etag@,
                bytes@,
            )
            &&& bytes@.len() == 0 ==> shows_size(after[before.len() as int + 1], key, 0, meta.etag@)
        },
        kind is Manifest ==> bytes@.len() <= limits::MAX_MANIFEST_PAYLOAD_BYTES,
        kind is Table ==> bytes@.len() <= limits::MAX_WHOLE_TABLE_DECODE_BYTES,
        kind is Blob ==> bytes@.len() <= limits::MAX_WHOLE_BLOB_DECODE_BYTES,
{
}

/// An object is read as a whole only up to the limit of its kind: nothing is asked of a larger
/// one but its metadata, and a smaller one is never refused for its size.
pub proof fn whole_reads_are_limited(kind: StorageObjectKind, size: int)
    ensures
        kind is Manifest ==> (backend::may_be_read(kind, size) <==> size
            <= limits::MAX_MANIFEST_PAYLOAD_BYTES && size <= usize::MAX),
        kind is Table ==> (backend::may_be_read(kind, size) <==> size
            <= limits::MAX_WHOLE_TABLE_DECODE_BYTES && size <= usize::MAX),
        kind is Blob ==> (backend::may_be_read(kind, size) <==> size
            <= limits::MAX_WHOLE_BLOB_DECODE_BYTES && size <= usize::MAX),
        !(kind is Manifest) && !(kind is Table) && !(kind is Blob) ==> (backend::may_be_read(
            kind,
            size,
        ) <==> size <= usize::MAX),
{
}

/// A part that is read lies inside the object as it was when it was opened, comes from that
/// version of it, and has the length that was asked for.
pub proof fn parts_are_read_from_the_opened_version(
    before: Seq<Exchange>,
    after: Seq<Exchange>,
    handle: ObjectStoreReadObject,
    offset: usize,
    len: usize,
    result: Result<Vec<u8>>,
)
    requires
        backend::read_range(before, after, handle, offset, len, result),
    ensures
        offset + len > handle.len ==> result is Err && after == before,
        result matches Ok(bytes) ==> offset + len <= handle.len && bytes@.len() == len && (len > 0
            ==> after.len() == before.len() + 1 && after.last() == (Exchange::GetRange {
            key: handle.key@,
            offset: offset as u64,
            len: len as u64,
            etag: handle.etag@,
            reply: result,
        })),
{
    let from = before.len() as int;
    if result is Ok && len > 0 {
        assert(after.last() == after[from]);
    }
}

} // verus!
