//! How a real compare-and-swap object store answers.
use vstd::prelude::*;

use crate::bytes_order;
use crate::error::Result;
use crate::object_store::backend;
use crate::object_store::backend::StorageObjectKind;
use crate::object_store::contract;
use crate::object_store::keys;
use crate::object_store::memory;
use crate::object_store::memory::Stored;
use crate::object_store::reclamation;
use crate::object_store::{Exchange, ObjectListPage, ObjectMeta, PutIf};
use crate::ordered;

verus! {

/// Whether a write took effect under a tag that no object had, or failed and changed nothing.
pub open spec fn stores(
    objects: Map<Seq<char>, Stored>,
    key: Seq<char>,
    bytes: Seq<u8>,
    written: Option<Seq<char>>,
    after: Map<Seq<char>, Stored>,
) -> bool {
    match written {
        Some(etag) => {
            &&& after == objects.insert(key, Stored { bytes, etag })
            &&& forall|other: Seq<char>| #[trigger]
                objects.dom().contains(other) ==> objects[other].etag != etag
        },
        None => after == objects,
    }
}

/// Whether an exchange is one that a real compare-and-swap store takes part in: `objects` is
/// what it held before, `after` what it holds afterwards.
pub open spec fn answers(
    objects: Map<Seq<char>, Stored>,
    exchange: Exchange,
    after: Map<Seq<char>, Stored>,
) -> bool {
    match exchange {
        Exchange::Get { key, reply } => {
            &&& after == objects
            &&& reply matches Ok(read) && memory::read_of(objects, key, read)
        },
        Exchange::GetRange { key, offset, len, etag, reply } => {
            &&& after == objects
            &&& memory::range_of(objects, key, offset, len, etag, reply)
        },
        Exchange::Put { key, bytes, .. } => stores(
            objects,
            key,
            bytes,
            contract::written_tag(exchange),
            after,
        ),
        Exchange::Delete { key, reply } => {
            &&& after == objects.remove(key)
            &&& reply is Ok
        },
        Exchange::List { prefix, reply } => {
            &&& after == objects
            &&& reply matches Ok(metas) && memory::is_listing(metas@, objects, prefix, None, None)
        },
        Exchange::ListPage { prefix, after: from, limit, reply } => {
            &&& after == objects
            &&& memory::paged(objects, prefix, from, limit, reply)
        },
        Exchange::Head { key, reply } => {
            &&& after == objects
            &&& reply matches Ok(meta) && memory::head_of(objects, key, meta)
        },
        Exchange::PutIf { key, bytes, condition, reply } => if memory::condition_holds(
            objects,
            key,
            condition,
        ) {
            &&& stores(objects, key, bytes, contract::written_tag(exchange), after)
            &&& contract::written_tag(exchange) is Some || reply is Err
        } else {
            &&& after == objects
            &&& reply matches Ok(PutIf::PreconditionFailed { current }) && match current {
                Some(etag) => memory::current_tag(objects, key) == Some(etag@),
                None => memory::current_tag(objects, key) is None,
            }
        },
    }
}

/// Whether a store answered every exchange since `from`, going through these states.
pub open spec fn answered(
    history: Seq<Exchange>,
    from: int,
    states: Seq<Map<Seq<char>, Stored>>,
) -> bool {
    &&& states.len() == history.len() - from + 1
    &&& forall|i: int|
        0 <= i < history.len() - from ==> answers(
            #[trigger] states[i],
            history[from + i],
            states[i + 1],
        )
}

/// What the backend wrote to a real store, it reads back: the bytes are those that were
/// written, unless the object is too large to be read at once.
pub proof fn written_object_is_read_back(
    before: Seq<Exchange>,
    middle: Seq<Exchange>,
    after: Seq<Exchange>,
    states: Seq<Map<Seq<char>, Stored>>,
    kind: StorageObjectKind,
    path: Seq<char>,
    bytes: Seq<u8>,
    read: Result<Option<Vec<u8>>>,
)
    requires
        backend::written(before, middle, kind, path, bytes, Ok(())),
        backend::read_whole(middle, after, kind, path, read),
        answered(after, before.len() as int, states),
        bytes.len() <= usize::MAX,
    ensures
        backend::may_be_read(kind, bytes.len() as int) ==> (read matches Ok(Some(found)) && found@
            == bytes),
        !backend::may_be_read(kind, bytes.len() as int) ==> (read matches Err(error)
            && backend::refuses_size(error, kind, path, bytes.len())),
{
    let from = before.len() as int;
    let key = keys::canonical(path);
    let wrote = middle.len() - from;
    assert(forall|i: int| 0 <= i < middle.len() ==> #[trigger] after[i] == middle[i]);
    assert(after[from] == middle[from]);
    assert(answers(states[0], after[from], states[1]));
    if wrote == 2 {
        assert(after[from + 1] == middle[from + 1]);
        assert(answers(states[1], after[from + 1], states[2]));
    }
    let held = states[wrote];
    assert(held.dom().contains(key) && held[key].bytes == bytes);
    assert(answers(states[wrote], after[from + wrote], states[wrote + 1]));
    if after.len() > middle.len() + 1 {
        assert(answers(states[wrote + 1], after[from + wrote + 1], states[wrote + 2]));
        assert(after.take(middle.len() as int + 1)[middle.len() as int] == after[
            middle.len() as int
        ]);
        if read is Ok && bytes.len() > 0 {
            assert(bytes.subrange(0, bytes.len() as int) =~= bytes);
        }
    }
    if read is Ok && read->Ok_0 is Some && bytes.len() == 0 {
        assert(read->Ok_0->0@ =~= bytes);
    }
}

/// A real store passes the client check, unless one of its writes fails, as long as it never
/// uses the tag that the check makes up.
pub proof fn real_store_passes_check(
    before: Seq<Exchange>,
    after: Seq<Exchange>,
    states: Seq<Map<Seq<char>, Stored>>,
    key: Seq<char>,
    result: Result<()>,
)
    requires
        contract::contract_checked(before, after, key, result),
        answered(after, before.len() as int, states),
        forall|i: int|
            0 <= i < after.len() ==> contract::written_tag(#[trigger] after[i]) != Some(
                "trine-object-client-contract-mismatch"@,
            ),
    ensures
        result is Ok || {
            &&& after.len() - before.len() == 2 || after.len() - before.len() == 7
            &&& contract::reply_error(after.last()) == Some(result->Err_0)
        },
{
    let from = before.len() as int;
    let last = after.len() - from - 1;
    assert forall|i: int| 0 <= i <= last implies answers(
        #[trigger] states[i],
        after[from + i],
        states[i + 1],
    ) by {}
    assert(after.last() == after[from + last]);
    let first = contract::written_tag(after[from + 1])->0;
    let stored = Stored { bytes: contract::contract_first(), etag: first };
    assert forall|step: int| 0 <= step <= last implies #[trigger] contract::contract_asks(
        after,
        from,
        key,
        step,
    ) by {
        if step < last {
            assert(contract::contract_passes(after, from, key, step));
        }
    }
    assert(contract::contract_asks(after, from, key, 0));
    assert(answers(states[0], after[from + 0], states[1]));
    assert(contract::contract_passes(after, from, key, 0));
    if last >= 1 {
        assert(contract::contract_asks(after, from, key, 1));
        assert(answers(states[1], after[from + 1], states[2]));
    }
    if last >= 2 {
        assert(contract::contract_passes(after, from, key, 1));
        assert(first != "trine-object-client-contract-mismatch"@);
        assert(states[2].dom().contains(key) && states[2][key] == stored);
        assert(contract::contract_asks(after, from, key, 2));
        assert(answers(states[2], after[from + 2], states[3]));
        assert(states[3] == states[2]);
        assert(contract::contract_passes(after, from, key, 2));
    }
    if last >= 3 {
        assert(contract::contract_asks(after, from, key, 3));
        assert(answers(states[3], after[from + 3], states[4]));
        assert(states[4] == states[2]);
        assert(contract::contract_passes(after, from, key, 3));
    }
    if last >= 4 {
        assert(contract::contract_asks(after, from, key, 4));
        assert(answers(states[4], after[from + 4], states[5]));
        assert(states[5] == states[2]);
        assert(contract::contract_passes(after, from, key, 4));
    }
    if last >= 5 {
        assert(contract::contract_asks(after, from, key, 5));
        assert(answers(states[5], after[from + 5], states[6]));
        assert(states[6] == states[2]);
        assert(contract::contract_passes(after, from, key, 5));
    }
    if last >= 6 {
        assert(contract::contract_asks(after, from, key, 6));
        assert(answers(states[6], after[from + 6], states[7]));
    }
    if last >= 7 {
        assert(contract::contract_passes(after, from, key, 6));
        let second = contract::written_tag(after[from + 6])->0;
        assert(states[7].dom().contains(key) && states[7][key] == (Stored {
            bytes: contract::contract_second(),
            etag: second,
        }));
        assert(contract::contract_asks(after, from, key, 7));
        assert(answers(states[7], after[from + 7], states[8]));
        assert(states[8] == states[7]);
        assert(contract::contract_passes(after, from, key, 7));
    }
    if last >= 8 {
        assert(contract::contract_asks(after, from, key, 8));
        assert(answers(states[8], after[from + 8], states[9]));
        assert(states[9] == states[7]);
        assert(contract::contract_passes(after, from, key, 8));
    }
    if last >= 9 {
        assert(contract::contract_asks(after, from, key, 9));
        assert(answers(states[9], after[from + 9], states[10]));
        assert(contract::contract_passes(after, from, key, 9));
    }
}

/// Writing through the backend changes no object of a real store but the one that is written, and
/// an immutable object that is there already stays as it is: writing the same bytes again succeeds,
/// and writing others fails.
pub proof fn immutable_objects_stay_as_they_are(
    before: Seq<Exchange>,
    after: Seq<Exchange>,
    states: Seq<Map<Seq<char>, Stored>>,
    kind: StorageObjectKind,
    path: Seq<char>,
    bytes: Seq<u8>,
    result: Result<()>,
    other: Seq<char>,
)
    requires
        backend::written(before, after, kind, path, bytes, result),
        answered(after, before.len() as int, states),
    ensures
        other != keys::canonical(path) || !keys::is_key(path) ==> states.last().dom().contains(other)
            == states[0].dom().contains(other) && states.last()[other] == states[0][other],
        !(kind is Manifest) && keys::is_key(path) && states[0].dom().contains(keys::canonical(path))
            ==> {
            &&& states.last()[keys::canonical(path)] == states[0][keys::canonical(path)]
            &&& result is Ok <==> states[0][keys::canonical(path)].bytes == bytes
        },
        result is Ok ==> states.last().dom().contains(keys::canonical(path)) && states.last()[
            keys::canonical(path)
        ].bytes == bytes,
{
    let from = before.len() as int;
    let key = keys::canonical(path);
    if keys::is_key(path) {
        assert(answers(states[0], after[from + 0], states[1]));
        if after.len() == from + 2 {
            assert(answers(states[1], after[from + 1], states[2]));
            assert(states.last() == states[2]);
        } else {
            assert(states.last() == states[1]);
        }
    } else {
        assert(states.last() == states[0]);
    }
}

/// What the backend deleted from a real store is not read any more, and nothing else is deleted.
pub proof fn deleted_object_is_not_read(
    before: Seq<Exchange>,
    middle: Seq<Exchange>,
    after: Seq<Exchange>,
    states: Seq<Map<Seq<char>, Stored>>,
    kind: StorageObjectKind,
    path: Seq<char>,
    read: Result<Option<Vec<u8>>>,
    other: Seq<char>,
)
    requires
        backend::removed(before, middle, kind, path, Ok(())),
        backend::read_whole(middle, after, kind, path, read),
        answered(after, before.len() as int, states),
    ensures
        read matches Ok(None),
        other != keys::canonical(path) ==> states.last().dom().contains(other)
            == states[0].dom().contains(other) && states.last()[other] == states[0][other],
{
    let from = before.len() as int;
    let key = keys::canonical(path);
    assert(after[from] == middle[from]);
    assert(answers(states[0], after[from + 0], states[1]));
    assert(!states[1].dom().contains(key));
    assert(answers(states[1], after[from + 1], states[2]));
    assert(states.last() == states[2]);
}

/// An object that was removed for good is not in a real store any more, and nothing else is gone.
pub proof fn object_removed_for_good_is_gone(
    before: Seq<Exchange>,
    after: Seq<Exchange>,
    states: Seq<Map<Seq<char>, Stored>>,
    path: Seq<char>,
    result: Result<()>,
    other: Seq<char>,
)
    requires
        backend::removed_for_good(before, after, path, result),
        answered(after, before.len() as int, states),
    ensures
        keys::is_key(path) ==> result is Ok && !states.last().dom().contains(keys::canonical(path)),
        other != keys::canonical(path) || !keys::is_key(path) ==> states.last().dom().contains(other)
            == states[0].dom().contains(other) && states.last()[other] == states[0][other],
{
    let from = before.len() as int;
    let key = keys::canonical(path);
    if keys::is_key(path) {
        assert(answers(states[0], after[from + 0], states[1]));
        if states[0].dom().contains(key) {
            assert(answers(states[1], after[from + 1], states[2]));
            assert(!states[2].dom().contains(key));
            absent_object_is_found_absent(after, from, states, 2, key, result);
        } else {
            absent_object_is_found_absent(after, from, states, 1, key, result);
        }
    } else {
        assert(states.last() == states[0]);
    }
}

proof fn absent_object_is_found_absent(
    after: Seq<Exchange>,
    from: int,
    states: Seq<Map<Seq<char>, Stored>>,
    at: int,
    key: Seq<char>,
    result: Result<()>,
)
    requires
        0 <= from,
        0 <= at,
        from + at <= after.len(),
        answered(after, from, states),
        !states[at].dom().contains(key),
        reclamation::found_absent(after.take(from + at), after, key, result),
    ensures
        result is Ok,
        states.last() == states[at],
{
    let start = from + at;
    let last = after.len() - start - 1;
    assert(answers(states[at], after[from + at], states[at + 1]));
    if last > 0 {
        assert(reclamation::absence_passes(after[start + 0], key, 0));
        assert(answers(states[at + 1], after[from + (at + 1)], states[at + 2]));
    }
    if last > 1 {
        assert(reclamation::absence_passes(after[start + 1], key, 1));
        assert(answers(states[at + 2], after[from + (at + 2)], states[at + 3]));
    }
    assert(after.last() == after[start + last]);
    if last == 2 {
        assert(reclamation::absence_asks(after[start + 2], key, 2));
        let metas = after[start + 2]->List_reply->Ok_0@;
        assert forall|i: int| 0 <= i < metas.len() implies (#[trigger] metas[i]).key@ != key by {
            assert(memory::describes(metas[i], states[at + 2]));
        }
        assert(!reclamation::lists(metas, key));
        assert(reclamation::absence_passes(after[start + 2], key, 2));
    }
    assert(states.last() == states[at + last + 1]);
}

/// The pages of a real store are sound, so that no listing of it is refused.
pub proof fn pages_of_a_real_store_are_sound(
    objects: Map<Seq<char>, Stored>,
    prefix: Seq<char>,
    after: Option<Seq<char>>,
    limit: usize,
    page: ObjectListPage,
)
    requires
        memory::paged(objects, prefix, after, limit, Ok(page)),
    ensures
        contract::page_is_sound(page, prefix, after, limit),
{
    let metas = page.objects@;
    let through = match page.next_after {
        Some(last) => Some(last@),
        None => None,
    };
    assert(memory::is_listing(metas, objects, prefix, after, through));
    assert forall|i: int| 0 < i < metas.len() implies ordered::name_lt(
        metas[i - 1].key@,
        (#[trigger] metas[i]).key@,
    ) by {}
    if metas.len() > 0 {
        assert(memory::is_listed(metas[0].key@, prefix, after, through));
    }
}

/// A sound page holds no more objects than were asked for, each once, in key order, all with the
/// prefix and behind the place where it was to start; one that goes on does so behind its last
/// object.
pub proof fn sound_pages_advance(
    page: ObjectListPage,
    prefix: Seq<char>,
    after: Seq<char>,
    limit: usize,
    i: int,
    j: int,
)
    requires
        contract::page_is_sound(page, prefix, Some(after), limit),
        0 <= i < j < page.objects@.len(),
    ensures
        page.objects@.len() <= limit,
        ordered::name_lt(after, page.objects@[i].key@),
        ordered::name_lt(page.objects@[i].key@, page.objects@[j].key@),
        page.objects@[i].key@ != page.objects@[j].key@,
        memory::name_has_prefix(page.objects@[j].key@, prefix),
        page.next_after matches Some(next) ==> !ordered::name_lt(next@, page.objects@[j].key@),
{
    ordered::name_order_facts();
    let metas = page.objects@;
    keys_go_up(metas, prefix, Some(after), i, j);
    if i > 0 {
        keys_go_up(metas, prefix, Some(after), 0, i);
    }
    if j < metas.len() - 1 {
        keys_go_up(metas, prefix, Some(after), j, metas.len() - 1);
    }
    assert(ordered::name_lt(after, metas[0].key@));
}

proof fn keys_go_up(
    metas: Seq<ObjectMeta>,
    prefix: Seq<char>,
    after: Option<Seq<char>>,
    i: int,
    j: int,
)
    requires
        contract::keys_advance(metas, prefix, after),
        0 <= i < j < metas.len(),
    ensures
        ordered::name_lt(metas[i].key@, metas[j].key@),
    decreases j - i,
{
    ordered::name_order_facts();
    assert(ordered::name_lt(metas[j - 1].key@, metas[j].key@));
    if i < j - 1 {
        keys_go_up(metas, prefix, after, i, j - 1);
    }
}

proof fn parent_begins_the_key(key: Seq<char>)
    ensures
        reclamation::parent_of(key).len() <= key.len(),
        key.take(reclamation::parent_of(key).len() as int) == reclamation::parent_of(key),
    decreases key.len(),
{
    if key.len() > 0 {
        parent_begins_the_key(key.drop_last());
        let parent = reclamation::parent_of(key);
        assert(key.drop_last().take(parent.len() as int) =~= key.take(parent.len() as int));
    }
}

proof fn look_step_passes(
    objects: Map<Seq<char>, Stored>,
    exchange: Exchange,
    after: Map<Seq<char>, Stored>,
    key: Seq<char>,
    bytes: Seq<u8>,
    tag: Seq<char>,
    step: int,
)
    requires
        answers(objects, exchange, after),
        objects.dom().contains(key),
        objects[key] == (Stored { bytes, etag: tag }),
        0 <= step < 5,
        bytes.len() <= u32::MAX,
        reclamation::look_asks(exchange, key, bytes, tag, step),
    ensures
        reclamation::look_passes(exchange, key, bytes, tag, step),
        after == objects,
{
    ordered::name_order_facts();
    if step == 2 {
        assert(bytes.subrange(0, bytes.len() as int) =~= bytes);
    } else if step == 3 {
        let metas = exchange->List_reply->Ok_0@;
        let parent = reclamation::parent_of(key);
        parent_begins_the_key(key);
        memory::names_begin_with_their_beginnings(parent, key.skip(parent.len() as int));
        assert(parent + key.skip(parent.len() as int) =~= key);
        assert(memory::is_listed(key, parent, None, None));
        let i = choose|i: int| 0 <= i < metas.len() && (#[trigger] metas[i]).key@ == key;
        assert(memory::describes(metas[i], objects));
        assert forall|j: int| 0 <= j < metas.len() && j != i implies (#[trigger] metas[j]).key@
            != key by {
            if i < j {
                assert(ordered::name_lt(metas[i].key@, metas[j].key@));
            } else {
                assert(ordered::name_lt(metas[j].key@, metas[i].key@));
            }
        }
        assert(reclamation::lists_once(metas, key));
    } else if step == 4 {
        let page = exchange->ListPage_reply->Ok_0;
        pages_of_a_real_store_are_sound(objects, key, None, 1, page);
        memory::names_begin_with_their_beginnings(key, Seq::empty());
        assert(key + Seq::<char>::empty() =~= key);
        let metas = page.objects@;
        match page.next_after {
            Some(last) => {
                assert(memory::is_listed(metas[0].key@, key, None, Some(last@)));
                let front = vstd::utf8::encode_utf8(key);
                bytes_order::prefixed_key_not_before_prefix(
                    vstd::utf8::encode_utf8(last@),
                    front,
                );
                assert(memory::is_listed(key, key, None, Some(last@)));
            },
            None => {
                assert(memory::is_listed(key, key, None, None));
            },
        }
        let i = choose|i: int| 0 <= i < metas.len() && (#[trigger] metas[i]).key@ == key;
        assert(i == 0);
    }
}

proof fn absence_step_passes(
    objects: Map<Seq<char>, Stored>,
    exchange: Exchange,
    after: Map<Seq<char>, Stored>,
    key: Seq<char>,
    step: int,
)
    requires
        answers(objects, exchange, after),
        !objects.dom().contains(key),
        0 <= step < 3,
        reclamation::absence_asks(exchange, key, step),
    ensures
        reclamation::absence_passes(exchange, key, step),
        after == objects,
{
    if step == 2 {
        let metas = exchange->List_reply->Ok_0@;
        assert forall|i: int| 0 <= i < metas.len() implies (#[trigger] metas[i]).key@ != key by {
            assert(memory::describes(metas[i], objects));
        }
    }
}

/// What a real store holds under the key of a reclamation check before each of its steps.
spec fn holds_at_step(
    objects: Map<Seq<char>, Stored>,
    key: Seq<char>,
    first: Seq<char>,
    second: Seq<char>,
    step: int,
) -> bool {
    if 1 <= step <= 6 {
        objects.dom().contains(key) && objects[key] == (Stored {
            bytes: reclamation::reclamation_first(),
            etag: first,
        })
    } else if 7 <= step <= 12 {
        objects.dom().contains(key) && objects[key] == (Stored {
            bytes: reclamation::reclamation_second(),
            etag: second,
        })
    } else {
        !objects.dom().contains(key)
    }
}

proof fn reclamation_step_passes(
    after: Seq<Exchange>,
    from: int,
    objects: Map<Seq<char>, Stored>,
    next: Map<Seq<char>, Stored>,
    key: Seq<char>,
    step: int,
)
    requires
        0 <= step < 20,
        answers(objects, after[from + step], next),
        reclamation::reclamation_asks(after, from, key, step),
        holds_at_step(
            objects,
            key,
            contract::written_tag(after[from])->0,
            contract::written_tag(after[from + 6])->0,
            step,
        ),
        step == 0 || step == 6 ==> contract::written_tag(after[from + step]) is Some,
        reclamation::reclamation_first().len() <= u32::MAX,
        reclamation::reclamation_second().len() <= u32::MAX,
    ensures
        reclamation::reclamation_passes(after, from, key, step),
        step < 19 ==> holds_at_step(
            next,
            key,
            contract::written_tag(after[from])->0,
            contract::written_tag(after[from + 6])->0,
            step + 1,
        ),
{
    let exchange = after[from + step];
    let first = contract::written_tag(after[from])->0;
    let second = contract::written_tag(after[from + 6])->0;
    if 1 <= step < 6 {
        look_step_passes(
            objects,
            exchange,
            next,
            key,
            reclamation::reclamation_first(),
            first,
            step - 1,
        );
    } else if 7 <= step < 12 {
        look_step_passes(
            objects,
            exchange,
            next,
            key,
            reclamation::reclamation_second(),
            second,
            step - 7,
        );
    } else if 13 <= step < 16 {
        absence_step_passes(objects, exchange, next, key, step - 13);
    } else if 17 <= step {
        absence_step_passes(objects, exchange, next, key, step - 17);
    }
}

/// A real store that has no object under the key passes the reclamation check, unless one of its
/// two writes fails.
pub proof fn real_store_passes_reclamation_check(
    before: Seq<Exchange>,
    after: Seq<Exchange>,
    states: Seq<Map<Seq<char>, Stored>>,
    key: Seq<char>,
    result: Result<()>,
)
    requires
        reclamation::reclamation_checked(before, after, key, result),
        answered(after, before.len() as int, states),
        !states[0].dom().contains(key),
    ensures
        result is Ok || {
            &&& after.len() - before.len() == 1 || after.len() - before.len() == 7
            &&& contract::reply_error(after.last()) == Some(result->Err_0)
        },
        result is Ok ==> !states.last().dom().contains(key),
{
    let from = before.len() as int;
    let last = after.len() - from - 1;
    probe_bytes_are_short();
    assert(after.last() == after[from + last]);
    steps_hold(after, from, states, key, last);
    assert(answers(states[last], after[from + last], states[last + 1]));
    if (last != 0 && last != 6) || contract::written_tag(after[from + last]) is Some {
        reclamation_step_passes(after, from, states[last], states[last + 1], key, last);
        if last == 19 {
            absence_step_passes(states[last], after[from + last], states[last + 1], key, 2);
            assert(states.last() == states[last + 1]);
        }
    }
}

proof fn steps_hold(
    after: Seq<Exchange>,
    from: int,
    states: Seq<Map<Seq<char>, Stored>>,
    key: Seq<char>,
    step: int,
)
    requires
        0 <= from,
        0 <= step < 20,
        from + step < after.len(),
        answered(after, from, states),
        !states[0].dom().contains(key),
        forall|s: int|
            0 <= s < step ==> #[trigger] reclamation::reclamation_passes(after, from, key, s),
        reclamation::reclamation_first().len() <= u32::MAX,
        reclamation::reclamation_second().len() <= u32::MAX,
    ensures
        holds_at_step(
            states[step],
            key,
            contract::written_tag(after[from])->0,
            contract::written_tag(after[from + 6])->0,
            step,
        ),
    decreases step,
{
    if step > 0 {
        let s = step - 1;
        steps_hold(after, from, states, key, s);
        assert(reclamation::reclamation_passes(after, from, key, s));
        assert(answers(states[s], after[from + s], states[s + 1]));
        reclamation_step_passes(after, from, states[s], states[s + 1], key, s);
    }
}

proof fn probe_bytes_are_short()
    ensures
        reclamation::reclamation_first().len() <= u32::MAX,
        reclamation::reclamation_second().len() <= u32::MAX,
{
    reveal_strlit("trine-object-reclamation:first");
    reveal_strlit("trine-object-reclamation:second");
    short_text("trine-object-reclamation:first"@);
    short_text("trine-object-reclamation:second"@);
}

proof fn short_text(text: Seq<char>)
    ensures
        vstd::utf8::encode_utf8(text).len() <= 4 * text.len(),
    decreases text.len(),
{
    if text.len() > 0 {
        short_text(text.drop_first());
    }
}

} // verus!
