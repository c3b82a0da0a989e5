//! Checks of what an object client does with one temporary object.
use vstd::prelude::*;
use vstd::string::*;

use crate::bytes_order::{bytes_equal, starts_with, KeyOrder};
use crate::error::{Error, ErrorKind, Result};
use crate::object_store;
use crate::object_store::keys;
use crate::object_store::keys::canonical_object_key;
use crate::object_store::memory;
use crate::object_store::report;
use crate::object_store::report::{show_error, show_optional_tag, show_some_text};
use crate::object_store::{
    Condition, ETag, Exchange, ObjectClient, ObjectListPage, ObjectMeta, Precondition, PutIf,
};
use crate::ordered;
use crate::ordered::order_names;
use crate::text;
use crate::text::{join, push_decimal, quoted};

verus! {

/// Whether the keys of a page start with the prefix and advance the exclusive cursor.
pub open spec fn keys_advance(
    metas: Seq<ObjectMeta>,
    prefix: Seq<char>,
    after: Option<Seq<char>>,
) -> bool {
    &&& forall|i: int|
        0 <= i < metas.len() ==> memory::name_has_prefix((#[trigger] metas[i]).key@, prefix)
    &&& forall|i: int|
        0 < i < metas.len() ==> ordered::name_lt(
            metas[i - 1].key@,
            (#[trigger] metas[i]).key@,
        )
    &&& after is Some && metas.len() > 0 ==> ordered::name_lt(after->0, metas[0].key@)
}

/// Whether a page is one that a listing may return.
pub open spec fn page_is_sound(
    page: ObjectListPage,
    prefix: Seq<char>,
    after: Option<Seq<char>>,
    limit: usize,
) -> bool {
    &&& page.objects@.len() <= limit
    &&& keys_advance(page.objects@, prefix, after)
    &&& match page.next_after {
        Some(next) => page.objects@.len() > 0 && next@ == page.objects@.last().key@,
        None => true,
    }
}

/// What is wrong with the `i`th key of a page.
pub open spec fn entry_fault(
    metas: Seq<ObjectMeta>,
    prefix: Seq<char>,
    after: Option<Seq<char>>,
    i: int,
) -> Option<Seq<char>> {
    let key = metas[i].key@;
    let previous = if i == 0 {
        after
    } else {
        Some(metas[i - 1].key@)
    };
    if !memory::name_has_prefix(key, prefix) {
        Some(
            "object listing key "@ + text::quoted_text(key) + " does not start with prefix "@
                + text::quoted_text(prefix),
        )
    } else if previous is Some && !ordered::name_lt(previous->0, key) {
        Some(
            "object listing key "@ + text::quoted_text(key)
                + " does not advance exclusive cursor "@ + report::optional_text_shown(previous),
        )
    } else {
        None
    }
}

/// What is wrong with the first key of a page with which something is.
pub open spec fn entries_fault(
    metas: Seq<ObjectMeta>,
    prefix: Seq<char>,
    after: Option<Seq<char>>,
) -> Option<Seq<char>>
    decreases metas.len(),
{
    if metas.len() == 0 {
        None
    } else {
        match entries_fault(metas.drop_last(), prefix, after) {
            Some(fault) => Some(fault),
            None => entry_fault(metas, prefix, after, metas.len() - 1),
        }
    }
}

/// What is wrong with a page.
pub open spec fn page_fault(
    page: ObjectListPage,
    prefix: Seq<char>,
    after: Option<Seq<char>>,
    limit: usize,
) -> Option<Seq<char>> {
    let metas = page.objects@;
    if metas.len() > limit {
        Some(
            "object listing returned "@ + text::decimal(metas.len()) + " entries for page limit "@
                + text::decimal(limit as nat),
        )
    } else {
        match (entries_fault(metas, prefix, after), page.next_after) {
            (Some(fault), _) => Some(fault),
            (None, None) => None,
            (None, Some(next)) => if metas.len() == 0 {
                Some("object listing returned an empty page with a continuation cursor"@)
            } else if next@ != metas.last().key@ {
                Some(
                    "object listing continuation "@ + text::quoted_text(next@)
                        + " does not equal last key "@ + text::quoted_text(metas.last().key@),
                )
            } else {
                None
            },
        }
    }
}

/// One key more is looked at where nothing is wrong with the keys before it.
proof fn one_more_entry(
    metas: Seq<ObjectMeta>,
    prefix: Seq<char>,
    after: Option<Seq<char>>,
    count: int,
)
    requires
        0 <= count < metas.len(),
    ensures
        entries_fault(metas.take(count + 1), prefix, after) == match entries_fault(
            metas.take(count),
            prefix,
            after,
        ) {
            Some(fault) => Some(fault),
            None => entry_fault(metas, prefix, after, count),
        },
{
    assert(metas.take(count + 1).drop_last() =~= metas.take(count));
}

/// What is wrong with the first keys is what is wrong with all of them.
proof fn entries_fault_stays(
    metas: Seq<ObjectMeta>,
    prefix: Seq<char>,
    after: Option<Seq<char>>,
    count: int,
)
    requires
        0 <= count <= metas.len(),
        entries_fault(metas.take(count), prefix, after) is Some,
    ensures
        entries_fault(metas, prefix, after) == entries_fault(metas.take(count), prefix, after),
    decreases metas.len() - count,
{
    if count < metas.len() {
        one_more_entry(metas, prefix, after, count);
        entries_fault_stays(metas, prefix, after, count + 1);
    } else {
        assert(metas.take(count) =~= metas);
    }
}

/// Whether an error says what is wrong with a page.
pub open spec fn page_refused(
    page: ObjectListPage,
    prefix: Seq<char>,
    after: Option<Seq<char>>,
    limit: usize,
    error: Error,
) -> bool {
    &&& !page_is_sound(page, prefix, after, limit)
    &&& page_fault(page, prefix, after, limit) matches Some(fault) && error.says(
        ErrorKind::Corruption,
        fault,
    )
}

/// Nothing is wrong with a page exactly where it is one that a listing may return.
pub proof fn faultless_page_is_sound(
    page: ObjectListPage,
    prefix: Seq<char>,
    after: Option<Seq<char>>,
    limit: usize,
)
    ensures
        page_fault(page, prefix, after, limit) is None <==> page_is_sound(
            page,
            prefix,
            after,
            limit,
        ),
{
    faultless_entries_advance(page.objects@, prefix, after);
}

proof fn faultless_entries_advance(
    metas: Seq<ObjectMeta>,
    prefix: Seq<char>,
    after: Option<Seq<char>>,
)
    ensures
        entries_fault(metas, prefix, after) is None <==> keys_advance(metas, prefix, after),
    decreases metas.len(),
{
    if metas.len() > 0 {
        let shorter = metas.drop_last();
        let at = metas.len() - 1;
        faultless_entries_advance(shorter, prefix, after);
        assert forall|i: int| 0 <= i < shorter.len() implies shorter[i] == #[trigger] metas[i] by {}
        if keys_advance(metas, prefix, after) {
            assert(memory::name_has_prefix(metas[at].key@, prefix));
            assert forall|i: int| 0 <= i < shorter.len() implies memory::name_has_prefix(
                (#[trigger] shorter[i]).key@,
                prefix,
            ) by {
                assert(memory::name_has_prefix(metas[i].key@, prefix));
            }
            assert forall|i: int| 0 < i < shorter.len() implies ordered::name_lt(
                shorter[i - 1].key@,
                (#[trigger] shorter[i]).key@,
            ) by {
                assert(ordered::name_lt(metas[i - 1].key@, metas[i].key@));
            }
            assert(keys_advance(shorter, prefix, after));
            assert(entry_fault(metas, prefix, after, at) is None);
        }
        if entries_fault(metas, prefix, after) is None {
            assert forall|i: int| 0 <= i < metas.len() implies memory::name_has_prefix(
                (#[trigger] metas[i]).key@,
                prefix,
            ) by {
                if i < at {
                    assert(memory::name_has_prefix(shorter[i].key@, prefix));
                }
            }
            assert forall|i: int| 0 < i < metas.len() implies ordered::name_lt(
                metas[i - 1].key@,
                (#[trigger] metas[i]).key@,
            ) by {
                if i < at {
                    assert(ordered::name_lt(shorter[i - 1].key@, shorter[i].key@));
                }
            }
            if at > 0 && after is Some {
                assert(ordered::name_lt(after->0, shorter[0].key@));
            }
        }
    }
}

/// Tests a page of a listing before it is used.
pub fn validate_object_list_page(
    prefix: &str,
    after: Option<&str>,
    limit: usize,
    page: &ObjectListPage,
) -> (result: Result<()>)
    ensures
        match result {
            Ok(()) => limit > 0 && page_is_sound(
                *page,
                prefix@,
                object_store::optional_text(after),
                limit,
            ),
            Err(error) => if limit == 0 {
                error.says(
                    ErrorKind::InvalidOptions,
                    "object listing page limit must be non-zero"@,
                )
            } else {
                page_refused(*page, prefix@, object_store::optional_text(after), limit, error)
            },
        },
{
    if limit == 0 {
        return Err(Error::invalid_options("object listing page limit must be non-zero"));
    }
    let ghost from = object_store::optional_text(after);
    proof {
        faultless_page_is_sound(*page, prefix@, from, limit);
    }
    if page.objects.len() > limit {
        let mut message: String = text::join_number(
            "object listing returned ",
            page.objects.len() as u64,
            " entries for page limit ",
        );
        push_decimal(&mut message, limit as u64);
        return Err(Error::Corruption { message });
    }
    let mut i: usize = 0;
    assert(page.objects@.take(0) =~= Seq::empty());
    while i < page.objects.len()
        invariant
            i <= page.objects@.len() <= limit,
            from == object_store::optional_text(after),
            limit > 0,
            page_fault(*page, prefix@, from, limit) is None <==> page_is_sound(
                *page,
                prefix@,
                from,
                limit,
            ),
            entries_fault(page.objects@.take(i as int), prefix@, from) is None,
        decreases page.objects@.len() - i,
    {
        let key: &str = page.objects[i].key.as_str();
        let previous: Option<&str> = if i == 0 {
            after
        } else {
            Some(page.objects[i - 1].key.as_str())
        };
        proof {
            one_more_entry(page.objects@, prefix@, from, i as int);
            if entry_fault(page.objects@, prefix@, from, i as int) is Some {
                entries_fault_stays(page.objects@, prefix@, from, i + 1);
            }
        }
        if !starts_with(key.as_bytes(), prefix.as_bytes()) {
            let message: String = join("object listing key ", quoted(key).as_str());
            let message: String = join(message.as_str(), " does not start with prefix ");
            let message: String = join(message.as_str(), quoted(prefix).as_str());
            return Err(Error::Corruption { message });
        }
        if let Some(previous) = previous {
            let advances: bool = match order_names(previous, key) {
                KeyOrder::Less => true,
                _ => false,
            };
            if !advances {
                let message: String = join("object listing key ", quoted(key).as_str());
                let message: String = join(
                    message.as_str(),
                    " does not advance exclusive cursor ",
                );
                let message: String = join(message.as_str(), show_some_text(previous).as_str());
                return Err(Error::Corruption { message });
            }
        }
        i = i + 1;
    }
    assert(page.objects@.take(i as int) =~= page.objects@);
    if let Some(next_after) = &page.next_after {
        if page.objects.len() == 0 {
            return Err(
                Error::corruption(
                    "object listing returned an empty page with a continuation cursor",
                ),
            );
        }
        let last: &String = &page.objects[page.objects.len() - 1].key;
        if *next_after != *last {
            let message: String = join(
                "object listing continuation ",
                quoted(next_after.as_str()).as_str(),
            );
            let message: String = join(message.as_str(), " does not equal last key ");
            let message: String = join(message.as_str(), quoted(last.as_str()).as_str());
            return Err(Error::Corruption { message });
        }
    }
    Ok(())
}

/// Whether a client was asked something since `before`, at most `most` times.
pub open spec fn asked_since(before: Seq<Exchange>, after: Seq<Exchange>, most: int) -> bool {
    &&& before.len() < after.len() <= before.len() + most
    &&& forall|i: int| 0 <= i < before.len() ==> #[trigger] after[i] == before[i]
}

/// The error a client replied with.
pub open spec fn reply_error(exchange: Exchange) -> Option<Error> {
    match exchange {
        Exchange::Get { reply: Err(error), .. } => Some(error),
        Exchange::GetRange { reply: Err(error), .. } => Some(error),
        Exchange::Put { reply: Err(error), .. } => Some(error),
        Exchange::Delete { reply: Err(error), .. } => Some(error),
        Exchange::List { reply: Err(error), .. } => Some(error),
        Exchange::ListPage { reply: Err(error), .. } => Some(error),
        Exchange::Head { reply: Err(error), .. } => Some(error),
        Exchange::PutIf { reply: Err(error), .. } => Some(error),
        _ => None,
    }
}

/// Whether a check failed as the last exchange makes it fail: with the client's own error
/// where it gave one, and with a report of the behaviour otherwise.
pub open spec fn fails_with(exchange: Exchange, error: Error, fault: Seq<char>) -> bool {
    match reply_error(exchange) {
        Some(replied) => error == replied,
        None => error.says(ErrorKind::Corruption, fault),
    }
}

/// Whether an exchange is a metadata read of a key.
pub open spec fn is_head(exchange: Exchange, key: Seq<char>) -> bool {
    exchange matches Exchange::Head { key: asked, .. } && asked == key
}

/// Whether a metadata read showed an object of this size under this tag.
pub open spec fn head_shows(exchange: Exchange, key: Seq<char>, size: int, etag: Seq<char>) -> bool {
    &&& is_head(exchange, key)
    &&& exchange matches Exchange::Head { reply: Ok(Some(meta)), .. } && meta.size == size
        && meta.etag@ == etag
}

/// Whether an exchange is a read of a key.
pub open spec fn is_get(exchange: Exchange, key: Seq<char>) -> bool {
    exchange matches Exchange::Get { key: asked, .. } && asked == key
}

/// Whether a read showed these bytes.
pub open spec fn get_shows(exchange: Exchange, key: Seq<char>, bytes: Seq<u8>) -> bool {
    &&& is_get(exchange, key)
    &&& exchange matches Exchange::Get { reply: Ok(Some(read)), .. } && read@ == bytes
}

/// Whether an exchange is a delete of a key.
pub open spec fn is_delete(exchange: Exchange, key: Seq<char>) -> bool {
    exchange matches Exchange::Delete { key: asked, .. } && asked == key
}

/// Whether a delete succeeded.
pub open spec fn deleted(exchange: Exchange, key: Seq<char>) -> bool {
    is_delete(exchange, key) && reply_error(exchange) is None
}

/// Whether an exchange is a conditional write of these bytes under this condition.
pub open spec fn is_put_if(
    exchange: Exchange,
    key: Seq<char>,
    bytes: Seq<u8>,
    condition: Condition,
) -> bool {
    exchange matches Exchange::PutIf { key: asked, bytes: sent, condition: stated, .. } && asked
        == key && sent == bytes && stated == condition
}

/// The tag that a write returned.
pub open spec fn written_tag(exchange: Exchange) -> Option<Seq<char>> {
    match exchange {
        Exchange::Put { reply: Ok(etag), .. } => Some(etag@),
        Exchange::PutIf { reply: Ok(PutIf::Stored { etag }), .. } => Some(etag@),
        _ => None,
    }
}

/// The first bytes that the client check writes.
pub open spec fn contract_first() -> Seq<u8> {
    vstd::utf8::encode_utf8("trine-object-client-contract:first"@)
}

/// The bytes that the client check overwrites them with.
pub open spec fn contract_second() -> Seq<u8> {
    vstd::utf8::encode_utf8("trine-object-client-contract:second"@)
}

/// Whether the `step`th exchange of a client check, which started at `from`, is the request
/// that the check makes there.
pub open spec fn contract_asks(
    history: Seq<Exchange>,
    from: int,
    key: Seq<char>,
    step: int,
) -> bool {
    let exchange = history[from + step];
    if step == 0 {
        is_delete(exchange, key)
    } else if step == 1 {
        exchange matches Exchange::Put { key: asked, bytes, .. } && asked == key && bytes
            == contract_first()
    } else if step == 2 || step == 8 {
        is_head(exchange, key)
    } else if step == 3 || step == 9 {
        is_get(exchange, key)
    } else if step == 4 {
        is_put_if(exchange, key, contract_second(), Condition::Absent)
    } else if step == 5 {
        is_put_if(
            exchange,
            key,
            contract_second(),
            Condition::Tagged("trine-object-client-contract-mismatch"@),
        )
    } else if step == 6 {
        is_put_if(
            exchange,
            key,
            contract_second(),
            Condition::Tagged(written_tag(history[from + 1])->0),
        )
    } else {
        exchange matches Exchange::GetRange { key: asked, offset, len, etag, .. } && asked == key
            && offset == 0 && len == contract_second().len() && etag == written_tag(
            history[from + 1],
        )->0
    }
}

/// Whether the reply to that request is the one a real compare-and-swap store gives.
pub open spec fn contract_passes(
    history: Seq<Exchange>,
    from: int,
    key: Seq<char>,
    step: int,
) -> bool {
    let exchange = history[from + step];
    let first = written_tag(history[from + 1])->0;
    &&& contract_asks(history, from, key, step)
    &&& if step == 0 {
        deleted(exchange, key)
    } else if step == 1 {
        written_tag(exchange) is Some
    } else if step == 2 {
        head_shows(exchange, key, contract_first().len() as int, first)
    } else if step == 3 {
        get_shows(exchange, key, contract_first())
    } else if step == 4 {
        exchange matches Exchange::PutIf {
            reply: Ok(PutIf::PreconditionFailed { current: Some(current) }),
            ..
        } && current@ == first
    } else if step == 5 {
        exchange matches Exchange::PutIf { reply: Ok(PutIf::PreconditionFailed { .. }), .. }
    } else if step == 6 {
        written_tag(exchange) is Some && written_tag(exchange)->0 != first
    } else if step == 7 {
        reply_error(exchange) matches Some(error) && error.kind()
            == ErrorKind::ObjectVersionChanged
    } else if step == 8 {
        head_shows(
            exchange,
            key,
            contract_second().len() as int,
            written_tag(history[from + 6])->0,
        )
    } else {
        get_shows(exchange, key, contract_second())
    }
}

/// How reports of a client check begin.
pub open spec fn contract_probe(key: Seq<char>) -> Seq<char> {
    "object client contract probe for "@ + key
}

/// The report of a metadata read that does not show the object after an operation.
pub open spec fn head_fault(exchange: Exchange, key: Seq<char>, operation: Seq<char>) -> Seq<char> {
    if exchange matches Exchange::Head { reply: Ok(None), .. } {
        contract_probe(key) + " lost head after "@ + operation
    } else {
        contract_probe(key) + " observed stale head after "@ + operation
    }
}

/// The report of a read that does not show the bytes after an operation.
pub open spec fn get_fault(exchange: Exchange, key: Seq<char>, operation: Seq<char>) -> Seq<char> {
    if exchange matches Exchange::Get { reply: Ok(None), .. } {
        contract_probe(key) + " lost bytes after "@ + operation
    } else {
        contract_probe(key) + " observed stale bytes after "@ + operation
    }
}

/// The report of a reply to the `step`th request that does not pass.
pub open spec fn contract_fault(exchange: Exchange, key: Seq<char>, step: int) -> Seq<char> {
    if step == 2 {
        head_fault(exchange, key, "put"@)
    } else if step == 3 {
        get_fault(exchange, key, "put"@)
    } else if step == 4 {
        match exchange {
            Exchange::PutIf { reply: Ok(PutIf::PreconditionFailed { current }), .. } => {
                contract_probe(key) + " returned wrong IfNoneMatch ETag: "@
                    + report::optional_tag_shown(current)
            },
            _ => contract_probe(key) + " stored despite IfNoneMatch on an existing object"@,
        }
    } else if step == 5 {
        contract_probe(key) + " stored despite a mismatched IfMatch ETag"@
    } else if step == 6 {
        match exchange {
            Exchange::PutIf { reply: Ok(PutIf::PreconditionFailed { current }), .. } => {
                contract_probe(key) + " rejected a matching IfMatch ETag: "@
                    + report::optional_tag_shown(current)
            },
            _ => contract_probe(key) + " reused an ETag after overwriting bytes"@,
        }
    } else if step == 7 {
        match exchange {
            Exchange::GetRange { reply: Err(error), .. } => contract_probe(key) + " returned "@
                + report::error_shown(error)
                + " instead of ObjectVersionChanged for a stale ETag"@,
            _ => contract_probe(key) + " accepted a stale ETag for a range read"@,
        }
    } else if step == 8 {
        head_fault(exchange, key, "put_if"@)
    } else {
        get_fault(exchange, key, "put_if"@)
    }
}

/// What a client check on one key did and found.
///
/// It makes its ten requests in order, and goes on to the next only after a reply that
/// passes. It succeeds exactly when all ten passed.
pub open spec fn contract_checked(
    before: Seq<Exchange>,
    after: Seq<Exchange>,
    key: Seq<char>,
    result: Result<()>,
) -> bool {
    let from = before.len() as int;
    let last = after.len() - from - 1;
    &&& asked_since(before, after, 10)
    &&& forall|step: int| 0 <= step < last ==> #[trigger] contract_passes(after, from, key, step)
    &&& contract_asks(after, from, key, last)
    &&& match result {
        Ok(()) => last == 9 && contract_passes(after, from, key, last),
        Err(error) => !contract_passes(after, from, key, last) && if last == 7 {
            error.says(ErrorKind::Corruption, contract_fault(after.last(), key, last))
        } else {
            fails_with(after.last(), error, contract_fault(after.last(), key, last))
        },
    }
}

/// What a look at the stored bytes did and found.
pub open spec fn observed(
    before: Seq<Exchange>,
    after: Seq<Exchange>,
    key: Seq<char>,
    bytes: Seq<u8>,
    etag: Seq<char>,
    operation: Seq<char>,
    result: Result<()>,
) -> bool {
    let from = before.len() as int;
    &&& asked_since(before, after, 2)
    &&& is_head(after[from], key)
    &&& after.len() == from + 2 ==> head_shows(after[from], key, bytes.len() as int, etag)
        && is_get(after[from + 1], key)
    &&& match result {
        Ok(()) => after.len() == from + 2 && get_shows(after[from + 1], key, bytes),
        Err(error) => if after.len() == from + 1 {
            !head_shows(after[from], key, bytes.len() as int, etag) && fails_with(
                after[from],
                error,
                head_fault(after[from], key, operation),
            )
        } else {
            !get_shows(after[from + 1], key, bytes) && fails_with(
                after[from + 1],
                error,
                get_fault(after[from + 1], key, operation),
            )
        },
    }
}

pub(crate) fn probe_fault(what: &str, key: &str, found: &str) -> (error: Error)
    ensures
        error.says(ErrorKind::Corruption, what@ + key@ + found@),
{
    let message: String = join(what, key);
    Error::Corruption { message: join(message.as_str(), found) }
}

fn contract_report(key: &str, found: &str) -> (message: String)
    ensures
        message@ == contract_probe(key@) + found@,
{
    let message: String = join("object client contract probe for ", key);
    join(message.as_str(), found)
}

pub(crate) fn detailed_fault(what: &str, key: &str, found: &str, detail: &str) -> (error: Error)
    ensures
        error.says(ErrorKind::Corruption, what@ + key@ + found@ + detail@),
{
    let message: String = join(what, key);
    let message: String = join(message.as_str(), found);
    Error::Corruption { message: join(message.as_str(), detail) }
}

fn verify_object_client_observed_bytes<C: ObjectClient>(
    client: &mut C,
    key: &str,
    expected: &[u8],
    expected_etag: &ETag,
    operation: &str,
) -> (result: Result<()>)
    ensures
        observed(
            old(client).history(),
            final(client).history(),
            key@,
            expected@,
            expected_etag@,
            operation@,
            result,
        ),
{
    let head: ObjectMeta = match client.head(key) {
        Err(error) => {
            return Err(error);
        },
        Ok(None) => {
            return Err(detailed_fault(
                    "object client contract probe for ",
                    key,
                    " lost head after ",
                    operation,
                ));
        },
        Ok(Some(head)) => head,
    };
    if !head.etag.same(expected_etag) || head.size != expected.len() as u64 {
        return Err(detailed_fault(
                    "object client contract probe for ",
                    key,
                    " observed stale head after ",
                    operation,
                ));
    }
    let bytes: Vec<u8> = match client.get(key) {
        Err(error) => {
            return Err(error);
        },
        Ok(None) => {
            return Err(detailed_fault(
                    "object client contract probe for ",
                    key,
                    " lost bytes after ",
                    operation,
                ));
        },
        Ok(Some(bytes)) => bytes,
    };
    if !bytes_equal(bytes.as_slice(), expected) {
        return Err(detailed_fault(
                    "object client contract probe for ",
                    key,
                    " observed stale bytes after ",
                    operation,
                ));
    }
    Ok(())
}

/// Checks on one key that a client behaves like a compare-and-swap object store.
pub fn verify_object_client_contract_at_key<C: ObjectClient>(client: &mut C, key: &str) -> (result:
    Result<()>)
    ensures
        contract_checked(old(client).history(), final(client).history(), key@, result),
{
    let ghost before = client.history();
    let ghost from = before.len() as int;
    if let Err(error) = client.delete(key) {
        return Err(error);
    }
    assert(contract_passes(client.history(), from, key@, 0));
    let first: &[u8] = "trine-object-client-contract:first".as_bytes();
    let second: &[u8] = "trine-object-client-contract:second".as_bytes();
    let first_etag: ETag = match client.put(key, first) {
        Err(error) => {
            assert(!contract_passes(client.history(), from, key@, 1));
            return Err(error);
        },
        Ok(etag) => etag,
    };
    assert(contract_passes(client.history(), from, key@, 1));
    let ghost middle = client.history();
    let seen: Result<()> = verify_object_client_observed_bytes(
        client,
        key,
        first,
        &first_etag,
        "put",
    );
    proof {
        assert(middle.len() == from + 2);
        contract_prefix(middle, client.history(), from, key@, 2);
        if client.history().len() == from + 4 {
            assert(contract_passes(client.history(), from, key@, 2));
        }
    }
    if let Err(error) = seen {
        return Err(error);
    }
    assert(contract_passes(client.history(), from, key@, 3));
    let ghost middle = client.history();
    let created: Result<PutIf> = client.put_if(key, second, Precondition::IfNoneMatch);
    proof {
        contract_prefix(middle, client.history(), from, key@, 4);
    }
    match created {
        Err(error) => {
            return Err(error);
        },
        Ok(PutIf::PreconditionFailed { current }) => {
            let known: bool = match &current {
                Some(current) => current.same(&first_etag),
                None => false,
            };
            if !known {
                return Err(
                    detailed_fault(
                        "object client contract probe for ",
                        key,
                        " returned wrong IfNoneMatch ETag: ",
                        show_optional_tag(&current).as_str(),
                    ),
                );
            }
        },
        Ok(PutIf::Stored { .. }) => {
            return Err(
                probe_fault(
                    "object client contract probe for ",
                    key,
                    " stored despite IfNoneMatch on an existing object",
                ),
            );
        },
    }
    assert(contract_passes(client.history(), from, key@, 4));
    let ghost middle = client.history();
    let mismatched: ETag = ETag::new("trine-object-client-contract-mismatch");
    let swapped: Result<PutIf> = client.put_if(key, second, Precondition::IfMatch(mismatched));
    proof {
        contract_prefix(middle, client.history(), from, key@, 5);
    }
    match swapped {
        Err(error) => {
            return Err(error);
        },
        Ok(PutIf::PreconditionFailed { .. }) => {},
        Ok(PutIf::Stored { .. }) => {
            return Err(
                probe_fault(
                    "object client contract probe for ",
                    key,
                    " stored despite a mismatched IfMatch ETag",
                ),
            );
        },
    }
    assert(contract_passes(client.history(), from, key@, 5));
    let ghost middle = client.history();
    let swapped: Result<PutIf> = client.put_if(
        key,
        second,
        Precondition::IfMatch(first_etag.clone()),
    );
    proof {
        contract_prefix(middle, client.history(), from, key@, 6);
    }
    let second_etag: ETag = match swapped {
        Err(error) => {
            return Err(error);
        },
        Ok(PutIf::Stored { etag }) => etag,
        Ok(PutIf::PreconditionFailed { current }) => {
            return Err(
                detailed_fault(
                    "object client contract probe for ",
                    key,
                    " rejected a matching IfMatch ETag: ",
                    show_optional_tag(&current).as_str(),
                ),
            );
        },
    };
    if second_etag.same(&first_etag) {
        return Err(
            probe_fault(
                "object client contract probe for ",
                key,
                " reused an ETag after overwriting bytes",
            ),
        );
    }
    assert(contract_passes(client.history(), from, key@, 6));
    let ghost middle = client.history();
    let stale: Result<Vec<u8>> = client.get_range(key, 0, second.len() as u64, &first_etag);
    proof {
        contract_prefix(middle, client.history(), from, key@, 7);
    }
    match stale {
        Ok(_) => {
            return Err(
                probe_fault(
                    "object client contract probe for ",
                    key,
                    " accepted a stale ETag for a range read",
                ),
            );
        },
        Err(error) => {
            if error.kind() != ErrorKind::ObjectVersionChanged {
                let found: String = join(
                    contract_report(key, " returned ").as_str(),
                    show_error(&error).as_str(),
                );
                return Err(
                    Error::Corruption {
                        message: join(
                            found.as_str(),
                            " instead of ObjectVersionChanged for a stale ETag",
                        ),
                    },
                );
            }
        },
    }
    assert(contract_passes(client.history(), from, key@, 7));
    let ghost middle = client.history();
    let seen: Result<()> = verify_object_client_observed_bytes(
        client,
        key,
        second,
        &second_etag,
        "put_if",
    );
    proof {
        contract_prefix(middle, client.history(), from, key@, 8);
        if client.history().len() == from + 10 {
            assert(contract_passes(client.history(), from, key@, 8));
        }
    }
    seen
}

/// Steps that passed stay passed when the client is asked more.
proof fn contract_prefix(
    before: Seq<Exchange>,
    after: Seq<Exchange>,
    from: int,
    key: Seq<char>,
    steps: int,
)
    requires
        0 <= from,
        2 <= steps,
        before.len() == from + steps,
        asked_since(before, after, 10),
        forall|step: int| 0 <= step < steps ==> #[trigger] contract_passes(before, from, key, step),
    ensures
        forall|step: int| 0 <= step < steps ==> #[trigger] contract_passes(after, from, key, step),
{
    assert forall|step: int| 0 <= step < steps implies #[trigger] contract_passes(
        after,
        from,
        key,
        step,
    ) by {
        assert(contract_passes(before, from, key, step));
        assert(after[from + step] == before[from + step]);
        assert(after[from + 1] == before[from + 1]);
        if step > 6 {
            assert(after[from + 6] == before[from + 6]);
        }
    }
}

/// The path of a temporary object, before it is brought to canonical form.
pub open spec fn probe_path(
    root: Seq<char>,
    role: Seq<char>,
    nanos: u64,
    counter: u64,
) -> Seq<char> {
    root + "/.trine-object-client-contract-"@ + role + "-"@ + text::decimal(nanos as nat) + "-"@
        + text::decimal(counter as nat)
}

/// Names a temporary object under `root`.
///
/// The time and the counter make the name unique; the caller supplies both.
pub fn object_client_contract_probe_key_for_role(
    root: &str,
    role: &str,
    nanos: u64,
    counter: u64,
) -> (result: Result<String>)
    ensures
        match result {
            Ok(key) => keys::is_key(probe_path(root@, role@, nanos, counter)) && key@
                == keys::canonical(probe_path(root@, role@, nanos, counter)),
            Err(error) => !keys::is_key(probe_path(root@, role@, nanos, counter))
                && keys::refuses_key(error, probe_path(root@, role@, nanos, counter)),
        },
{
    let mut path: String = join(root, "/.trine-object-client-contract-");
    path.append(role);
    path.append("-");
    push_decimal(&mut path, nanos);
    path.append("-");
    push_decimal(&mut path, counter);
    canonical_object_key(path.as_str())
}

/// What a client check with its clean-up did and found: after the check on the key, whatever
/// it found, the key is deleted once, and a failed delete fails a check that passed.
pub open spec fn contract_verified(
    before: Seq<Exchange>,
    after: Seq<Exchange>,
    key: Seq<char>,
    result: Result<()>,
) -> bool {
    &&& after.len() > before.len() + 1
    &&& is_delete(after.last(), key)
    &&& exists|found: Result<()>| #[trigger]
        contract_checked(before, after.drop_last(), key, found) && match result {
            Ok(()) => found is Ok && reply_error(after.last()) is None,
            Err(error) => found == Err::<(), Error>(error) || (found is Ok && reply_error(
                after.last(),
            ) == Some(error)),
        }
}

/// Verifies the same-key semantics required from an [`ObjectClient`] when a database opens.
pub fn verify_object_client_contract_for_open<C: ObjectClient>(
    client: &mut C,
    db_path: &str,
    role: &str,
    nanos: u64,
    counter: u64,
) -> (result: Result<()>)
    ensures
        if keys::is_key(probe_path(db_path@, role@, nanos, counter)) {
            contract_verified(
                old(client).history(),
                final(client).history(),
                keys::canonical(probe_path(db_path@, role@, nanos, counter)),
                result,
            )
        } else {
            &&& final(client).history() == old(client).history()
            &&& result matches Err(error) && keys::refuses_key(
                error,
                probe_path(db_path@, role@, nanos, counter),
            )
        },
{
    let key: String = match object_client_contract_probe_key_for_role(
        db_path,
        role,
        nanos,
        counter,
    ) {
        Ok(key) => key,
        Err(error) => {
            return Err(error);
        },
    };
    let ghost before = client.history();
    let found: Result<()> = verify_object_client_contract_at_key(client, key.as_str());
    let ghost middle = client.history();
    let cleanup: Result<()> = client.delete(key.as_str());
    let ghost checked = found;
    let result: Result<()> = match found {
        Err(error) => Err(error),
        Ok(()) => cleanup,
    };
    proof {
        assert(client.history().drop_last() =~= middle);
        assert(contract_checked(before, client.history().drop_last(), key@, checked));
    }
    result
}

/// Verifies the same-key semantics required from an [`ObjectClient`].
///
/// Writes, reads, conditionally overwrites, and deletes one temporary object under `prefix`,
/// and succeeds only if the client behaves like a compare-and-swap object store for that key.
pub fn verify_object_client_contract<C: ObjectClient>(
    client: &mut C,
    prefix: &str,
    nanos: u64,
    counter: u64,
) -> (result: Result<()>)
    ensures
        if keys::is_key(probe_path(prefix@, "health"@, nanos, counter)) {
            contract_verified(
                old(client).history(),
                final(client).history(),
                keys::canonical(probe_path(prefix@, "health"@, nanos, counter)),
                result,
            )
        } else {
            &&& final(client).history() == old(client).history()
            &&& result matches Err(error) && keys::refuses_key(
                error,
                probe_path(prefix@, "health"@, nanos, counter),
            )
        },
{
    verify_object_client_contract_for_open(client, prefix, "health", nanos, counter)
}

proof fn digits_end_at_the_dash(a: Seq<char>, b: Seq<char>, c: Seq<char>, d: Seq<char>)
    requires
        forall|i: int| 0 <= i < a.len() ==> '0' <= #[trigger] a[i] <= '9',
        forall|i: int| 0 <= i < c.len() ==> '0' <= #[trigger] c[i] <= '9',
        a + seq!['-'] + b == c + seq!['-'] + d,
    ensures
        a == c,
        b == d,
{
    let left = a + seq!['-'] + b;
    let right = c + seq!['-'] + d;
    assert(left[a.len() as int] == '-');
    assert(right[c.len() as int] == '-');
    if a.len() < c.len() {
        assert(right[a.len() as int] == c[a.len() as int]);
    }
    if c.len() < a.len() {
        assert(left[c.len() as int] == a[c.len() as int]);
    }
    assert(a =~= left.take(a.len() as int));
    assert(c =~= right.take(c.len() as int));
    assert(b =~= left.skip(a.len() as int + 1));
    assert(d =~= right.skip(c.len() as int + 1));
}

/// Checks made at different times, or of different counts, use different objects, all of them
/// under the root of the check.
pub proof fn every_check_has_its_own_object(
    root: Seq<char>,
    role: Seq<char>,
    nanos: u64,
    counter: u64,
    later: u64,
    next: u64,
)
    ensures
        (nanos, counter) != (later, next) ==> probe_path(root, role, nanos, counter) != probe_path(
            root,
            role,
            later,
            next,
        ),
        probe_path(root, role, nanos, counter).take(root.len() as int) == root,
        probe_path(root, role, nanos, counter)[root.len() as int] == '/',
{
    reveal_strlit("/.trine-object-client-contract-");
    reveal_strlit("-");
    let dash = "-"@;
    assert(dash =~= seq!['-']);
    let front = root + "/.trine-object-client-contract-"@ + role + dash;
    let path = probe_path(root, role, nanos, counter);
    let other = probe_path(root, role, later, next);
    let a = text::decimal(nanos as nat);
    let b = text::decimal(counter as nat);
    let c = text::decimal(later as nat);
    let d = text::decimal(next as nat);
    assert(path =~= front + (a + seq!['-'] + b));
    assert(other =~= front + (c + seq!['-'] + d));
    assert(path.take(root.len() as int) =~= root);
    if path == other {
        assert(path.skip(front.len() as int) =~= a + seq!['-'] + b);
        assert(other.skip(front.len() as int) =~= c + seq!['-'] + d);
        text::decimal_digits_stand_for_their_number(nanos as nat);
        text::decimal_digits_stand_for_their_number(counter as nat);
        text::decimal_digits_stand_for_their_number(later as nat);
        text::decimal_digits_stand_for_their_number(next as nat);
        digits_end_at_the_dash(a, b, c, d);
    }
}

} // verus!
