//! Listing of the objects directly under a root.
use vstd::prelude::*;
use vstd::string::*;

use crate::error::{Error, ErrorKind, Result};
use crate::object_store;
use crate::object_store::backend::{ObjectStoreBackend, StorageObjectId, StorageObjectKind};
use crate::object_store::contract;
use crate::object_store::contract::validate_object_list_page;
use crate::object_store::keys;
use crate::object_store::keys::{canonical_object_key, canonical_object_prefix};
use crate::object_store::reclamation;
use crate::object_store::reclamation::parent_key;
use crate::object_store::{Exchange, ObjectClient, ObjectListPage, ObjectMeta};
use crate::text;
use crate::text::{join, quoted};

verus! {

/// How many objects one request of a full listing asks for.
pub const LISTING_PAGE_OBJECTS: usize = 1024;

/// Which objects are to be listed.
#[derive(Debug)]
pub struct StorageObjectListRequest {
    /// What the objects hold.
    pub kind: StorageObjectKind,
    /// The place directly under which they are.
    pub root: String,
    /// The extension that their names have, or `None` for every name.
    pub extension: Option<String>,
}

impl StorageObjectListRequest {
    /// Lists the objects directly under a root.
    pub fn native_file(kind: StorageObjectKind, root: &str) -> (request: StorageObjectListRequest)
        ensures
            request.kind == kind,
            request.root@ == root@,
            request.extension is None,
    {
        StorageObjectListRequest { kind, root: root.to_owned(), extension: None }
    }

    /// Keeps only names with an extension.
    pub fn with_file_extension(self, extension: &str) -> (request: StorageObjectListRequest)
        ensures
            request.kind == self.kind,
            request.root == self.root,
            request.extension matches Some(wanted) && wanted@ == extension@,
    {
        StorageObjectListRequest {
            kind: self.kind,
            root: self.root,
            extension: Some(extension.to_owned()),
        }
    }
}

/// One page of a listing.
#[derive(Debug)]
pub struct StorageObjectListPage {
    /// The objects of the page, in order.
    pub objects: Vec<StorageObjectId>,
    /// Exclusive key offset for the next page, or `None` at the end of the listing.
    pub next_after: Option<String>,
}

/// A byte with ASCII capitals made small.
pub open spec fn small(byte: u8) -> u8 {
    if 65 <= byte <= 90 {
        (byte + 32) as u8
    } else {
        byte
    }
}

/// Whether two byte sequences differ at most in the case of ASCII letters.
pub open spec fn same_ignoring_case(a: Seq<u8>, b: Seq<u8>) -> bool {
    &&& a.len() == b.len()
    &&& forall|i: int| 0 <= i < a.len() ==> small(#[trigger] a[i]) == small(b[i])
}

fn small_byte(byte: u8) -> (result: u8)
    ensures
        result == small(byte),
{
    if byte >= 65 && byte <= 90 {
        byte + 32
    } else {
        byte
    }
}

fn equal_ignoring_case(a: &[u8], b: &[u8]) -> (same: bool)
    ensures
        same == same_ignoring_case(a@, b@),
{
    if a.len() != b.len() {
        return false;
    }
    let mut i: usize = 0;
    while i < a.len()
        invariant
            i <= a@.len() == b@.len(),
            forall|j: int| 0 <= j < i ==> small(#[trigger] a@[j]) == small(b@[j]),
        decreases a@.len() - i,
    {
        if small_byte(a[i]) != small_byte(b[i]) {
            return false;
        }
        i = i + 1;
    }
    true
}

/// The extension of the last component of a key: what follows its last dot, unless that dot
/// starts the component.
pub open spec fn extension_of(key: Seq<char>) -> Option<Seq<char>>
    decreases key.len(),
{
    if key.len() == 0 || key.last() == '/' {
        None
    } else if key.last() == '.' {
        if key.len() == 1 || key[key.len() - 2] == '/' {
            None
        } else {
            Some(Seq::empty())
        }
    } else {
        match extension_of(key.drop_last()) {
            Some(extension) => Some(extension.push(key.last())),
            None => None,
        }
    }
}

/// The extension of the part of a key before `end`, with what follows it.
spec fn extended(key: Seq<char>, end: int) -> Option<Seq<char>> {
    match extension_of(key.take(end)) {
        Some(extension) => Some(extension + key.skip(end)),
        None => None,
    }
}

fn extension(key: &str) -> (found: Option<&str>)
    ensures
        object_store::optional_text(found) == extension_of(key@),
{
    let len: usize = key.unicode_len();
    let mut end: usize = len;
    proof {
        assert(key@.take(len as int) =~= key@);
        assert(key@.skip(len as int) =~= Seq::empty());
        if extension_of(key@) is Some {
            assert(extension_of(key@)->0 + key@.skip(len as int) =~= extension_of(key@)->0);
        }
    }
    while end > 0
        invariant
            end <= len == key@.len(),
            extended(key@, end as int) == extension_of(key@),
        decreases end,
    {
        let c: char = key.get_char(end - 1);
        proof {
            let part = key@.take(end as int);
            assert(part.last() == c);
            assert(part.drop_last() =~= key@.take(end - 1));
            assert(end >= 2 ==> part[part.len() - 2] == key@[end - 2]);
        }
        if c == '/' {
            return None;
        }
        if c == '.' {
            if end == 1 || key.get_char(end - 2) == '/' {
                return None;
            }
            let found: &str = key.substring_char(end, len);
            proof {
                assert(found@ =~= Seq::empty() + key@.skip(end as int));
            }
            return Some(found);
        }
        proof {
            let part = key@.take(end as int);
            if extension_of(part.drop_last()) is Some {
                let before = extension_of(part.drop_last())->0;
                assert(before.push(c) + key@.skip(end as int) =~= before + key@.skip(end - 1));
            }
        }
        end = end - 1;
    }
    assert(key@.take(0).len() == 0);
    None
}

/// Whether the name of a key has the wanted extension.
pub open spec fn has_extension(key: Seq<char>, wanted: Option<Seq<char>>) -> bool {
    match wanted {
        None => true,
        Some(wanted) => extension_of(key) matches Some(extension) && same_ignoring_case(
            vstd::utf8::encode_utf8(extension),
            vstd::utf8::encode_utf8(wanted),
        ),
    }
}

/// Tells whether the name of a key has the wanted extension.
pub fn path_matches_extension(path: &str, expected: Option<&str>) -> (matches: bool)
    ensures
        matches == has_extension(path@, object_store::optional_text(expected)),
{
    match expected {
        None => true,
        Some(expected) => match extension(path) {
            None => false,
            Some(found) => equal_ignoring_case(found.as_bytes(), expected.as_bytes()),
        },
    }
}

/// Whether a key is that of an object directly under a root.
pub open spec fn is_child(key: Seq<char>, root: Seq<char>) -> bool {
    key.len() > 0 && reclamation::parent_of(key) == root
}

/// The keys of a page that a request asks for.
pub open spec fn kept(
    metas: Seq<ObjectMeta>,
    root: Seq<char>,
    extension: Option<Seq<char>>,
) -> Seq<Seq<char>>
    decreases metas.len(),
{
    if metas.len() == 0 {
        Seq::empty()
    } else {
        let before = kept(metas.drop_last(), root, extension);
        let key = metas.last().key@;
        if is_child(key, root) && has_extension(key, extension) {
            before.push(key)
        } else {
            before
        }
    }
}

/// Whether every key of a page is in canonical form.
pub open spec fn all_canonical(metas: Seq<ObjectMeta>) -> bool {
    forall|i: int|
        0 <= i < metas.len() ==> keys::is_key((#[trigger] metas[i]).key@) && keys::canonical(
            metas[i].key@,
        ) == metas[i].key@
}

/// Why a listed key is refused, with the kind of the error.
pub open spec fn key_refusal(key: Seq<char>) -> Option<(ErrorKind, Seq<char>)> {
    if !keys::is_key(key) {
        Some((ErrorKind::InvalidOptions, keys::key_fault(key)))
    } else if keys::canonical(key) != key {
        Some(
            (
                ErrorKind::Corruption,
                "object store returned non-canonical key "@ + text::quoted_text(key),
            ),
        )
    } else {
        None
    }
}

/// Why the first refused key of a page is refused.
pub open spec fn keys_refusal(metas: Seq<ObjectMeta>) -> Option<(ErrorKind, Seq<char>)>
    decreases metas.len(),
{
    if metas.len() == 0 {
        None
    } else {
        match keys_refusal(metas.drop_last()) {
            Some(refusal) => Some(refusal),
            None => key_refusal(metas.last().key@),
        }
    }
}

/// Why a page is refused, with the kind of the error.
pub open spec fn page_refusal(
    page: ObjectListPage,
    root: Seq<char>,
    after: Option<Seq<char>>,
    limit: usize,
) -> Option<(ErrorKind, Seq<char>)> {
    if limit == 0 {
        Some((ErrorKind::InvalidOptions, "object listing page limit must be non-zero"@))
    } else {
        match contract::page_fault(page, listing_prefix(keys::canonical(root)), after, limit) {
            Some(fault) => Some((ErrorKind::Corruption, fault)),
            None => keys_refusal(page.objects@),
        }
    }
}

/// Whether an error says why something is refused.
pub open spec fn says_refusal(error: Error, refusal: Option<(ErrorKind, Seq<char>)>) -> bool {
    refusal matches Some((kind, text)) && error.says(kind, text)
}

proof fn keys_refusal_stays(metas: Seq<ObjectMeta>, count: int)
    requires
        0 <= count <= metas.len(),
        keys_refusal(metas.take(count)) is Some,
    ensures
        keys_refusal(metas) == keys_refusal(metas.take(count)),
    decreases metas.len() - count,
{
    if count < metas.len() {
        assert(metas.take(count + 1).drop_last() =~= metas.take(count));
        keys_refusal_stays(metas, count + 1);
    } else {
        assert(metas.take(count) =~= metas);
    }
}

/// The prefix of the keys under a root.
pub open spec fn listing_prefix(root: Seq<char>) -> Seq<char> {
    if root.len() == 0 {
        root
    } else {
        root + "/"@
    }
}

/// The paths of objects.
pub open spec fn paths(objects: Seq<StorageObjectId>) -> Seq<Seq<char>> {
    Seq::new(objects.len(), |i: int| objects[i].spec_path())
}

/// Whether objects all hold the same thing.
pub open spec fn all_of_kind(objects: Seq<StorageObjectId>, kind: StorageObjectKind) -> bool {
    forall|i: int| 0 <= i < objects.len() ==> (#[trigger] objects[i]).spec_kind() == kind
}

/// The extension a request names.
pub open spec fn wanted_extension(request: StorageObjectListRequest) -> Option<Seq<char>> {
    match request.extension {
        Some(extension) => Some(extension@),
        None => None,
    }
}

/// Whether an exchange asks for a page of a listing.
pub open spec fn asks_page(
    exchange: Exchange,
    root: Seq<char>,
    after: Option<Seq<char>>,
    limit: usize,
) -> bool {
    exchange matches Exchange::ListPage { prefix, after: from, limit: most, .. } && prefix
        == listing_prefix(keys::canonical(root)) && from == after && most == limit
}

/// Whether a page can be used: a sound page of the listing, with canonical keys only.
pub open spec fn page_usable(
    page: ObjectListPage,
    root: Seq<char>,
    after: Option<Seq<char>>,
    limit: usize,
) -> bool {
    &&& limit > 0
    &&& contract::page_is_sound(page, listing_prefix(keys::canonical(root)), after, limit)
    &&& all_canonical(page.objects@)
}

/// What a request for one page did and found.
pub open spec fn page_listed(
    before: Seq<Exchange>,
    history: Seq<Exchange>,
    request: StorageObjectListRequest,
    after: Option<Seq<char>>,
    limit: usize,
    result: Result<StorageObjectListPage>,
) -> bool {
    let from = before.len() as int;
    let root = request.root@;
    if !keys::is_key(root) {
        &&& history == before
        &&& result matches Err(error) && keys::refuses_key(error, root)
    } else {
        &&& contract::asked_since(before, history, 1)
        &&& asks_page(history[from], root, after, limit)
        &&& history[from] matches Exchange::ListPage { reply, .. } && match reply {
            Err(replied) => result == Err::<StorageObjectListPage, Error>(replied),
            Ok(page) => match result {
                Ok(listed) => {
                    &&& page_usable(page, root, after, limit)
                    &&& paths(listed.objects@) == kept(
                        page.objects@,
                        keys::canonical(root),
                        wanted_extension(request),
                    )
                    &&& all_of_kind(listed.objects@, request.kind)
                    &&& listed.next_after == page.next_after
                },
                Err(error) => {
                    &&& !page_usable(page, root, after, limit)
                    &&& says_refusal(error, page_refusal(page, root, after, limit))
                },
            },
        }
    }
}

/// Picks the objects of a page that a request asks for.
fn pick(metas: &Vec<ObjectMeta>, root: &str, request: &StorageObjectListRequest) -> (result: Result<
    Vec<StorageObjectId>,
>)
    ensures
        match result {
            Ok(objects) => {
                &&& all_canonical(metas@)
                &&& paths(objects@) == kept(metas@, root@, wanted_extension(*request))
                &&& all_of_kind(objects@, request.kind)
            },
            Err(error) => {
                &&& !all_canonical(metas@)
                &&& says_refusal(error, keys_refusal(metas@))
            },
        },
{
    let ghost wanted = wanted_extension(*request);
    let extension: Option<&str> = match &request.extension {
        Some(extension) => Some(extension.as_str()),
        None => None,
    };
    let root_text: String = root.to_owned();
    let mut objects: Vec<StorageObjectId> = Vec::new();
    let mut i: usize = 0;
    proof {
        assert(metas@.take(0) =~= Seq::empty());
        assert(paths(objects@) =~= Seq::empty());
    }
    while i < metas.len()
        invariant
            i <= metas@.len(),
            root_text@ == root@,
            wanted == wanted_extension(*request),
            object_store::optional_text(extension) == wanted,
            all_canonical(metas@.take(i as int)),
            keys_refusal(metas@.take(i as int)) is None,
            paths(objects@) == kept(metas@.take(i as int), root@, wanted),
            all_of_kind(objects@, request.kind),
        decreases metas@.len() - i,
    {
        let key: &String = &metas[i].key;
        let ghost longer = metas@.take(i + 1);
        proof {
            assert(longer.drop_last() =~= metas@.take(i as int));
            assert(longer.last() == metas@[i as int]);
            if key_refusal(key@) is Some {
                keys_refusal_stays(metas@, i + 1);
            }
        }
        let canonical: String = match canonical_object_prefix(key.as_str()) {
            Ok(canonical) => canonical,
            Err(error) => {
                assert(!keys::is_key(metas@[i as int].key@));
                return Err(error);
            },
        };
        if canonical != *key {
            assert(keys::canonical(metas@[i as int].key@) != metas@[i as int].key@);
            return Err(
                Error::Corruption {
                    message: join(
                        "object store returned non-canonical key ",
                        quoted(key.as_str()).as_str(),
                    ),
                },
            );
        }
        proof {
            assert forall|j: int| 0 <= j < longer.len() implies keys::is_key(
                (#[trigger] longer[j]).key@,
            ) && keys::canonical(longer[j].key@) == longer[j].key@ by {
                if j < i {
                    assert(metas@.take(i as int)[j] == longer[j]);
                }
            }
        }
        let parent: String = parent_key(canonical.as_str()).to_owned();
        if !canonical.as_str().is_empty() && parent == root_text && path_matches_extension(
            canonical.as_str(),
            extension,
        ) {
            let ghost before = objects@;
            objects.push(StorageObjectId::native_file(request.kind, canonical.as_str()));
            proof {
                assert(paths(objects@) =~= paths(before).push(canonical@));
            }
        }
        i = i + 1;
    }
    assert(metas@.take(i as int) =~= metas@);
    Ok(objects)
}

impl<C: ObjectClient> ObjectStoreBackend<C> {
    /// Lists one page of the objects directly under a root.
    ///
    /// A page has at most `limit` keys of the store, of which it returns the objects asked
    /// for.
    pub fn list_objects_page(
        &mut self,
        request: &StorageObjectListRequest,
        after: Option<&str>,
        limit: usize,
    ) -> (result: Result<StorageObjectListPage>)
        ensures
            page_listed(
                old(self).client.history(),
                final(self).client.history(),
                *request,
                object_store::optional_text(after),
                limit,
                result,
            ),
    {
        let root: String = match canonical_object_key(request.root.as_str()) {
            Ok(root) => root,
            Err(error) => {
                return Err(error);
            },
        };
        let prefix: String = if root.as_str().is_empty() {
            root.clone()
        } else {
            join(root.as_str(), "/")
        };
        let page: ObjectListPage = match self.client.list_page(prefix.as_str(), after, limit) {
            Ok(page) => page,
            Err(error) => {
                return Err(error);
            },
        };
        proof {
            contract::faultless_page_is_sound(
                page,
                prefix@,
                object_store::optional_text(after),
                limit,
            );
        }
        if let Err(error) = validate_object_list_page(prefix.as_str(), after, limit, &page) {
            return Err(error);
        }
        match pick(&page.objects, root.as_str(), request) {
            Ok(objects) => Ok(StorageObjectListPage { objects, next_after: page.next_after }),
            Err(error) => Err(error),
        }
    }
}

/// The page that a client replied with.
pub open spec fn page_of(exchange: Exchange) -> Option<ObjectListPage> {
    match exchange {
        Exchange::ListPage { reply: Ok(page), .. } => Some(page),
        _ => None,
    }
}

/// Where the `count`th page of a listing that started at `from` starts.
pub open spec fn cursor(history: Seq<Exchange>, from: int, count: int) -> Option<Seq<char>> {
    if count <= 0 {
        None
    } else {
        match page_of(history[from + count - 1]) {
            Some(page) => match page.next_after {
                Some(next) => Some(next@),
                None => None,
            },
            None => None,
        }
    }
}

/// Whether the `count`th page was asked for where the page before it ended.
pub open spec fn page_follows(
    history: Seq<Exchange>,
    from: int,
    root: Seq<char>,
    count: int,
) -> bool {
    asks_page(
        history[from + count],
        root,
        cursor(history, from, count),
        LISTING_PAGE_OBJECTS,
    )
}

/// Whether the reply with the `count`th page can be used.
pub open spec fn reply_usable(
    history: Seq<Exchange>,
    from: int,
    root: Seq<char>,
    count: int,
) -> bool {
    page_of(history[from + count]) matches Some(page) && page_usable(
        page,
        root,
        cursor(history, from, count),
        LISTING_PAGE_OBJECTS,
    )
}

/// Why the reply with the `count`th page is refused.
pub open spec fn reply_refusal(
    history: Seq<Exchange>,
    from: int,
    root: Seq<char>,
    count: int,
) -> Option<(ErrorKind, Seq<char>)> {
    page_refusal(
        page_of(history[from + count])->0,
        root,
        cursor(history, from, count),
        LISTING_PAGE_OBJECTS,
    )
}

/// Whether the `count`th page was asked for, can be used, and is not the last one.
pub open spec fn page_continues(
    history: Seq<Exchange>,
    from: int,
    root: Seq<char>,
    count: int,
) -> bool {
    &&& page_follows(history, from, root, count)
    &&& reply_usable(history, from, root, count)
    &&& cursor(history, from, count + 1) is Some
}

/// The keys of the first `count` pages that a request asks for.
pub open spec fn kept_of_pages(
    history: Seq<Exchange>,
    from: int,
    count: nat,
    root: Seq<char>,
    extension: Option<Seq<char>>,
) -> Seq<Seq<char>>
    decreases count,
{
    if count == 0 {
        Seq::empty()
    } else {
        kept_of_pages(history, from, (count - 1) as nat, root, extension) + kept(
            page_of(history[from + count - 1])->0.objects@,
            root,
            extension,
        )
    }
}

/// What a full listing did and found: page after page, until one is the last.
pub open spec fn all_listed(
    before: Seq<Exchange>,
    history: Seq<Exchange>,
    request: StorageObjectListRequest,
    result: Result<Vec<StorageObjectId>>,
) -> bool {
    let from = before.len() as int;
    let root = request.root@;
    let last = history.len() - from - 1;
    if !keys::is_key(root) {
        &&& history == before
        &&& result matches Err(error) && keys::refuses_key(error, root)
    } else {
        &&& contract::asked_since(before, history, u64::MAX as int)
        &&& forall|count: int|
            0 <= count < last ==> #[trigger] page_continues(history, from, root, count)
        &&& page_follows(history, from, root, last)
        &&& match result {
            Ok(objects) => {
                &&& reply_usable(history, from, root, last)
                &&& cursor(history, from, last + 1) is None
                &&& paths(objects@) == kept_of_pages(
                    history,
                    from,
                    (last + 1) as nat,
                    keys::canonical(root),
                    wanted_extension(request),
                )
                &&& all_of_kind(objects@, request.kind)
            },
            Err(error) => match contract::reply_error(history.last()) {
                Some(replied) => error == replied,
                None => if reply_usable(history, from, root, last) {
                    // As many pages as can be counted, and still not the last one.
                    last + 1 == u64::MAX && error.says(
                        ErrorKind::Corruption,
                        "object listing does not end"@,
                    )
                } else {
                    says_refusal(error, reply_refusal(history, from, root, last))
                },
            },
        }
    }
}

/// What is known of pages stays known when the client is asked more.
proof fn pages_stay(
    before: Seq<Exchange>,
    after: Seq<Exchange>,
    from: int,
    count: nat,
    root: Seq<char>,
    extension: Option<Seq<char>>,
)
    requires
        0 <= from,
        before.len() == from + count,
        contract::asked_since(before, after, 1),
    ensures
        forall|i: int|
            0 <= i < count && #[trigger] page_continues(before, from, root, i) ==> page_continues(
                after,
                from,
                root,
                i,
            ),
        cursor(after, from, count as int) == cursor(before, from, count as int),
        kept_of_pages(after, from, count, keys::canonical(root), extension) == kept_of_pages(
            before,
            from,
            count,
            keys::canonical(root),
            extension,
        ),
{
    assert forall|i: int|
        0 <= i < count && #[trigger] page_continues(before, from, root, i) implies page_continues(
        after,
        from,
        root,
        i,
    ) by {
        assert(after[from + i] == before[from + i]);
        if i > 0 {
            assert(after[from + i - 1] == before[from + i - 1]);
        }
    }
    if count > 0 {
        assert(after[from + count - 1] == before[from + count - 1]);
    }
    kept_stays(before, after, from, count, keys::canonical(root), extension);
}

proof fn kept_stays(
    before: Seq<Exchange>,
    after: Seq<Exchange>,
    from: int,
    count: nat,
    root: Seq<char>,
    extension: Option<Seq<char>>,
)
    requires
        0 <= from,
        from + count <= before.len(),
        before.len() <= after.len(),
        forall|i: int| 0 <= i < before.len() ==> #[trigger] after[i] == before[i],
    ensures
        kept_of_pages(after, from, count, root, extension) == kept_of_pages(
            before,
            from,
            count,
            root,
            extension,
        ),
    decreases count,
{
    if count > 0 {
        kept_stays(before, after, from, (count - 1) as nat, root, extension);
        assert(after[from + count - 1] == before[from + count - 1]);
    }
}

/// One more page of a listing.
proof fn page_added(
    middle: Seq<Exchange>,
    history: Seq<Exchange>,
    from: int,
    count: nat,
    request: StorageObjectListRequest,
    result: Result<StorageObjectListPage>,
)
    requires
        0 <= from,
        middle.len() == from + count,
        keys::is_key(request.root@),
        page_listed(
            middle,
            history,
            request,
            cursor(middle, from, count as int),
            LISTING_PAGE_OBJECTS,
            result,
        ),
    ensures
        history.len() == middle.len() + 1,
        page_follows(history, from, request.root@, count as int),
        match result {
            Ok(page) => {
                &&& reply_usable(history, from, request.root@, count as int)
                &&& cursor(history, from, count as int + 1) == match page.next_after {
                    Some(next) => Some(next@),
                    None => None::<Seq<char>>,
                }
                &&& kept_of_pages(
                    history,
                    from,
                    count + 1,
                    keys::canonical(request.root@),
                    wanted_extension(request),
                ) == kept_of_pages(
                    middle,
                    from,
                    count,
                    keys::canonical(request.root@),
                    wanted_extension(request),
                ) + paths(page.objects@)
            },
            Err(error) => match contract::reply_error(history.last()) {
                Some(replied) => error == replied,
                None => {
                    &&& !reply_usable(history, from, request.root@, count as int)
                    &&& says_refusal(
                        error,
                        reply_refusal(history, from, request.root@, count as int),
                    )
                },
            },
        },
{
    let root = request.root@;
    pages_stay(middle, history, from, count, root, wanted_extension(request));
}

fn append_objects(objects: &mut Vec<StorageObjectId>, more: Vec<StorageObjectId>)
    ensures
        paths(final(objects)@) == paths(old(objects)@) + paths(more@),
        forall|kind: StorageObjectKind|
            all_of_kind(old(objects)@, kind) && all_of_kind(more@, kind) ==> #[trigger] all_of_kind(
                final(objects)@,
                kind,
            ),
{
    let ghost before = objects@;
    let mut more: Vec<StorageObjectId> = more;
    let ghost all = more@;
    objects.append(&mut more);
    proof {
        assert(objects@ =~= before + all);
        assert(paths(objects@) =~= paths(before) + paths(all));
        assert forall|kind: StorageObjectKind|
            all_of_kind(before, kind) && all_of_kind(all, kind) implies #[trigger] all_of_kind(
            objects@,
            kind,
        ) by {
            assert forall|i: int| 0 <= i < objects@.len() implies (
            #[trigger] objects@[i]).spec_kind() == kind by {
                if i < before.len() {
                    assert(before[i].spec_kind() == kind);
                } else {
                    assert(all[i - before.len()].spec_kind() == kind);
                }
            }
        }
    }
}

impl<C: ObjectClient> ObjectStoreBackend<C> {
    /// Lists the objects directly under a root, in order.
    #[verifier::rlimit(40)]
    pub fn list_objects(&mut self, request: &StorageObjectListRequest) -> (result: Result<
        Vec<StorageObjectId>,
    >)
        ensures
            all_listed(
                old(self).client.history(),
                final(self).client.history(),
                *request,
                result,
            ),
    {
        let ghost before = self.client.history();
        let ghost from = before.len() as int;
        let ghost root = request.root@;
        let ghost extension = wanted_extension(*request);
        let mut objects: Vec<StorageObjectId> = Vec::new();
        let mut after: Option<String> = None;
        let mut pages: u64 = 0;
        proof {
            assert(paths(objects@) =~= Seq::empty());
        }
        while pages < u64::MAX
            invariant
                from == before.len(),
                before == old(self).client.history(),
                root == request.root@,
                extension == wanted_extension(*request),
                self.client.history().len() == from + pages,
                pages > 0 ==> keys::is_key(root),
                pages == 0 ==> self.client.history() == before,
                forall|i: int|
                    0 <= i < before.len() ==> #[trigger] self.client.history()[i] == before[i],
                forall|count: int|
                    0 <= count < pages ==> #[trigger] page_continues(
                        self.client.history(),
                        from,
                        root,
                        count,
                    ),
                cursor(self.client.history(), from, pages as int) == match after {
                    Some(after) => Some(after@),
                    None => None::<Seq<char>>,
                },
                paths(objects@) == kept_of_pages(
                    self.client.history(),
                    from,
                    pages as nat,
                    keys::canonical(root),
                    extension,
                ),
                all_of_kind(objects@, request.kind),
            decreases u64::MAX - pages,
        {
            let ghost middle = self.client.history();
            let start: Option<&str> = match &after {
                Some(after) => Some(after.as_str()),
                None => None,
            };
            let listed: Result<StorageObjectListPage> = self.list_objects_page(
                request,
                start,
                LISTING_PAGE_OBJECTS,
            );
            let ghost history = self.client.history();
            proof {
                if keys::is_key(root) {
                    page_added(middle, history, from, pages as nat, *request, listed);
                    pages_stay(middle, history, from, pages as nat, root, extension);
                    assert forall|i: int| 0 <= i < before.len() implies #[trigger] history[i]
                        == before[i] by {
                        assert(middle[i] == before[i]);
                    }
                    assert forall|count: int| 0 <= count < pages implies #[trigger] page_continues(
                        history,
                        from,
                        root,
                        count,
                    ) by {
                        assert(page_continues(middle, from, root, count));
                    }
                }
            }
            let page: StorageObjectListPage = match listed {
                Ok(page) => page,
                Err(error) => {
                    return Err(error);
                },
            };
            append_objects(&mut objects, page.objects);
            match page.next_after {
                None => {
                    return Ok(objects);
                },
                Some(next) => {
                    assert(page_continues(history, from, root, pages as int));
                    after = Some(next);
                },
            }
            pages = pages + 1;
        }
        proof {
            assert(page_continues(self.client.history(), from, root, pages - 1));
        }
        Err(Error::corruption("object listing does not end"))
    }
}

/// Whether a key is a name directly under a root: the root, a slash and a name without slashes, or
/// the bare name where the root is empty.
pub open spec fn lies_directly_under(key: Seq<char>, root: Seq<char>) -> bool {
    ||| exists|name: Seq<char>| key == root + seq!['/'] + name && #[trigger] name_only(name)
    ||| root.len() == 0 && key.len() > 0 && name_only(key)
}

/// Whether a text has no slash.
pub open spec fn name_only(name: Seq<char>) -> bool {
    !name.contains('/')
}

proof fn last_is_not_slash(key: Seq<char>)
    requires
        key.len() > 0,
        key.last() != '/',
    ensures
        name_only(key) == name_only(key.drop_last()),
{
    let shorter = key.drop_last();
    if key.contains('/') {
        let i = choose|i: int| 0 <= i < key.len() && key[i] == '/';
        assert(shorter[i] == '/');
    }
    if shorter.contains('/') {
        let i = choose|i: int| 0 <= i < shorter.len() && shorter[i] == '/';
        assert(key[i] == '/');
    }
}

/// The parent of a key ends before the last slash; a key without one has the empty parent.
pub proof fn parent_ends_before_the_last_slash(key: Seq<char>)
    ensures
        name_only(key) ==> reclamation::parent_of(key).len() == 0,
        !name_only(key) ==> exists|name: Seq<char>|
            key == reclamation::parent_of(key) + seq!['/'] + name && #[trigger] name_only(name),
    decreases key.len(),
{
    if key.len() > 0 {
        if key.last() == '/' {
            let name = Seq::<char>::empty();
            assert(key[key.len() - 1] == '/');
            assert(name_only(name));
            assert(key =~= reclamation::parent_of(key) + seq!['/'] + name);
        } else {
            let shorter = key.drop_last();
            parent_ends_before_the_last_slash(shorter);
            last_is_not_slash(key);
            if !name_only(key) {
                let name = choose|name: Seq<char>|
                    shorter == reclamation::parent_of(shorter) + seq!['/'] + name
                        && #[trigger] name_only(name);
                let longer = name.push(key.last());
                assert(longer.drop_last() =~= name);
                last_is_not_slash(longer);
                assert(key =~= shorter.push(key.last()));
                assert(key =~= reclamation::parent_of(key) + seq!['/'] + longer);
            }
        }
    }
}

proof fn parent_of_joined(root: Seq<char>, name: Seq<char>)
    requires
        name_only(name),
    ensures
        reclamation::parent_of(root + seq!['/'] + name) == root,
    decreases name.len(),
{
    let key = root + seq!['/'] + name;
    if name.len() == 0 {
        assert(key.last() == '/');
        assert(key.drop_last() =~= root);
    } else {
        assert(key.last() == name.last());
        assert(name[name.len() - 1] == name.last());
        last_is_not_slash(name);
        assert(key.drop_last() =~= root + seq!['/'] + name.drop_last());
        parent_of_joined(root, name.drop_last());
    }
}

/// A key is a child of a root exactly if it is a name directly under it, where no key begins with
/// a slash.
pub proof fn children_lie_directly_under_their_root(key: Seq<char>, root: Seq<char>)
    requires
        key.len() > 0 ==> key[0] != '/',
    ensures
        is_child(key, root) == lies_directly_under(key, root),
{
    parent_ends_before_the_last_slash(key);
    if is_child(key, root) {
        if name_only(key) {
            assert(root =~= Seq::empty());
        }
    }
    if lies_directly_under(key, root) {
        if root.len() == 0 && key.len() > 0 && name_only(key) {
            assert(reclamation::parent_of(key) =~= root);
        } else {
            let name = choose|name: Seq<char>|
                key == root + seq!['/'] + name && #[trigger] name_only(name);
            parent_of_joined(root, name);
        }
    }
}

/// Whether a key reads as a file name with an extension: something that does not end in a slash,
/// a dot, and an extension without dots or slashes.
pub open spec fn reads_as(key: Seq<char>, stem: Seq<char>, extension: Seq<char>) -> bool {
    &&& key == stem + seq!['.'] + extension
    &&& stem.len() > 0
    &&& stem.last() != '/'
    &&& name_only(extension)
    &&& !extension.contains('.')
}

/// A key has an extension exactly if it reads as a file name with that extension.
pub proof fn extension_follows_the_last_dot(
    key: Seq<char>,
    stem: Seq<char>,
    extension: Seq<char>,
)
    ensures
        reads_as(key, stem, extension) ==> extension_of(key) == Some(extension),
        extension_of(key) matches Some(found) ==> exists|before: Seq<char>| #[trigger]
            reads_as(key, before, found),
    decreases key.len(),
{
    if key.len() > 0 {
        let shorter = key.drop_last();
        if reads_as(key, stem, extension) {
            if extension.len() == 0 {
                assert(key.last() == '.');
                assert(key[key.len() - 2] == stem.last());
                assert(extension =~= Seq::empty());
            } else {
                let part = extension.drop_last();
                assert(key.last() == extension.last());
                assert(extension[extension.len() - 1] == extension.last());
                last_is_not_slash(extension);
                assert forall|i: int| 0 <= i < part.len() implies part[i] != '.' by {
                    assert(extension[i] == part[i]);
                }
                assert(shorter =~= stem + seq!['.'] + part);
                extension_follows_the_last_dot(shorter, stem, part);
                assert(part.push(extension.last()) =~= extension);
            }
        }
        if extension_of(key) is Some {
            let found = extension_of(key)->0;
            if key.last() == '.' {
                assert(key =~= shorter + seq!['.'] + found);
                assert(shorter.last() == key[key.len() - 2]);
                assert(reads_as(key, shorter, found));
            } else {
                extension_follows_the_last_dot(shorter, stem, extension);
                let part = extension_of(shorter)->0;
                let before = choose|before: Seq<char>| #[trigger] reads_as(shorter, before, part);
                assert(found.drop_last() =~= part);
                last_is_not_slash(found);
                assert forall|i: int| 0 <= i < found.len() implies found[i] != '.' by {
                    if i < part.len() {
                        assert(found[i] == part[i]);
                    }
                }
                assert(key =~= shorter.push(key.last()));
                assert(key =~= before + seq!['.'] + found);
                assert(reads_as(key, before, found));
            }
        }
    }
}

/// Two bytes are the same but for case exactly if they are equal, or one is a capital letter and
/// the other the small letter for it.
pub proof fn only_letters_have_case(a: u8, b: u8)
    ensures
        (small(a) == small(b)) == (a == b || (65 <= a <= 90 && b == a + 32) || (65 <= b <= 90 && a
            == b + 32)),
{
}

/// A listing keeps, in order, exactly the objects directly under the root that have the extension.
pub proof fn listing_keeps_the_wanted_objects(
    metas: Seq<ObjectMeta>,
    root: Seq<char>,
    extension: Option<Seq<char>>,
)
    requires
        forall|i: int|
            0 <= i < metas.len() && (#[trigger] metas[i]).key@.len() > 0 ==> metas[i].key@[0]
                != '/',
    ensures
        kept(metas, root, extension) == metas.map_values(|meta: ObjectMeta| meta.key@).filter(
            |key: Seq<char>| lies_directly_under(key, root) && has_extension(key, extension),
        ),
    decreases metas.len(),
{
    let wanted = |key: Seq<char>| lies_directly_under(key, root) && has_extension(key, extension);
    let names = metas.map_values(|meta: ObjectMeta| meta.key@);
    reveal(Seq::filter);
    if metas.len() > 0 {
        let shorter = metas.drop_last();
        assert forall|i: int|
            0 <= i < shorter.len() && (#[trigger] shorter[i]).key@.len()
                > 0 implies shorter[i].key@[0] != '/' by {
            assert(metas[i] == shorter[i]);
        }
        listing_keeps_the_wanted_objects(shorter, root, extension);
        assert(names.drop_last() =~= shorter.map_values(|meta: ObjectMeta| meta.key@));
        assert(metas[metas.len() - 1] == metas.last());
        children_lie_directly_under_their_root(metas.last().key@, root);
    }
}

/// Without a wanted extension every key has it; a key without one has no wanted extension.
pub proof fn extensions_are_compared_without_case(
    key: Seq<char>,
    stem: Seq<char>,
    extension: Seq<char>,
    wanted: Seq<char>,
)
    ensures
        has_extension(key, None),
        reads_as(key, stem, extension) ==> (has_extension(key, Some(wanted))
            == same_ignoring_case(
            vstd::utf8::encode_utf8(extension),
            vstd::utf8::encode_utf8(wanted),
        )),
        reads_as(key, stem, extension) ==> has_extension(key, Some(extension)),
        (forall|before: Seq<char>, after: Seq<char>| !#[trigger] reads_as(key, before, after))
            ==> !has_extension(key, Some(wanted)),
{
    extension_follows_the_last_dot(key, stem, extension);
    if extension_of(key) is Some {
        let found = extension_of(key)->0;
        let before = choose|before: Seq<char>| #[trigger] reads_as(key, before, found);
        assert(reads_as(key, before, found));
    }
}

/// Where a page of a listing of all objects was asked to start: after the last page's end, or at
/// the beginning.
pub open spec fn asked_after(exchange: Exchange) -> Option<Seq<char>> {
    match exchange {
        Exchange::ListPage { after, .. } => after,
        _ => None,
    }
}

/// A listing that succeeds asked for one page after the other until the last: the first page from
/// the beginning, each other from where the one before it ended, all under the root. It found a
/// path exactly if a page has an object of that path directly under the root with the extension.
pub proof fn listing_goes_through_all_pages(
    before: Seq<Exchange>,
    history: Seq<Exchange>,
    request: StorageObjectListRequest,
    objects: Vec<StorageObjectId>,
    path: Seq<char>,
    at: int,
)
    requires
        all_listed(before, history, request, Ok(objects)),
        0 <= at < history.len() - before.len(),
    ensures
        keys::is_key(request.root@),
        history.len() > before.len(),
        history.take(before.len() as int) == before,
        history[before.len() + at] matches Exchange::ListPage { prefix, limit, .. } && limit
            == 1024 && (if keys::canonical(request.root@).len() == 0 {
            prefix.len() == 0
        } else {
            prefix == keys::canonical(request.root@) + "/"@
        }),
        page_of(history[before.len() + at]) is Some,
        asked_after(history[before.len() as int]) is None,
        at > 0 ==> (page_of(history[before.len() + at - 1])->0.next_after matches Some(next)
            && asked_after(history[before.len() + at]) == Some(next@)),
        (page_of(history[before.len() + at])->0.next_after is None) == (at == history.len()
            - before.len() - 1),
        paths(objects@).contains(path) <==> exists|page: int|
            0 <= page < history.len() - before.len() && #[trigger] kept(
                page_of(history[before.len() + page])->0.objects@,
                keys::canonical(request.root@),
                wanted_extension(request),
            ).contains(path),
{
    let from = before.len() as int;
    let root = request.root@;
    let last = history.len() - from - 1;
    if at < last {
        assert(page_continues(history, from, root, at));
    }
    if at > 0 {
        assert(page_continues(history, from, root, at - 1));
    }
    if 0 < last {
        assert(page_continues(history, from, root, 0));
    }
    kept_of_pages_members(
        history,
        from,
        (last + 1) as nat,
        keys::canonical(root),
        wanted_extension(request),
        path,
    );
}

proof fn kept_of_pages_members(
    history: Seq<Exchange>,
    from: int,
    count: nat,
    root: Seq<char>,
    extension: Option<Seq<char>>,
    path: Seq<char>,
)
    ensures
        kept_of_pages(history, from, count, root, extension).contains(path) <==> exists|page: int|
            0 <= page < count && #[trigger] kept(
                page_of(history[from + page])->0.objects@,
                root,
                extension,
            ).contains(path),
    decreases count,
{
    if count > 0 {
        let less = (count - 1) as nat;
        kept_of_pages_members(history, from, less, root, extension, path);
        let head = kept_of_pages(history, from, less, root, extension);
        let tail = kept(page_of(history[from + less])->0.objects@, root, extension);
        let all = head + tail;
        if all.contains(path) {
            let i = choose|i: int| 0 <= i < all.len() && all[i] == path;
            if i < head.len() {
                assert(head[i] == path);
            } else {
                assert(tail[i - head.len()] == path);
            }
        }
        if head.contains(path) {
            let i = choose|i: int| 0 <= i < head.len() && head[i] == path;
            assert(all[i] == path);
        }
        if tail.contains(path) {
            let i = choose|i: int| 0 <= i < tail.len() && tail[i] == path;
            assert(all[head.len() + i] == path);
        }
        assert(less as int == count - 1);
    }
}

} // verus!
