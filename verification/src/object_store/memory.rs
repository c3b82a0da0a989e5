//! An object store in memory.
use vstd::prelude::*;
use vstd::slice::{slice_subrange, slice_to_vec};

use crate::bytes_order;
use crate::bytes_order::{starts_with, KeyOrder};
use crate::error::{Error, ErrorKind, Result};
use crate::object_store;
use crate::object_store::model;
use crate::object_store::{
    Condition, ETag, Exchange, ObjectClient, ObjectListPage, ObjectMeta, Precondition, PutIf,
};
use crate::ordered;
use crate::ordered::{order_names, Modelled, NameMap};
use crate::text;
use crate::text::push_decimal;

verus! {

/// One stored object: its bytes and current `ETag`.
#[derive(Debug)]
struct StoredObject {
    bytes: Vec<u8>,
    etag: ETag,
}

/// What is stored under one key.
#[verifier::ext_equal]
pub struct Stored {
    /// The bytes of the object.
    pub bytes: Seq<u8>,
    /// Its current `ETag`.
    pub etag: Seq<char>,
}

impl DeepView for StoredObject {
    type V = Stored;

    closed spec fn deep_view(&self) -> Stored {
        Stored { bytes: self.bytes@, etag: self.etag@ }
    }
}

impl Modelled for StoredObject {
    fn copy_model(&self) -> (copy: StoredObject) {
        StoredObject { bytes: slice_to_vec(self.bytes.as_slice()), etag: self.etag.clone() }
    }

    fn same_model(&self, other: &StoredObject) -> (same: bool) {
        let same: bool = bytes_order::bytes_equal(self.bytes.as_slice(), other.bytes.as_slice())
            && self.etag.same(&other.etag);
        proof {
            assert(self.bytes@ == other.bytes@ && self.etag@ == other.etag@
                ==> self.deep_view() == other.deep_view());
        }
        same
    }
}

/// The text of the `ETag` that a store mints as its `number`th.
pub open spec fn minted_tag(number: nat) -> Seq<char> {
    "etag-"@ + text::decimal(number)
}

/// Tags minted at different times differ.
pub proof fn minted_tags_are_distinct(a: nat, b: nat)
    requires
        a != b,
    ensures
        minted_tag(a) != minted_tag(b),
{
    if minted_tag(a) == minted_tag(b) {
        let head = "etag-"@;
        assert(text::decimal(a) =~= minted_tag(a).skip(head.len() as int));
        assert(text::decimal(b) =~= minted_tag(b).skip(head.len() as int));
        text::decimals_are_distinct(a, b);
    }
}

/// Whether a name starts with a prefix.
pub open spec fn name_has_prefix(name: Seq<char>, prefix: Seq<char>) -> bool {
    bytes_order::has_prefix(
        vstd::utf8::encode_utf8(name),
        vstd::utf8::encode_utf8(prefix),
    )
}

/// Whether a key belongs to a listing: it starts with the prefix, comes after the exclusive
/// key `after`, and does not come after the inclusive key `through`.
pub open spec fn is_listed(
    key: Seq<char>,
    prefix: Seq<char>,
    after: Option<Seq<char>>,
    through: Option<Seq<char>>,
) -> bool {
    &&& name_has_prefix(key, prefix)
    &&& match after {
        Some(after) => ordered::name_lt(after, key),
        None => true,
    }
    &&& match through {
        Some(through) => !ordered::name_lt(through, key),
        None => true,
    }
}

/// Whether metadata describes what is stored under its key.
pub open spec fn describes(meta: ObjectMeta, objects: Map<Seq<char>, Stored>) -> bool {
    &&& objects.dom().contains(meta.key@)
    &&& meta.size == objects[meta.key@].bytes.len()
    &&& meta.etag@ == objects[meta.key@].etag
    &&& meta.version is None
}

/// Whether metadata is the listing of a store: every key that belongs to it, once, in order,
/// with what is stored under it.
pub open spec fn is_listing(
    metas: Seq<ObjectMeta>,
    objects: Map<Seq<char>, Stored>,
    prefix: Seq<char>,
    after: Option<Seq<char>>,
    through: Option<Seq<char>>,
) -> bool {
    &&& forall|i: int, j: int|
        0 <= i < j < metas.len() ==> ordered::name_lt(
            (#[trigger] metas[i]).key@,
            (#[trigger] metas[j]).key@,
        )
    &&& forall|i: int|
        0 <= i < metas.len() ==> describes(#[trigger] metas[i], objects) && is_listed(
            metas[i].key@,
            prefix,
            after,
            through,
        )
    &&& forall|key: Seq<char>| #[trigger]
        objects.dom().contains(key) && is_listed(key, prefix, after, through) ==> exists|i: int|
            0 <= i < metas.len() && (#[trigger] metas[i]).key@ == key
}

/// Whether a page is what a store shows of a listing that starts after `after`.
pub open spec fn is_page(
    page: ObjectListPage,
    objects: Map<Seq<char>, Stored>,
    prefix: Seq<char>,
    after: Option<Seq<char>>,
    limit: usize,
) -> bool {
    match page.next_after {
        None => page.objects@.len() <= limit && is_listing(
            page.objects@,
            objects,
            prefix,
            after,
            None,
        ),
        Some(last) => {
            &&& page.objects@.len() == limit
            &&& page.objects@.last().key@ == last@
            &&& is_listing(page.objects@, objects, prefix, after, Some(last@))
            &&& exists|key: Seq<char>| #[trigger]
                objects.dom().contains(key) && is_listed(key, prefix, Some(last@), None)
        },
    }
}

/// Whether a condition holds of what is stored under a key.
pub open spec fn condition_holds(
    objects: Map<Seq<char>, Stored>,
    key: Seq<char>,
    condition: Condition,
) -> bool {
    match condition {
        Condition::Absent => !objects.dom().contains(key),
        Condition::Tagged(etag) => objects.dom().contains(key) && objects[key].etag == etag,
    }
}

/// An in-memory [`ObjectClient`] with real `ETag` and conditional-write semantics.
pub struct InMemoryObjectStore {
    objects: NameMap<StoredObject>,
    next_etag: u64,
    history: Ghost<Seq<Exchange>>,
}

impl InMemoryObjectStore {
    /// What is stored, by key.
    pub closed spec fn objects(&self) -> Map<Seq<char>, Stored> {
        self.objects.map()
    }

    /// How many tags the store has minted.
    pub closed spec fn minted(&self) -> u64 {
        self.next_etag
    }

    /// The keys are sorted, and every tag in use was minted by this store.
    #[verifier::type_invariant]
    spec fn wf(self) -> bool {
        &&& self.objects.wf()
        &&& forall|key: Seq<char>| #[trigger]
            self.objects.map().dom().contains(key) ==> exists|number: nat|
                number < self.next_etag && self.objects.map()[key].etag == #[trigger] minted_tag(
                    number,
                )
    }

    /// Creates an empty store.
    pub fn new() -> (store: InMemoryObjectStore)
        ensures
            store.objects() == Map::<Seq<char>, Stored>::empty(),
            store.minted() == 0,
            store.history() == Seq::<Exchange>::empty(),
    {
        InMemoryObjectStore { objects: NameMap::new(), next_etag: 0, history: Ghost(Seq::empty()) }
    }

    fn get_inner(&self, key: &str) -> (bytes: Option<Vec<u8>>)
        ensures
            read_of(self.objects(), key@, bytes),
    {
        proof {
            use_type_invariant(self);
        }
        match self.objects.get(key) {
            Some(object) => Some(slice_to_vec(object.bytes.as_slice())),
            None => None,
        }
    }

    fn get_range_inner(&self, key: &str, offset: u64, len: u64, expected_etag: &ETag) -> (result:
        Result<Vec<u8>>)
        ensures
            range_of(self.objects(), key@, offset, len, expected_etag@, result),
    {
        proof {
            use_type_invariant(self);
        }
        let object: &StoredObject = match self.objects.get(key) {
            Some(object) => object,
            None => {
                return Err(Error::object_version_changed(key));
            },
        };
        if !object.etag.same(expected_etag) {
            return Err(Error::object_version_changed(key));
        }
        if offset > usize::MAX as u64 {
            return Err(Error::invalid_options("object range offset overflow"));
        }
        if len > usize::MAX as u64 {
            return Err(Error::invalid_options("object range length overflow"));
        }
        let offset: usize = offset as usize;
        let len: usize = len as usize;
        let end: usize = match offset.checked_add(len) {
            Some(end) => end,
            None => {
                return Err(Error::invalid_options("object range end overflow"));
            },
        };
        if end > object.bytes.len() {
            let mut message: String = text::join("object ", key);
            message = text::join(message.as_str(), " short read for range ");
            push_decimal(&mut message, offset as u64);
            message = text::join(message.as_str(), "..");
            push_decimal(&mut message, end as u64);
            return Err(Error::Corruption { message });
        }
        Ok(slice_to_vec(slice_subrange(object.bytes.as_slice(), offset, end)))
    }

    fn put_inner(&mut self, key: &str, bytes: &[u8]) -> (result: Result<ETag>)
        ensures
            stored_by(*old(self), *final(self), key@, bytes@, result),
            final(self).history() == old(self).history(),
    {
        proof {
            use_type_invariant(&*self);
        }
        let ghost before = self.objects.map();
        let ghost number = self.next_etag as nat;
        if self.next_etag == u64::MAX {
            return Err(Error::corruption("in-memory object store has no entity tags left"));
        }
        let tag: String = text::join_number("etag-", self.next_etag, "");
        proof {
            reveal_strlit("");
            assert(tag@ =~= minted_tag(number));
            assert forall|other: Seq<char>| #[trigger] before.dom().contains(
                other,
            ) implies before[other].etag != tag@ by {
                let earlier = choose|earlier: nat|
                    earlier < number && before[other].etag == #[trigger] minted_tag(earlier);
                minted_tags_are_distinct(earlier, number);
            }
        }
        let etag = ETag::new(tag.as_str());
        let object = StoredObject { bytes: slice_to_vec(bytes), etag: etag.clone() };
        let ghost stored = object.deep_view();
        assert(stored == Stored { bytes: bytes@, etag: minted_tag(number) });
        let mut objects: NameMap<StoredObject> = NameMap::new();
        std::mem::swap(&mut objects, &mut self.objects);
        let _ = objects.insert(key.to_owned(), object);
        let next: u64 = self.next_etag + 1;
        let history: Ghost<Seq<Exchange>> = Ghost(self.history@);
        let after = InMemoryObjectStore { objects, next_etag: next, history };
        *self = after;
        Ok(etag)
    }

    fn delete_inner(&mut self, key: &str)
        ensures
            final(self).objects() == old(self).objects().remove(key@),
            final(self).minted() == old(self).minted(),
            final(self).history() == old(self).history(),
    {
        proof {
            use_type_invariant(&*self);
        }
        let mut objects: NameMap<StoredObject> = NameMap::new();
        std::mem::swap(&mut objects, &mut self.objects);
        let _ = objects.remove(key);
        self.objects = objects;
    }

    /// Collects at most `limit` objects of a listing, in order, and tells where it stopped.
    fn collect(&self, prefix: &str, after: Option<&str>, limit: usize) -> (found: (
        Vec<ObjectMeta>,
        Option<usize>,
    ))
        ensures
            match found.1 {
                None => found.0@.len() <= limit && is_listing(
                    found.0@,
                    self.objects(),
                    prefix@,
                    object_store::optional_text(after),
                    None,
                ),
                Some(at) => {
                    &&& at < self.objects.pairs().len()
                    &&& found.0@.len() == limit
                    &&& limit <= at
                    &&& limit > 0 ==> is_listing(
                        found.0@,
                        self.objects(),
                        prefix@,
                        object_store::optional_text(after),
                        Some(found.0@.last().key@),
                    ) && exists|key: Seq<char>| #[trigger]
                        self.objects().dom().contains(key) && is_listed(
                            key,
                            prefix@,
                            Some(found.0@.last().key@),
                            None,
                        )
                },
            },
    {
        proof {
            use_type_invariant(self);
            ordered::sorted_names_are_distinct(self.objects.pairs());
            ordered::name_order_facts();
        }
        let ghost pairs = self.objects.pairs();
        let ghost from = object_store::optional_text(after);
        let len: usize = self.objects.len();
        let mut metas: Vec<ObjectMeta> = Vec::new();
        let mut stopped: Option<usize> = None;
        let mut i: usize = 0;
        while i < len && stopped.is_none()
            invariant
                i <= len == pairs.len(),
                pairs == self.objects.pairs(),
                self.objects.wf(),
                from == object_store::optional_text(after),
                metas@.len() <= i,
                metas@.len() <= limit,
                forall|j: int, k: int|
                    0 <= j < k < metas@.len() ==> ordered::name_lt(
                        (#[trigger] metas@[j]).key@,
                        (#[trigger] metas@[k]).key@,
                    ),
                forall|j: int|
                    0 <= j < metas@.len() ==> describes(#[trigger] metas@[j], self.objects())
                        && is_listed(metas@[j].key@, prefix@, from, None),
                forall|j: int, k: int|
                    0 <= j < metas@.len() && i <= k < pairs.len() ==> ordered::name_lt(
                        (#[trigger] metas@[j]).key@,
                        (#[trigger] pairs[k]).0,
                    ),
                forall|k: int|
                    0 <= k < i && is_listed((#[trigger] pairs[k]).0, prefix@, from, None)
                        ==> exists|j: int|
                        0 <= j < metas@.len() && (#[trigger] metas@[j]).key@ == pairs[k].0,
                match stopped {
                    None => true,
                    Some(at) => at == i && i < pairs.len() && metas@.len() == limit && is_listed(
                        pairs[i as int].0,
                        prefix@,
                        from,
                        None,
                    ),
                },
            decreases len - i, if stopped.is_none() { 1int } else { 0int },
        {
            let key: &str = self.objects.name_at(i);
            let beyond: bool = match after {
                None => true,
                Some(after) => match order_names(after, key) {
                    KeyOrder::Less => true,
                    _ => false,
                },
            };
            if beyond && starts_with(key.as_bytes(), prefix.as_bytes()) {
                assert(is_listed(pairs[i as int].0, prefix@, from, None));
                if metas.len() == limit {
                    stopped = Some(i);
                } else {
                    let object: &StoredObject = self.objects.value_at(i);
                    proof {
                        ordered::sorted_names_are_distinct(pairs);
                        ordered::pair_is_in_map(pairs, i as int);
                    }
                    let ghost before = metas@;
                    metas.push(
                        ObjectMeta {
                            key: key.to_owned(),
                            size: object.bytes.len() as u64,
                            etag: object.etag.clone(),
                            version: None,
                        },
                    );
                    proof {
                        assert(metas@.last().key@ == pairs[i as int].0);
                        assert forall|k: int|
                            0 <= k < i + 1 && is_listed(
                                (#[trigger] pairs[k]).0,
                                prefix@,
                                from,
                                None,
                            ) implies exists|j: int|
                            0 <= j < metas@.len() && (#[trigger] metas@[j]).key@ == pairs[k].0 by {
                            if k < i {
                                let j = choose|j: int|
                                    0 <= j < before.len() && (#[trigger] before[j]).key@
                                        == pairs[k].0;
                                assert(metas@[j].key@ == pairs[k].0);
                            } else {
                                assert(metas@[metas@.len() - 1].key@ == pairs[k].0);
                            }
                        }
                    }
                    i = i + 1;
                }
            } else {
                assert(!is_listed(pairs[i as int].0, prefix@, from, None));
                i = i + 1;
            }
        }
        proof {
            let through: Option<Seq<char>> = match stopped {
                None => None,
                Some(_) => Some(metas@.last().key@),
            };
            assert forall|key: Seq<char>| #[trigger]
                self.objects().dom().contains(key) && is_listed(key, prefix@, from, through)
                    && (stopped is Some ==> limit > 0) implies exists|j: int|
                0 <= j < metas@.len() && (#[trigger] metas@[j]).key@ == key by {
                let k = ordered::map_key_is_in_pairs(pairs, key);
                assert(is_listed(pairs[k].0, prefix@, from, None));
                if k >= i {
                    assert(ordered::name_lt(metas@[metas@.len() - 1].key@, pairs[k].0));
                }
            }
            if stopped is Some && limit > 0 {
                ordered::pair_is_in_map(pairs, i as int);
                assert(ordered::name_lt(metas@[metas@.len() - 1].key@, pairs[i as int].0));
                assert(self.objects().dom().contains(pairs[i as int].0));
                assert forall|j: int| 0 <= j < metas@.len() implies is_listed(
                    (#[trigger] metas@[j]).key@,
                    prefix@,
                    from,
                    through,
                ) by {
                    ordered::name_order_facts();
                    if j < metas@.len() - 1 {
                        assert(ordered::name_lt(metas@[j].key@, metas@[metas@.len() - 1].key@));
                    }
                }
            }
        }
        (metas, stopped)
    }

    fn list_inner(&self, prefix: &str) -> (metas: Vec<ObjectMeta>)
        ensures
            is_listing(metas@, self.objects(), prefix@, None, None),
    {
        let (metas, _): (Vec<ObjectMeta>, Option<usize>) = self.collect(
            prefix,
            None,
            self.objects.len(),
        );
        metas
    }

    fn list_page_inner(&self, prefix: &str, after: Option<&str>, limit: usize) -> (result: Result<
        ObjectListPage,
    >)
        ensures
            paged(self.objects(), prefix@, object_store::optional_text(after), limit, result),
    {
        if limit == 0 {
            return Err(Error::invalid_options("object listing page limit must be non-zero"));
        }
        if limit == usize::MAX {
            return Err(Error::invalid_options("object listing page limit overflow"));
        }
        let (objects, stopped): (Vec<ObjectMeta>, Option<usize>) = self.collect(
            prefix,
            after,
            limit,
        );
        let next_after: Option<String> = match stopped {
            None => None,
            Some(_) => Some(objects[limit - 1].key.clone()),
        };
        Ok(ObjectListPage { objects, next_after })
    }

    fn head_inner(&self, key: &str) -> (meta: Option<ObjectMeta>)
        ensures
            head_of(self.objects(), key@, meta),
    {
        proof {
            use_type_invariant(self);
        }
        match self.objects.get(key) {
            Some(object) => Some(
                ObjectMeta {
                    key: key.to_owned(),
                    size: object.bytes.len() as u64,
                    etag: object.etag.clone(),
                    version: None,
                },
            ),
            None => None,
        }
    }

    fn put_if_inner(&mut self, key: &str, bytes: &[u8], precondition: &Precondition) -> (result:
        Result<PutIf>)
        ensures
            stored_if(*old(self), *final(self), key@, bytes@, precondition@, result),
            final(self).history() == old(self).history(),
    {
        proof {
            use_type_invariant(&*self);
        }
        let current: Option<ETag> = match self.objects.get(key) {
            Some(object) => Some(object.etag.clone()),
            None => None,
        };
        let allowed: bool = match precondition {
            Precondition::IfNoneMatch => current.is_none(),
            Precondition::IfMatch(expected) => match &current {
                Some(actual) => expected.same(actual),
                None => false,
            },
        };
        if !allowed {
            return Ok(PutIf::PreconditionFailed { current });
        }
        match self.put_inner(key, bytes) {
            Ok(etag) => Ok(PutIf::Stored { etag }),
            Err(error) => Err(error),
        }
    }
}

impl Default for InMemoryObjectStore {
    fn default() -> (store: InMemoryObjectStore)
        ensures
            store.objects() == Map::<Seq<char>, Stored>::empty(),
            store.minted() == 0,
    {
        InMemoryObjectStore::new()
    }
}

impl ObjectClient for InMemoryObjectStore {
    closed spec fn history(&self) -> Seq<Exchange> {
        self.history@
    }

    fn get(&mut self, key: &str) -> (reply: Result<Option<Vec<u8>>>)
        ensures
            reply is Ok,
            read_of(old(self).objects(), key@, reply->Ok_0),
            final(self).objects() == old(self).objects(),
            final(self).minted() == old(self).minted(),
            model::answers(
                old(self).objects(),
                final(self).history().last(),
                final(self).objects(),
            ),
    {
        proof {
            use_type_invariant(&*self);
        }
        let reply: Result<Option<Vec<u8>>> = Ok(self.get_inner(key));
        self.history = Ghost(self.history@.push(Exchange::Get { key: key@, reply }));
        reply
    }

    fn get_range(&mut self, key: &str, offset: u64, len: u64, expected_etag: &ETag) -> (reply:
        Result<Vec<u8>>)
        ensures
            range_of(old(self).objects(), key@, offset, len, expected_etag@, reply),
            final(self).objects() == old(self).objects(),
            final(self).minted() == old(self).minted(),
            model::answers(
                old(self).objects(),
                final(self).history().last(),
                final(self).objects(),
            ),
    {
        proof {
            use_type_invariant(&*self);
        }
        let reply: Result<Vec<u8>> = self.get_range_inner(key, offset, len, expected_etag);
        self.history = Ghost(
            self.history@.push(
                Exchange::GetRange { key: key@, offset, len, etag: expected_etag@, reply },
            ),
        );
        reply
    }

    fn put(&mut self, key: &str, bytes: &[u8]) -> (reply: Result<ETag>)
        ensures
            stored_by(*old(self), *final(self), key@, bytes@, reply),
            model::answers(
                old(self).objects(),
                final(self).history().last(),
                final(self).objects(),
            ),
    {
        let reply: Result<ETag> = self.put_inner(key, bytes);
        proof {
            use_type_invariant(&*self);
        }
        self.history = Ghost(self.history@.push(Exchange::Put { key: key@, bytes: bytes@, reply }));
        reply
    }

    fn delete(&mut self, key: &str) -> (reply: Result<()>)
        ensures
            reply is Ok,
            final(self).objects() == old(self).objects().remove(key@),
            final(self).minted() == old(self).minted(),
            model::answers(
                old(self).objects(),
                final(self).history().last(),
                final(self).objects(),
            ),
    {
        self.delete_inner(key);
        proof {
            use_type_invariant(&*self);
        }
        let reply: Result<()> = Ok(());
        self.history = Ghost(self.history@.push(Exchange::Delete { key: key@, reply }));
        reply
    }

    fn list(&mut self, prefix: &str) -> (reply: Result<Vec<ObjectMeta>>)
        ensures
            reply is Ok,
            is_listing(reply->Ok_0@, old(self).objects(), prefix@, None, None),
            final(self).objects() == old(self).objects(),
            final(self).minted() == old(self).minted(),
            model::answers(
                old(self).objects(),
                final(self).history().last(),
                final(self).objects(),
            ),
    {
        proof {
            use_type_invariant(&*self);
        }
        let reply: Result<Vec<ObjectMeta>> = Ok(self.list_inner(prefix));
        self.history = Ghost(self.history@.push(Exchange::List { prefix: prefix@, reply }));
        reply
    }

    fn list_page(&mut self, prefix: &str, after: Option<&str>, limit: usize) -> (reply: Result<
        ObjectListPage,
    >)
        ensures
            paged(old(self).objects(), prefix@, object_store::optional_text(after), limit, reply),
            final(self).objects() == old(self).objects(),
            final(self).minted() == old(self).minted(),
            model::answers(
                old(self).objects(),
                final(self).history().last(),
                final(self).objects(),
            ),
    {
        proof {
            use_type_invariant(&*self);
        }
        let reply: Result<ObjectListPage> = self.list_page_inner(prefix, after, limit);
        self.history = Ghost(
            self.history@.push(
                Exchange::ListPage {
                    prefix: prefix@,
                    after: object_store::optional_text(after),
                    limit,
                    reply,
                },
            ),
        );
        reply
    }

    fn head(&mut self, key: &str) -> (reply: Result<Option<ObjectMeta>>)
        ensures
            reply is Ok,
            head_of(old(self).objects(), key@, reply->Ok_0),
            final(self).objects() == old(self).objects(),
            final(self).minted() == old(self).minted(),
            model::answers(
                old(self).objects(),
                final(self).history().last(),
                final(self).objects(),
            ),
    {
        proof {
            use_type_invariant(&*self);
        }
        let reply: Result<Option<ObjectMeta>> = Ok(self.head_inner(key));
        self.history = Ghost(self.history@.push(Exchange::Head { key: key@, reply }));
        reply
    }

    fn put_if(&mut self, key: &str, bytes: &[u8], precondition: Precondition) -> (reply: Result<
        PutIf,
    >)
        ensures
            stored_if(*old(self), *final(self), key@, bytes@, precondition@, reply),
            model::answers(
                old(self).objects(),
                final(self).history().last(),
                final(self).objects(),
            ),
    {
        let reply: Result<PutIf> = self.put_if_inner(key, bytes, &precondition);
        proof {
            use_type_invariant(&*self);
        }
        self.history = Ghost(
            self.history@.push(
                Exchange::PutIf { key: key@, bytes: bytes@, condition: precondition@, reply },
            ),
        );
        reply
    }
}

/// Whether a read of a whole object gave what is stored.
pub open spec fn read_of(
    objects: Map<Seq<char>, Stored>,
    key: Seq<char>,
    bytes: Option<Vec<u8>>,
) -> bool {
    match bytes {
        Some(bytes) => objects.dom().contains(key) && bytes@ == objects[key].bytes,
        None => !objects.dom().contains(key),
    }
}

/// Whether a read of a range gave what is stored, or failed as it must.
pub open spec fn range_of(
    objects: Map<Seq<char>, Stored>,
    key: Seq<char>,
    offset: u64,
    len: u64,
    etag: Seq<char>,
    result: Result<Vec<u8>>,
) -> bool {
    let current = objects.dom().contains(key) && objects[key].etag == etag;
    let fits = offset + len <= usize::MAX;
    match result {
        Ok(bytes) => current && offset + len <= objects[key].bytes.len() && bytes@
            == objects[key].bytes.subrange(offset as int, offset + len),
        Err(error) => {
            if !current {
                error.says(ErrorKind::ObjectVersionChanged, key)
            } else if !fits {
                error.says(
                    ErrorKind::InvalidOptions,
                    if offset > usize::MAX {
                        "object range offset overflow"@
                    } else if len > usize::MAX {
                        "object range length overflow"@
                    } else {
                        "object range end overflow"@
                    },
                )
            } else {
                &&& offset + len > objects[key].bytes.len()
                &&& error.says(
                    ErrorKind::Corruption,
                    "object "@ + key + " short read for range "@ + text::decimal(offset as nat)
                        + ".."@ + text::decimal((offset + len) as nat),
                )
            }
        },
    }
}

/// Whether a write took effect: the object is stored under a tag that no other object has.
/// It fails only when the store has no tags left, and changes nothing then.
pub open spec fn stored_by(
    before: InMemoryObjectStore,
    after: InMemoryObjectStore,
    key: Seq<char>,
    bytes: Seq<u8>,
    result: Result<ETag>,
) -> bool {
    match result {
        Ok(etag) => {
            &&& before.minted() < u64::MAX
            &&& after.minted() == before.minted() + 1
            &&& etag@ == minted_tag(before.minted() as nat)
            &&& forall|other: Seq<char>| #[trigger]
                before.objects().dom().contains(other) ==> before.objects()[other].etag != etag@
            &&& after.objects() == before.objects().insert(key, Stored { bytes, etag: etag@ })
        },
        Err(error) => {
            &&& before.minted() == u64::MAX
            &&& after.minted() == before.minted()
            &&& after.objects() == before.objects()
            &&& error.says(
                ErrorKind::Corruption,
                "in-memory object store has no entity tags left"@,
            )
        },
    }
}

/// Whether a page request gave the page of a listing, or refused its limit.
pub open spec fn paged(
    objects: Map<Seq<char>, Stored>,
    prefix: Seq<char>,
    after: Option<Seq<char>>,
    limit: usize,
    result: Result<ObjectListPage>,
) -> bool {
    match result {
        Ok(page) => 0 < limit < usize::MAX && is_page(page, objects, prefix, after, limit),
        Err(error) => (limit == 0 || limit == usize::MAX) && error.says(
            ErrorKind::InvalidOptions,
            if limit == 0 {
                "object listing page limit must be non-zero"@
            } else {
                "object listing page limit overflow"@
            },
        ),
    }
}

/// Whether a metadata read gave what is stored.
pub open spec fn head_of(
    objects: Map<Seq<char>, Stored>,
    key: Seq<char>,
    meta: Option<ObjectMeta>,
) -> bool {
    match meta {
        Some(meta) => meta.key@ == key && describes(meta, objects),
        None => !objects.dom().contains(key),
    }
}

/// The tag an object has now.
pub open spec fn current_tag(objects: Map<Seq<char>, Stored>, key: Seq<char>) -> Option<Seq<char>> {
    if objects.dom().contains(key) {
        Some(objects[key].etag)
    } else {
        None
    }
}

/// Whether a conditional write did what it must: store exactly when the condition holds, and
/// otherwise change nothing and report the current tag.
pub open spec fn stored_if(
    before: InMemoryObjectStore,
    after: InMemoryObjectStore,
    key: Seq<char>,
    bytes: Seq<u8>,
    condition: Condition,
    result: Result<PutIf>,
) -> bool {
    if condition_holds(before.objects(), key, condition) {
        match result {
            Ok(PutIf::Stored { etag }) => stored_by(before, after, key, bytes, Ok(etag)),
            Ok(PutIf::PreconditionFailed { .. }) => false,
            Err(error) => stored_by(before, after, key, bytes, Err(error)),
        }
    } else {
        &&& after.objects() == before.objects()
        &&& after.minted() == before.minted()
        &&& result matches Ok(PutIf::PreconditionFailed { current }) && match current {
            Some(etag) => current_tag(before.objects(), key) == Some(etag@),
            None => current_tag(before.objects(), key) is None,
        }
    }
}

/// A read after a write gives back what was written, and other objects stay as they were.
pub proof fn write_is_read_back(
    before: InMemoryObjectStore,
    after: InMemoryObjectStore,
    key: Seq<char>,
    bytes: Seq<u8>,
    etag: ETag,
    other: Seq<char>,
    read: Option<Vec<u8>>,
    other_read: Option<Vec<u8>>,
)
    requires
        stored_by(before, after, key, bytes, Ok(etag)),
        read_of(after.objects(), key, read),
        other != key,
        read_of(after.objects(), other, other_read),
    ensures
        read is Some,
        read->0@ == bytes,
        current_tag(after.objects(), key) == Some(etag@),
        read_of(before.objects(), other, other_read),
{
}

/// A conditional write with a tag that has been overwritten is refused.
pub proof fn stale_tag_is_refused(
    before: InMemoryObjectStore,
    after: InMemoryObjectStore,
    key: Seq<char>,
    bytes: Seq<u8>,
    etag: ETag,
    stale: Seq<char>,
)
    requires
        stored_by(before, after, key, bytes, Ok(etag)),
        current_tag(before.objects(), key) == Some(stale),
    ensures
        !condition_holds(after.objects(), key, Condition::Tagged(stale)),
        !condition_holds(after.objects(), key, Condition::Absent),
        condition_holds(after.objects(), key, Condition::Tagged(etag@)),
{
}

/// A page and the listing that starts after it make up the whole listing, without
/// duplicates.
pub proof fn pages_make_up_listing(
    objects: Map<Seq<char>, Stored>,
    prefix: Seq<char>,
    after: Option<Seq<char>>,
    limit: usize,
    page: ObjectListPage,
    rest: Seq<ObjectMeta>,
)
    requires
        limit > 0,
        is_page(page, objects, prefix, after, limit),
        page.next_after is Some,
        is_listing(rest, objects, prefix, Some(page.next_after->0@), None),
    ensures
        is_listing(page.objects@ + rest, objects, prefix, after, None),
{
    ordered::name_order_facts();
    let last = page.next_after->0@;
    let first = page.objects@;
    let all = first + rest;
    assert(first[first.len() - 1].key@ == last);
    assert forall|i: int| 0 <= i < first.len() implies !ordered::name_lt(
        last,
        (#[trigger] first[i]).key@,
    ) by {
        assert(is_listed(first[i].key@, prefix, after, Some(last)));
    }
    assert forall|i: int| 0 <= i < rest.len() implies ordered::name_lt(
        last,
        (#[trigger] rest[i]).key@,
    ) by {
        assert(is_listed(rest[i].key@, prefix, Some(last), None));
    }
    assert forall|i: int, j: int| 0 <= i < j < all.len() implies ordered::name_lt(
        (#[trigger] all[i]).key@,
        (#[trigger] all[j]).key@,
    ) by {
        if j < first.len() {
            assert(ordered::name_lt(first[i].key@, first[j].key@));
        } else if i >= first.len() {
            assert(ordered::name_lt(rest[i - first.len()].key@, rest[j - first.len()].key@));
        } else {
            assert(!ordered::name_lt(last, first[i].key@));
            assert(ordered::name_lt(last, rest[j - first.len()].key@));
        }
    }
    assert forall|i: int| 0 <= i < all.len() implies describes(#[trigger] all[i], objects)
        && is_listed(all[i].key@, prefix, after, None) by {
        if i < first.len() {
            assert(describes(first[i], objects));
        } else {
            assert(describes(rest[i - first.len()], objects));
            assert(ordered::name_lt(last, rest[i - first.len()].key@));
            assert(is_listed(last, prefix, after, Some(last)));
        }
    }
    assert forall|key: Seq<char>| #[trigger]
        objects.dom().contains(key) && is_listed(key, prefix, after, None) implies exists|i: int|
        0 <= i < all.len() && (#[trigger] all[i]).key@ == key by {
        if ordered::name_lt(last, key) {
            assert(is_listed(key, prefix, Some(last), None));
            let i = choose|i: int| 0 <= i < rest.len() && (#[trigger] rest[i]).key@ == key;
            assert(all[first.len() + i].key@ == key);
        } else {
            assert(is_listed(key, prefix, after, Some(last)));
            let i = choose|i: int| 0 <= i < first.len() && (#[trigger] first[i]).key@ == key;
            assert(all[i].key@ == key);
        }
    }
}

/// A conditional write stores only where its condition holds: to create, only where there was no
/// object, and to replace, only where the object still had the tag. Where it is refused, nothing
/// changes, and the tag that is reported is the one that the object has.
pub proof fn conditional_writes_store_only_where_their_condition_holds(
    before: InMemoryObjectStore,
    after: InMemoryObjectStore,
    key: Seq<char>,
    bytes: Seq<u8>,
    condition: Condition,
    result: Result<PutIf>,
)
    requires
        stored_if(before, after, key, bytes, condition, result),
    ensures
        result matches Ok(PutIf::Stored { etag }) ==> {
            &&& condition is Absent ==> !before.objects().dom().contains(key)
            &&& condition matches Condition::Tagged(tag) ==> before.objects().dom().contains(key)
                && before.objects()[key].etag == tag
            &&& after.objects().dom().contains(key)
            &&& after.objects()[key].bytes == bytes
            &&& after.objects()[key].etag == etag@
        },
        result matches Ok(PutIf::PreconditionFailed { current }) ==> {
            &&& after.objects() == before.objects()
            &&& condition is Absent ==> before.objects().dom().contains(key)
            &&& condition matches Condition::Tagged(tag) ==> !before.objects().dom().contains(key)
                || before.objects()[key].etag != tag
            &&& current matches Some(tag) ==> before.objects().dom().contains(key)
                && before.objects()[key].etag == tag@
            &&& current is None ==> !before.objects().dom().contains(key)
        },
        result is Err ==> after.objects() == before.objects(),
{
}

/// Of two writers that saw the same object, or saw none, at most one replaces it: after the first
/// has, the second is refused and told the tag of the first.
pub proof fn only_one_of_two_writers_succeeds(
    before: InMemoryObjectStore,
    middle: InMemoryObjectStore,
    after: InMemoryObjectStore,
    key: Seq<char>,
    bytes: Seq<u8>,
    other: Seq<u8>,
    condition: Condition,
    first: ETag,
    second: Result<PutIf>,
)
    requires
        stored_if(before, middle, key, bytes, condition, Ok(PutIf::Stored { etag: first })),
        stored_if(middle, after, key, other, condition, second),
    ensures
        second matches Ok(PutIf::PreconditionFailed { current: Some(current) }) && current@
            == first@,
        after.objects() == middle.objects(),
        after.objects()[key].bytes == bytes,
{
}

/// Parts that are read under the current tag make up the object: two that follow each other are
/// the part from the first to the last, and the part of full length is the object.
pub proof fn parts_make_up_the_object(
    objects: Map<Seq<char>, Stored>,
    key: Seq<char>,
    etag: Seq<char>,
    offset: u64,
    first: u64,
    second: u64,
    left: Vec<u8>,
    right: Vec<u8>,
    both: Vec<u8>,
    whole: Vec<u8>,
)
    requires
        offset + first + second <= u64::MAX,
        range_of(objects, key, offset, first, etag, Ok(left)),
        range_of(objects, key, (offset + first) as u64, second, etag, Ok(right)),
        range_of(objects, key, offset, (first + second) as u64, etag, Ok(both)),
        read_of(objects, key, Some(whole)),
    ensures
        both@ == left@ + right@,
        left@.len() == first,
        right@.len() == second,
        offset == 0 && first + second == whole@.len() ==> both@ == whole@,
        offset + first + second <= whole@.len(),
{
    assert(both@ =~= left@ + right@);
    if offset == 0 && first + second == whole@.len() {
        assert(both@ =~= whole@);
    }
}

/// A part is refused under a tag that the object no longer has, and never otherwise unless it
/// reaches past the end of the object.
pub proof fn parts_are_refused_under_a_stale_tag(
    objects: Map<Seq<char>, Stored>,
    key: Seq<char>,
    offset: u64,
    len: u64,
    etag: Seq<char>,
    result: Result<Vec<u8>>,
)
    requires
        range_of(objects, key, offset, len, etag, result),
    ensures
        (result matches Err(error) && error.kind() == ErrorKind::ObjectVersionChanged) <==> (
        !objects.dom().contains(key) || objects[key].etag != etag),
        objects.dom().contains(key) && objects[key].etag == etag && offset + len
            <= objects[key].bytes.len() <= usize::MAX ==> result is Ok,
{
}

/// Metadata and bytes agree: both are found or neither, and the size is the number of bytes.
pub proof fn metadata_agrees_with_bytes(
    objects: Map<Seq<char>, Stored>,
    key: Seq<char>,
    bytes: Option<Vec<u8>>,
    meta: Option<ObjectMeta>,
)
    requires
        read_of(objects, key, bytes),
        head_of(objects, key, meta),
    ensures
        bytes is Some <==> meta is Some,
        bytes is Some ==> meta->0.size == bytes->0@.len() && meta->0.key@ == key,
        bytes is Some ==> current_tag(objects, key) == Some(meta->0.etag@),
{
}

/// A listing without a prefix has every object exactly once, and one with a prefix has nothing
/// that the listing without does not have.
pub proof fn listing_has_every_object(
    objects: Map<Seq<char>, Stored>,
    metas: Seq<ObjectMeta>,
    prefix: Seq<char>,
    some: Seq<ObjectMeta>,
    key: Seq<char>,
    i: int,
    j: int,
)
    requires
        is_listing(metas, objects, Seq::empty(), None, None),
        is_listing(some, objects, prefix, None, None),
    ensures
        objects.dom().contains(key) <==> exists|k: int|
            0 <= k < metas.len() && (#[trigger] metas[k]).key@ == key,
        0 <= i < j < metas.len() ==> metas[i].key@ != metas[j].key@,
        0 <= i < some.len() ==> exists|k: int|
            0 <= k < metas.len() && (#[trigger] metas[k]).key@ == some[i].key@ && metas[k].etag@
                == some[i].etag@,
{
    ordered::name_order_facts();
    reveal_with_fuel(vstd::utf8::encode_utf8, 2);
    assert forall|name: Seq<char>| #[trigger] name_has_prefix(name, Seq::empty()) by {
        let nothing = vstd::utf8::encode_utf8(Seq::<char>::empty());
        assert(nothing =~= Seq::<u8>::empty());
        assert(bytes_order::has_prefix(vstd::utf8::encode_utf8(name), nothing)) by {
            assert(vstd::utf8::encode_utf8(name).take(0) =~= nothing);
        }
    }
    if objects.dom().contains(key) {
        assert(is_listed(key, Seq::empty(), None, None));
    }
    if 0 <= i < some.len() {
        assert(describes(some[i], objects));
        assert(is_listed(some[i].key@, Seq::empty(), None, None));
        let k = choose|k: int| 0 <= k < metas.len() && (#[trigger] metas[k]).key@ == some[i].key@;
        assert(describes(metas[k], objects));
    }
}

proof fn joined_names_are_joined_bytes(a: Seq<char>, b: Seq<char>)
    ensures
        vstd::utf8::encode_utf8(a + b) == vstd::utf8::encode_utf8(a) + vstd::utf8::encode_utf8(b),
    decreases a.len(),
{
    if a.len() == 0 {
        assert(a + b =~= b);
        assert(vstd::utf8::encode_utf8(a) =~= Seq::<u8>::empty());
        assert(Seq::<u8>::empty() + vstd::utf8::encode_utf8(b) =~= vstd::utf8::encode_utf8(b));
    } else {
        assert((a + b).drop_first() =~= a.drop_first() + b);
        joined_names_are_joined_bytes(a.drop_first(), b);
        assert((a + b)[0] == a[0]);
        let first = vstd::utf8::encode_scalar(a[0] as u32);
        let rest = vstd::utf8::encode_utf8(a.drop_first());
        assert(first + (rest + vstd::utf8::encode_utf8(b)) =~= (first + rest)
            + vstd::utf8::encode_utf8(b));
    }
}

/// A name begins with each of its beginnings, and comes no earlier than any of them.
pub proof fn names_begin_with_their_beginnings(prefix: Seq<char>, rest: Seq<char>)
    ensures
        name_has_prefix(prefix + rest, prefix),
        !ordered::name_lt(prefix + rest, prefix),
{
    joined_names_are_joined_bytes(prefix, rest);
    let front = vstd::utf8::encode_utf8(prefix);
    let whole = vstd::utf8::encode_utf8(prefix + rest);
    assert(whole.subrange(0, front.len() as int) =~= front);
    bytes_order::prefixed_key_not_before_prefix(whole, front);
}

} // verus!
