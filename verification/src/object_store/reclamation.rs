//! Qualification of an object namespace for irreversible reclamation.
use sha2::{Digest, Sha256};
use vstd::prelude::*;
use vstd::string::*;

use crate::bytes_order::bytes_equal;
use crate::error::{Error, ErrorKind, Result};
use crate::object_store::contract;
use crate::object_store::contract::{
    detailed_fault, object_client_contract_probe_key_for_role, probe_fault,
    validate_object_list_page,
};
use crate::object_store::keys;
use crate::object_store::keys::canonical_object_key;
use crate::object_store::report;
use crate::object_store::report::{show_listing, show_optional_tag, show_page};
use crate::object_store::{
    Condition, ETag, Exchange, ObjectClient, ObjectListPage, ObjectMeta, Precondition, PutIf,
};
use crate::ordered;
use crate::text::join;

verus! {

/// Tag of a digest made with SHA-256.
pub const OBJECT_RECLAMATION_EVIDENCE_SHA256_TAG: u8 = 1;

/// The SHA-256 digest of a sequence of bytes.
pub uninterp spec fn sha256_of(bytes: Seq<u8>) -> Seq<u8>;

/// Computes a SHA-256 digest.
///
/// Calls `sha2::Sha256::digest`, whose result of 32 bytes depends on the bytes alone.
#[verifier::external_body]
fn sha256(bytes: &[u8]) -> (digest: [u8; 32])
    ensures
        digest@ == sha256_of(bytes@),
{
    Sha256::digest(bytes).into()
}

/// Digest of host-retained evidence for one object-store reclamation contract.
///
/// A tag that names the algorithm comes first, the digest after it.
#[derive(Clone, Copy, PartialEq, Eq, Hash)]
pub struct ObjectStoreReclamationEvidenceDigest {
    bytes: [u8; 33],
}

impl View for ObjectStoreReclamationEvidenceDigest {
    type V = Seq<u8>;

    closed spec fn view(&self) -> Seq<u8> {
        self.bytes@
    }
}

impl ObjectStoreReclamationEvidenceDigest {
    /// Hashes a canonical, non-secret evidence document with SHA-256.
    pub fn for_bytes(evidence: &[u8]) -> (digest: ObjectStoreReclamationEvidenceDigest)
        ensures
            digest@ == seq![OBJECT_RECLAMATION_EVIDENCE_SHA256_TAG] + sha256_of(evidence@),
    {
        let digest: [u8; 32] = sha256(evidence);
        let mut bytes: [u8; 33] = [0;33];
        bytes[0] = OBJECT_RECLAMATION_EVIDENCE_SHA256_TAG;
        let mut i: usize = 0;
        while i < 32
            invariant
                i <= 32,
                bytes@.len() == 33,
                digest@.len() == 32,
                bytes@[0] == OBJECT_RECLAMATION_EVIDENCE_SHA256_TAG,
                forall|j: int| 0 <= j < i ==> bytes@[j + 1] == #[trigger] digest@[j],
            decreases 32 - i,
        {
            bytes[i + 1] = digest[i];
            i = i + 1;
        }
        proof {
            assert forall|j: int| 1 <= j < 33 implies bytes@[j] == digest@[j - 1] by {
                assert(bytes@[(j - 1) + 1] == digest@[j - 1]);
            }
            assert(bytes@ =~= seq![OBJECT_RECLAMATION_EVIDENCE_SHA256_TAG] + digest@);
        }
        ObjectStoreReclamationEvidenceDigest { bytes }
    }

    /// Reconstructs a digest from its portable algorithm-tagged bytes.
    pub fn from_bytes(bytes: [u8; 33]) -> (result: Result<ObjectStoreReclamationEvidenceDigest>)
        ensures
            match result {
                Ok(digest) => bytes@[0] == OBJECT_RECLAMATION_EVIDENCE_SHA256_TAG && digest@
                    == bytes@,
                Err(error) => bytes@[0] != OBJECT_RECLAMATION_EVIDENCE_SHA256_TAG && error.says(
                    ErrorKind::InvalidFormat,
                    "unknown object-store reclamation evidence digest"@,
                ),
            },
    {
        if bytes[0] != OBJECT_RECLAMATION_EVIDENCE_SHA256_TAG {
            return Err(
                Error::invalid_format("unknown object-store reclamation evidence digest"),
            );
        }
        Ok(ObjectStoreReclamationEvidenceDigest { bytes })
    }

    /// Returns the portable algorithm-tagged bytes.
    pub fn to_bytes(self) -> (bytes: [u8; 33])
        ensures
            bytes@ == self@,
    {
        self.bytes
    }
}

/// Host assertion that an object namespace is eligible for a live qualification probe.
///
/// Constructing this value does not enable deletion; it records the digest of independently
/// retained evidence.
#[derive(Clone, Copy, PartialEq, Eq)]
pub struct ObjectStoreReclamationAttestation {
    evidence_digest: ObjectStoreReclamationEvidenceDigest,
}

impl View for ObjectStoreReclamationAttestation {
    type V = Seq<u8>;

    closed spec fn view(&self) -> Seq<u8> {
        self.evidence_digest@
    }
}

impl ObjectStoreReclamationAttestation {
    /// Binds independently retained provider evidence to a later live probe.
    pub fn new(evidence_digest: ObjectStoreReclamationEvidenceDigest) -> (attestation:
        ObjectStoreReclamationAttestation)
        ensures
            attestation@ == evidence_digest@,
    {
        ObjectStoreReclamationAttestation { evidence_digest }
    }

    /// Returns the digest of the external provider evidence.
    pub fn evidence_digest(self) -> (digest: ObjectStoreReclamationEvidenceDigest)
        ensures
            digest@ == self@,
    {
        self.evidence_digest
    }
}

/// Verified capability for unversioned object-store reclamation.
///
/// It is valid only for the client that ran the probe, the database prefix, and the evidence
/// digest. The client is known by the number that the host gave it.
#[derive(Clone, Copy, PartialEq, Eq)]
pub struct QualifiedObjectStoreReclamation {
    evidence_digest: ObjectStoreReclamationEvidenceDigest,
    namespace_digest: [u8; 32],
    client: u64,
}

/// The bytes whose digest stands for a namespace.
pub open spec fn namespace_bytes(prefix: Seq<char>) -> Seq<u8> {
    vstd::utf8::encode_utf8("trine-object-store-reclamation-namespace-v1"@).push(0u8)
        + vstd::utf8::encode_utf8(keys::canonical(prefix))
}

impl QualifiedObjectStoreReclamation {
    /// The evidence digest.
    pub closed spec fn evidence(&self) -> Seq<u8> {
        self.evidence_digest@
    }

    /// The digest of the namespace.
    pub closed spec fn namespace(&self) -> Seq<u8> {
        self.namespace_digest@
    }

    /// The number of the client.
    pub closed spec fn client(&self) -> u64 {
        self.client
    }

    /// Returns the provider-evidence digest bound to this qualification.
    pub fn evidence_digest(&self) -> (digest: ObjectStoreReclamationEvidenceDigest)
        ensures
            digest@ == self.evidence(),
    {
        self.evidence_digest
    }

    /// Tells whether the qualification is for this database prefix.
    pub fn matches_prefix(&self, prefix: &str) -> (matches: bool)
        ensures
            matches == (keys::is_key(prefix@) && self.namespace() == sha256_of(
                namespace_bytes(prefix@),
            )),
    {
        match object_store_reclamation_namespace_digest(prefix) {
            Ok(digest) => {
                let same: bool = bytes_equal(
                    self.namespace_digest.as_slice(),
                    digest.as_slice(),
                );
                same
            },
            Err(_) => false,
        }
    }

    /// Tells whether the qualification is for this client.
    pub fn matches_client(&self, client: u64) -> (matches: bool)
        ensures
            matches == (self.client() == client),
    {
        self.client == client
    }
}

/// Computes the digest that stands for a namespace.
pub fn object_store_reclamation_namespace_digest(prefix: &str) -> (result: Result<[u8; 32]>)
    ensures
        match result {
            Ok(digest) => keys::is_key(prefix@) && digest@ == sha256_of(namespace_bytes(prefix@)),
            Err(error) => !keys::is_key(prefix@) && keys::refuses_key(error, prefix@),
        },
{
    let key: String = match canonical_object_key(prefix) {
        Ok(key) => key,
        Err(error) => {
            return Err(error);
        },
    };
    let mut bytes: Vec<u8> = Vec::new();
    bytes.extend_from_slice("trine-object-store-reclamation-namespace-v1".as_bytes());
    bytes.push(0);
    bytes.extend_from_slice(key.as_str().as_bytes());
    assert(bytes@ =~= namespace_bytes(prefix@));
    Ok(sha256(bytes.as_slice()))
}

/// The part of a key before its last slash, or nothing.
pub open spec fn parent_of(key: Seq<char>) -> Seq<char>
    decreases key.len(),
{
    if key.len() == 0 {
        key
    } else if key.last() == '/' {
        key.drop_last()
    } else {
        parent_of(key.drop_last())
    }
}

/// Returns the part of a key before its last slash, or nothing.
pub fn parent_key(key: &str) -> (parent: &str)
    ensures
        parent@ == parent_of(key@),
{
    let mut end: usize = key.unicode_len();
    assert(key@.take(end as int) =~= key@);
    while end > 0
        invariant
            end <= key@.len(),
            parent_of(key@.take(end as int)) == parent_of(key@),
        decreases end,
    {
        assert(key@.take(end as int).drop_last() =~= key@.take(end - 1));
        if key.get_char(end - 1) == '/' {
            assert(key@.take(end - 1) =~= key@.subrange(0, end - 1));
            return key.substring_char(0, end - 1);
        }
        end = end - 1;
    }
    assert(key@.subrange(0, 0) =~= key@.take(0));
    key.substring_char(0, 0)
}

/// Whether a listing shows a key exactly once, without a provider version.
pub open spec fn lists_once(metas: Seq<ObjectMeta>, key: Seq<char>) -> bool {
    exists|i: int|
        {
            &&& 0 <= i < metas.len()
            &&& (#[trigger] metas[i]).key@ == key
            &&& metas[i].version is None
            &&& forall|j: int| 0 <= j < metas.len() && j != i ==> (#[trigger] metas[j]).key@ != key
        }
}

fn listed_once(metas: &Vec<ObjectMeta>, key: &str) -> (once: bool)
    ensures
        once == lists_once(metas@, key@),
{
    let wanted: String = key.to_owned();
    let mut found: Option<usize> = None;
    let mut i: usize = 0;
    while i < metas.len()
        invariant
            i <= metas@.len(),
            wanted@ == key@,
            match found {
                None => forall|j: int| 0 <= j < i ==> (#[trigger] metas@[j]).key@ != key@,
                Some(at) => {
                    &&& at < i
                    &&& metas@[at as int].key@ == key@
                    &&& forall|j: int|
                        0 <= j < i && j != at ==> (#[trigger] metas@[j]).key@ != key@
                },
            },
        decreases metas@.len() - i,
    {
        if metas[i].key == wanted {
            if let Some(at) = found {
                proof {
                    if lists_once(metas@, key@) {
                        assert(metas@[at as int].key@ == key@);
                        assert(metas@[i as int].key@ == key@);
                    }
                }
                return false;
            }
            found = Some(i);
        }
        i = i + 1;
    }
    match found {
        None => false,
        Some(at) => {
            let once: bool = metas[at].version.is_none();
            proof {
                if once {
                    assert(metas@[at as int].version is None);
                } else if lists_once(metas@, key@) {
                    assert(metas@[at as int].key@ == key@);
                }
            }
            once
        },
    }
}

/// Whether a listing shows a key.
pub open spec fn lists(metas: Seq<ObjectMeta>, key: Seq<char>) -> bool {
    exists|i: int| 0 <= i < metas.len() && (#[trigger] metas[i]).key@ == key
}

fn is_listed(metas: &Vec<ObjectMeta>, key: &str) -> (listed: bool)
    ensures
        listed == lists(metas@, key@),
{
    let wanted: String = key.to_owned();
    let mut i: usize = 0;
    while i < metas.len()
        invariant
            i <= metas@.len(),
            wanted@ == key@,
            forall|j: int| 0 <= j < i ==> (#[trigger] metas@[j]).key@ != key@,
        decreases metas@.len() - i,
    {
        if metas[i].key == wanted {
            return true;
        }
        i = i + 1;
    }
    false
}

/// Whether an exchange is a listing of a prefix.
pub open spec fn is_list(exchange: Exchange, prefix: Seq<char>) -> bool {
    exchange matches Exchange::List { prefix: asked, .. } && asked == prefix
}

/// Whether an exchange is the `step`th request of a look at a stored object.
pub open spec fn look_asks(
    exchange: Exchange,
    key: Seq<char>,
    bytes: Seq<u8>,
    etag: Seq<char>,
    step: int,
) -> bool {
    if step == 0 {
        contract::is_head(exchange, key)
    } else if step == 1 {
        contract::is_get(exchange, key)
    } else if step == 2 {
        exchange matches Exchange::GetRange { key: asked, offset, len, etag: stated, .. } && asked
            == key && offset == 0 && len == bytes.len() && stated == etag
    } else if step == 3 {
        is_list(exchange, parent_of(key))
    } else {
        exchange matches Exchange::ListPage { prefix: asked, after, limit, .. } && asked == key
            && after is None && limit == 1
    }
}

/// Whether the reply to that request shows the object, and no provider version of it.
pub open spec fn look_passes(
    exchange: Exchange,
    key: Seq<char>,
    bytes: Seq<u8>,
    etag: Seq<char>,
    step: int,
) -> bool {
    &&& look_asks(exchange, key, bytes, etag, step)
    &&& if step == 0 {
        contract::head_shows(exchange, key, bytes.len() as int, etag) && (exchange matches
            Exchange::Head { reply: Ok(Some(meta)), .. } && meta.version is None)
    } else if step == 1 {
        contract::get_shows(exchange, key, bytes)
    } else if step == 2 {
        exchange matches Exchange::GetRange { reply: Ok(read), .. } && read@ == bytes
    } else if step == 3 {
        exchange matches Exchange::List { reply: Ok(metas), .. } && lists_once(metas@, key)
    } else {
        exchange matches Exchange::ListPage { reply: Ok(page), .. } && contract::page_is_sound(
            page,
            key,
            None,
            1,
        ) && page.objects@.len() == 1 && page.objects@[0].key@ == key
    }
}

/// How reports of a reclamation check begin.
pub open spec fn reclamation_probe(key: Seq<char>) -> Seq<char> {
    "object reclamation probe for "@ + key
}

/// The report of a reply to the `step`th request of a look, made after an operation, that does
/// not pass.
pub open spec fn look_fault(
    exchange: Exchange,
    key: Seq<char>,
    operation: Seq<char>,
    step: int,
) -> Seq<char> {
    if step == 0 {
        match exchange {
            Exchange::Head { reply: Ok(Some(meta)), .. } => match meta.version {
                Some(version) => reclamation_probe(key) + " observed provider version "@ + version@
                    + " after "@ + operation,
                None => reclamation_probe(key) + " observed stale metadata after "@ + operation,
            },
            _ => reclamation_probe(key) + " lost head after "@ + operation,
        }
    } else if step == 1 {
        if exchange matches Exchange::Get { reply: Ok(None), .. } {
            reclamation_probe(key) + " lost bytes after "@ + operation
        } else {
            reclamation_probe(key) + " observed stale bytes after "@ + operation
        }
    } else if step == 2 {
        contract::contract_probe(key) + " observed stale range bytes after "@ + operation
    } else if step == 3 {
        reclamation_probe(key) + " observed inconsistent listing after "@ + operation + ": "@
            + report::listing_shown(exchange->List_reply->Ok_0@)
    } else {
        let page = exchange->ListPage_reply->Ok_0;
        match contract::page_fault(page, key, None, 1) {
            Some(fault) => fault,
            None => contract::contract_probe(key) + " observed inconsistent bounded listing after "@
                + operation + ": "@ + report::page_shown(page),
        }
    }
}

/// What a look at a stored object did and found: its requests in order, each after a reply
/// that passes, and success exactly when all passed.
pub open spec fn looked(
    before: Seq<Exchange>,
    after: Seq<Exchange>,
    key: Seq<char>,
    bytes: Seq<u8>,
    etag: Seq<char>,
    operation: Seq<char>,
    result: Result<()>,
) -> bool {
    let from = before.len() as int;
    let last = after.len() - from - 1;
    &&& contract::asked_since(before, after, 5)
    &&& forall|step: int|
        0 <= step < last ==> look_passes(#[trigger] after[from + step], key, bytes, etag, step)
    &&& look_asks(after[from + last], key, bytes, etag, last)
    &&& match result {
        Ok(()) => last == 4 && look_passes(after[from + last], key, bytes, etag, last),
        Err(error) => !look_passes(after[from + last], key, bytes, etag, last)
            && contract::fails_with(
            after.last(),
            error,
            look_fault(after.last(), key, operation, last),
        ),
    }
}

fn verify_unversioned_object<C: ObjectClient>(
    client: &mut C,
    key: &str,
    expected: &[u8],
    expected_etag: &ETag,
    operation: &str,
) -> (result: Result<()>)
    ensures
        looked(
            old(client).history(),
            final(client).history(),
            key@,
            expected@,
            expected_etag@,
            operation@,
            result,
        ),
{
    let head: ObjectMeta = match client.head(key) {
        Err(error) => {
            return Err(error);
        },
        Ok(None) => {
            return Err(detailed_fault(
                    "object reclamation probe for ",
                    key,
                    " lost head after ",
                    operation,
                ));
        },
        Ok(Some(head)) => head,
    };
    if let Some(version) = &head.version {
        let message: String = join("object reclamation probe for ", key);
        let message: String = join(message.as_str(), " observed provider version ");
        let message: String = join(message.as_str(), version.as_str());
        let message: String = join(message.as_str(), " after ");
        return Err(Error::Corruption { message: join(message.as_str(), operation) });
    }
    if !head.etag.same(expected_etag) || head.size != expected.len() as u64 {
        return Err(detailed_fault(
                    "object reclamation probe for ",
                    key,
                    " observed stale metadata after ",
                    operation,
                ));
    }
    let bytes: Vec<u8> = match client.get(key) {
        Err(error) => {
            return Err(error);
        },
        Ok(None) => {
            return Err(detailed_fault(
                    "object reclamation probe for ",
                    key,
                    " lost bytes after ",
                    operation,
                ));
        },
        Ok(Some(bytes)) => bytes,
    };
    if !bytes_equal(bytes.as_slice(), expected) {
        return Err(detailed_fault(
                    "object reclamation probe for ",
                    key,
                    " observed stale bytes after ",
                    operation,
                ));
    }
    let ranged: Vec<u8> = match client.get_range(key, 0, expected.len() as u64, expected_etag) {
        Err(error) => {
            return Err(error);
        },
        Ok(ranged) => ranged,
    };
    if !bytes_equal(ranged.as_slice(), expected) {
        return Err(
            detailed_fault(
                "object client contract probe for ",
                key,
                " observed stale range bytes after ",
                operation,
            ),
        );
    }
    let listed: Vec<ObjectMeta> = match client.list(parent_key(key)) {
        Err(error) => {
            return Err(error);
        },
        Ok(listed) => listed,
    };
    if !listed_once(&listed, key) {
        let message: String = join("object reclamation probe for ", key);
        let message: String = join(message.as_str(), " observed inconsistent listing after ");
        let message: String = join(message.as_str(), operation);
        let message: String = join(message.as_str(), ": ");
        return Err(
            Error::Corruption { message: join(message.as_str(), show_listing(&listed).as_str()) },
        );
    }
    let page: ObjectListPage = match client.list_page(key, None, 1) {
        Err(error) => {
            return Err(error);
        },
        Ok(page) => page,
    };
    proof {
        contract::faultless_page_is_sound(page, key@, None, 1);
    }
    if let Err(error) = validate_object_list_page(key, None, 1, &page) {
        return Err(error);
    }
    if page.objects.len() != 1 || page.objects[0].key != key.to_owned() {
        let message: String = join("object client contract probe for ", key);
        let message: String = join(
            message.as_str(),
            " observed inconsistent bounded listing after ",
        );
        let message: String = join(message.as_str(), operation);
        let message: String = join(message.as_str(), ": ");
        return Err(
            Error::Corruption { message: join(message.as_str(), show_page(&page).as_str()) },
        );
    }
    Ok(())
}

/// Whether an exchange is the `step`th request of a look for a deleted object.
pub open spec fn absence_asks(exchange: Exchange, key: Seq<char>, step: int) -> bool {
    if step == 0 {
        contract::is_head(exchange, key)
    } else if step == 1 {
        contract::is_get(exchange, key)
    } else {
        is_list(exchange, parent_of(key))
    }
}

/// Whether the reply to that request shows nothing of the object.
pub open spec fn absence_passes(exchange: Exchange, key: Seq<char>, step: int) -> bool {
    &&& absence_asks(exchange, key, step)
    &&& if step == 0 {
        exchange matches Exchange::Head { reply: Ok(None), .. }
    } else if step == 1 {
        exchange matches Exchange::Get { reply: Ok(None), .. }
    } else {
        exchange matches Exchange::List { reply: Ok(metas), .. } && !lists(metas@, key)
    }
}

/// The report of a reply that still shows something of the object.
pub open spec fn absence_fault(key: Seq<char>) -> Seq<char> {
    reclamation_probe(key) + " remained observable after delete"@
}

/// What a look for a deleted object did and found.
pub open spec fn found_absent(
    before: Seq<Exchange>,
    after: Seq<Exchange>,
    key: Seq<char>,
    result: Result<()>,
) -> bool {
    let from = before.len() as int;
    let last = after.len() - from - 1;
    &&& contract::asked_since(before, after, 3)
    &&& forall|step: int|
        0 <= step < last ==> absence_passes(#[trigger] after[from + step], key, step)
    &&& absence_asks(after[from + last], key, last)
    &&& match result {
        Ok(()) => last == 2 && absence_passes(after[from + last], key, last),
        Err(error) => !absence_passes(after[from + last], key, last) && contract::fails_with(
            after.last(),
            error,
            absence_fault(key),
        ),
    }
}

/// Requires that nothing of a deleted object can be observed.
pub fn verify_object_store_reclamation_absent<C: ObjectClient>(client: &mut C, key: &str) -> (result:
    Result<()>)
    ensures
        found_absent(old(client).history(), final(client).history(), key@, result),
{
    match client.head(key) {
        Err(error) => {
            return Err(error);
        },
        Ok(Some(_)) => {
            return Err(
                probe_fault(
                    "object reclamation probe for ",
                    key,
                    " remained observable after delete",
                ),
            );
        },
        Ok(None) => {},
    }
    match client.get(key) {
        Err(error) => {
            return Err(error);
        },
        Ok(Some(_)) => {
            return Err(
                probe_fault(
                    "object reclamation probe for ",
                    key,
                    " remained observable after delete",
                ),
            );
        },
        Ok(None) => {},
    }
    let listed: Vec<ObjectMeta> = match client.list(parent_key(key)) {
        Err(error) => {
            return Err(error);
        },
        Ok(listed) => listed,
    };
    if is_listed(&listed, key) {
        return Err(
            probe_fault("object reclamation probe for ", key, " remained observable after delete"),
        );
    }
    Ok(())
}

/// The first bytes that the reclamation check writes.
pub open spec fn reclamation_first() -> Seq<u8> {
    vstd::utf8::encode_utf8("trine-object-reclamation:first"@)
}

/// The bytes that the reclamation check overwrites them with.
pub open spec fn reclamation_second() -> Seq<u8> {
    vstd::utf8::encode_utf8("trine-object-reclamation:second"@)
}

/// Whether the `step`th exchange of a reclamation check, which started at `from`, is the
/// request that the check makes there.
pub open spec fn reclamation_asks(
    history: Seq<Exchange>,
    from: int,
    key: Seq<char>,
    step: int,
) -> bool {
    let exchange = history[from + step];
    let first = contract::written_tag(history[from])->0;
    let second = contract::written_tag(history[from + 6])->0;
    if step == 0 {
        contract::is_put_if(exchange, key, reclamation_first(), Condition::Absent)
    } else if step < 6 {
        look_asks(exchange, key, reclamation_first(), first, step - 1)
    } else if step == 6 {
        contract::is_put_if(exchange, key, reclamation_second(), Condition::Tagged(first))
    } else if step < 12 {
        look_asks(exchange, key, reclamation_second(), second, step - 7)
    } else if step == 12 || step == 16 {
        contract::is_delete(exchange, key)
    } else if step < 16 {
        absence_asks(exchange, key, step - 13)
    } else {
        absence_asks(exchange, key, step - 17)
    }
}

/// Whether the reply to that request is the one that an unversioned store with observable
/// deletes gives.
pub open spec fn reclamation_passes(
    history: Seq<Exchange>,
    from: int,
    key: Seq<char>,
    step: int,
) -> bool {
    let exchange = history[from + step];
    let first = contract::written_tag(history[from])->0;
    let second = contract::written_tag(history[from + 6])->0;
    &&& reclamation_asks(history, from, key, step)
    &&& if step == 0 {
        contract::written_tag(exchange) is Some
    } else if step < 6 {
        look_passes(exchange, key, reclamation_first(), first, step - 1)
    } else if step == 6 {
        contract::written_tag(exchange) is Some && second != first
    } else if step < 12 {
        look_passes(exchange, key, reclamation_second(), second, step - 7)
    } else if step == 12 || step == 16 {
        contract::deleted(exchange, key)
    } else if step < 16 {
        absence_passes(exchange, key, step - 13)
    } else {
        absence_passes(exchange, key, step - 17)
    }
}

/// The report of a reply to the `step`th request of a reclamation check that does not pass.
pub open spec fn reclamation_fault(exchange: Exchange, key: Seq<char>, step: int) -> Seq<char> {
    if step == 0 {
        "object reclamation probe key "@ + key + " unexpectedly exists"@
    } else if step < 6 {
        look_fault(exchange, key, "create"@, step - 1)
    } else if step == 6 {
        match exchange {
            Exchange::PutIf { reply: Ok(PutIf::PreconditionFailed { current }), .. } => {
                reclamation_probe(key) + " lost its overwrite fence: "@
                    + report::optional_tag_shown(current)
            },
            _ => reclamation_probe(key) + " reused an ETag after overwrite"@,
        }
    } else if step < 12 {
        look_fault(exchange, key, "overwrite"@, step - 7)
    } else {
        absence_fault(key)
    }
}

/// What a reclamation check on one key did and found.
///
/// It creates the object, looks at it, overwrites it by compare-and-swap, looks again, deletes
/// it, requires its absence, deletes it once more, and requires its absence again. It goes on
/// only after a reply that passes, and succeeds exactly when every reply passed.
pub open spec fn reclamation_checked(
    before: Seq<Exchange>,
    after: Seq<Exchange>,
    key: Seq<char>,
    result: Result<()>,
) -> bool {
    let from = before.len() as int;
    let last = after.len() - from - 1;
    &&& contract::asked_since(before, after, 20)
    &&& forall|step: int|
        0 <= step < last ==> #[trigger] reclamation_passes(after, from, key, step)
    &&& reclamation_asks(after, from, key, last)
    &&& match result {
        Ok(()) => last == 19 && reclamation_passes(after, from, key, last),
        Err(error) => !reclamation_passes(after, from, key, last) && contract::fails_with(
            after.last(),
            error,
            reclamation_fault(after.last(), key, last),
        ),
    }
}

/// Steps that passed stay passed when the client is asked more.
proof fn reclamation_prefix(
    before: Seq<Exchange>,
    after: Seq<Exchange>,
    from: int,
    key: Seq<char>,
    steps: int,
)
    requires
        0 <= from,
        1 <= steps,
        before.len() == from + steps,
        contract::asked_since(before, after, 20),
        forall|step: int|
            0 <= step < steps ==> #[trigger] reclamation_passes(before, from, key, step),
    ensures
        forall|step: int|
            0 <= step < steps ==> #[trigger] reclamation_passes(after, from, key, step),
{
    assert forall|step: int| 0 <= step < steps implies #[trigger] reclamation_passes(
        after,
        from,
        key,
        step,
    ) by {
        assert(reclamation_passes(before, from, key, step));
        assert(after[from + step] == before[from + step]);
        assert(after[from] == before[from]);
        if step >= 6 {
            assert(after[from + 6] == before[from + 6]);
        }
    }
}

/// The requests of a look are requests of the check that it is part of.
proof fn look_is_part(
    before: Seq<Exchange>,
    after: Seq<Exchange>,
    from: int,
    key: Seq<char>,
    steps: int,
    bytes: Seq<u8>,
    etag: Seq<char>,
    operation: Seq<char>,
    result: Result<()>,
)
    requires
        0 <= from,
        steps == 1 || steps == 7,
        before.len() == from + steps,
        forall|step: int|
            0 <= step < steps ==> #[trigger] reclamation_passes(before, from, key, step),
        bytes == if steps == 1 {
            reclamation_first()
        } else {
            reclamation_second()
        },
        etag == contract::written_tag(before[before.len() - 1])->0,
        looked(before, after, key, bytes, etag, operation, result),
    ensures
        forall|step: int|
            0 <= step < after.len() - from - 1 ==> #[trigger] reclamation_passes(
                after,
                from,
                key,
                step,
            ),
        reclamation_asks(after, from, key, after.len() - from - 1),
        reclamation_passes(after, from, key, after.len() - from - 1) == (result is Ok),
        result is Ok ==> after.len() == before.len() + 5,
{
    reclamation_prefix(before, after, from, key, steps);
    let last = after.len() - before.len() - 1;
    assert(after[from] == before[from]);
    assert(after[from + steps - 1] == before[from + steps - 1]);
    assert forall|step: int| 0 <= step < after.len() - from - 1 implies #[trigger] reclamation_passes(
        after,
        from,
        key,
        step,
    ) by {
        if step >= steps {
            assert(look_passes(after[before.len() + (step - steps)], key, bytes, etag, step - steps));
        }
    }
}

/// The requests of a look for absence are requests of the check that it is part of.
proof fn absence_is_part(
    before: Seq<Exchange>,
    after: Seq<Exchange>,
    from: int,
    key: Seq<char>,
    steps: int,
    result: Result<()>,
)
    requires
        0 <= from,
        steps == 13 || steps == 17,
        before.len() == from + steps,
        forall|step: int|
            0 <= step < steps ==> #[trigger] reclamation_passes(before, from, key, step),
        found_absent(before, after, key, result),
    ensures
        forall|step: int|
            0 <= step < after.len() - from - 1 ==> #[trigger] reclamation_passes(
                after,
                from,
                key,
                step,
            ),
        reclamation_asks(after, from, key, after.len() - from - 1),
        reclamation_passes(after, from, key, after.len() - from - 1) == (result is Ok),
        result is Ok ==> after.len() == before.len() + 3,
{
    reclamation_prefix(before, after, from, key, steps);
    assert forall|step: int| 0 <= step < after.len() - from - 1 implies #[trigger] reclamation_passes(
        after,
        from,
        key,
        step,
    ) by {
        if step >= steps {
            assert(absence_passes(after[before.len() + (step - steps)], key, step - steps));
        }
    }
}

/// Checks on one key that a client does not keep versions and that its deletes can be
/// observed.
pub fn verify_object_store_reclamation_at_key<C: ObjectClient>(client: &mut C, key: &str) -> (result:
    Result<()>)
    ensures
        reclamation_checked(old(client).history(), final(client).history(), key@, result),
{
    let ghost before = client.history();
    let ghost from = before.len() as int;
    let first: &[u8] = "trine-object-reclamation:first".as_bytes();
    let second: &[u8] = "trine-object-reclamation:second".as_bytes();
    let first_etag: ETag = match client.put_if(key, first, Precondition::IfNoneMatch) {
        Err(error) => {
            return Err(error);
        },
        Ok(PutIf::PreconditionFailed { .. }) => {
            return Err(
                probe_fault("object reclamation probe key ", key, " unexpectedly exists"),
            );
        },
        Ok(PutIf::Stored { etag }) => etag,
    };
    assert(reclamation_passes(client.history(), from, key@, 0));
    let ghost middle = client.history();
    let seen: Result<()> = verify_unversioned_object(
        client,
        key,
        first,
        &first_etag,
        "create",
    );
    proof {
        look_is_part(
            middle,
            client.history(),
            from,
            key@,
            1,
            first@,
            first_etag@,
            "create"@,
            seen,
        );
    }
    if let Err(error) = seen {
        return Err(error);
    }
    let ghost middle = client.history();
    let swapped: Result<PutIf> = client.put_if(
        key,
        second,
        Precondition::IfMatch(first_etag.clone()),
    );
    proof {
        reclamation_prefix(middle, client.history(), from, key@, 6);
        assert(client.history()[from] == middle[from]);
    }
    let second_etag: ETag = match swapped {
        Err(error) => {
            return Err(error);
        },
        Ok(PutIf::PreconditionFailed { current }) => {
            return Err(
                detailed_fault(
                    "object reclamation probe for ",
                    key,
                    " lost its overwrite fence: ",
                    show_optional_tag(&current).as_str(),
                ),
            );
        },
        Ok(PutIf::Stored { etag }) => etag,
    };
    if second_etag.same(&first_etag) {
        return Err(
            probe_fault("object reclamation probe for ", key, " reused an ETag after overwrite"),
        );
    }
    assert(reclamation_passes(client.history(), from, key@, 6));
    let ghost middle = client.history();
    let seen: Result<()> = verify_unversioned_object(
        client,
        key,
        second,
        &second_etag,
        "overwrite",
    );
    proof {
        look_is_part(
            middle,
            client.history(),
            from,
            key@,
            7,
            second@,
            second_etag@,
            "overwrite"@,
            seen,
        );
    }
    if let Err(error) = seen {
        return Err(error);
    }
    let ghost middle = client.history();
    let removed: Result<()> = client.delete(key);
    proof {
        reclamation_prefix(middle, client.history(), from, key@, 12);
    }
    if let Err(error) = removed {
        return Err(error);
    }
    assert(reclamation_passes(client.history(), from, key@, 12));
    let ghost middle = client.history();
    let gone: Result<()> = verify_object_store_reclamation_absent(client, key);
    proof {
        absence_is_part(middle, client.history(), from, key@, 13, gone);
    }
    if let Err(error) = gone {
        return Err(error);
    }
    let ghost middle = client.history();
    let removed: Result<()> = client.delete(key);
    proof {
        reclamation_prefix(middle, client.history(), from, key@, 16);
    }
    if let Err(error) = removed {
        return Err(error);
    }
    assert(reclamation_passes(client.history(), from, key@, 16));
    let ghost middle = client.history();
    let gone: Result<()> = verify_object_store_reclamation_absent(client, key);
    proof {
        absence_is_part(middle, client.history(), from, key@, 17, gone);
    }
    gone
}

/// The path of the temporary object in the chunk family of a namespace.
pub open spec fn chunk_probe_path(prefix: Seq<char>, stamp: (u64, u64)) -> Seq<char> {
    contract::probe_path(
        keys::canonical(prefix) + "/content-v1/chunks"@,
        "reclamation-chunk"@,
        stamp.0,
        stamp.1,
    )
}

/// The path of the temporary object in the descriptor family of a namespace.
pub open spec fn descriptor_probe_path(prefix: Seq<char>, stamp: (u64, u64)) -> Seq<char> {
    contract::probe_path(
        keys::canonical(prefix) + "/content-v1/domains"@,
        "reclamation-descriptor"@,
        stamp.0,
        stamp.1,
    )
}

/// Whether a reclamation check failed and its object was deleted after it.
pub open spec fn reclamation_refused(
    before: Seq<Exchange>,
    after: Seq<Exchange>,
    key: Seq<char>,
    error: Error,
) -> bool {
    &&& after.len() > before.len() + 1
    &&& reclamation_checked(before, after.drop_last(), key, Err(error))
    &&& contract::is_delete(after.last(), key)
}

/// Runs a reclamation check on one key and deletes its object if the check fails.
fn check_family<C: ObjectClient>(client: &mut C, key: &str) -> (result: Result<()>)
    ensures
        match result {
            Ok(()) => reclamation_checked(
                old(client).history(),
                final(client).history(),
                key@,
                Ok(()),
            ),
            Err(error) => reclamation_refused(
                old(client).history(),
                final(client).history(),
                key@,
                error,
            ),
        },
{
    match verify_object_store_reclamation_at_key(client, key) {
        Ok(()) => Ok(()),
        Err(error) => {
            let ghost middle = client.history();
            let _ = client.delete(key);
            assert(client.history().drop_last() =~= middle);
            Err(error)
        },
    }
}

/// What a qualification did and found.
pub open spec fn qualification(
    before: Seq<Exchange>,
    after: Seq<Exchange>,
    number: u64,
    prefix: Seq<char>,
    evidence: Seq<u8>,
    chunk: (u64, u64),
    descriptor: (u64, u64),
    result: Result<QualifiedObjectStoreReclamation>,
) -> bool {
    let middle = after.take(before.len() as int + 20);
    let chunk_path = chunk_probe_path(prefix, chunk);
    let descriptor_path = descriptor_probe_path(prefix, descriptor);
    let chunk_passed = before.len() + 20 <= after.len() && reclamation_checked(
        before,
        middle,
        keys::canonical(chunk_path),
        Ok(()),
    );
    match result {
        Ok(qualified) => {
            &&& keys::is_key(prefix) && keys::is_key(chunk_path) && keys::is_key(descriptor_path)
            &&& chunk_passed
            &&& reclamation_checked(middle, after, keys::canonical(descriptor_path), Ok(()))
            &&& qualified.evidence() == evidence
            &&& qualified.client() == number
            &&& qualified.namespace() == sha256_of(namespace_bytes(prefix))
        },
        Err(error) => {
            if !keys::is_key(prefix) {
                after == before && keys::refuses_key(error, prefix)
            } else if !keys::is_key(chunk_path) {
                after == before && keys::refuses_key(error, chunk_path)
            } else if chunk_passed {
                if !keys::is_key(descriptor_path) {
                    after == middle && keys::refuses_key(error, descriptor_path)
                } else {
                    reclamation_refused(middle, after, keys::canonical(descriptor_path), error)
                }
            } else {
                reclamation_refused(before, after, keys::canonical(chunk_path), error)
            }
        },
    }
}

/// Qualifies one exact object-store namespace for irreversible content-byte reclamation.
///
/// The live probe creates temporary objects in both content-deletion path families. Only when
/// no reply reports a provider version and every delete is observed at once does it return a
/// capability. `number` is the host's number of the client, and the stamps make the names of
/// the two objects unique.
pub fn qualify_object_store_reclamation<C: ObjectClient>(
    client: &mut C,
    number: u64,
    prefix: &str,
    attestation: ObjectStoreReclamationAttestation,
    chunk: (u64, u64),
    descriptor: (u64, u64),
) -> (result: Result<QualifiedObjectStoreReclamation>)
    ensures
        qualification(
            old(client).history(),
            final(client).history(),
            number,
            prefix@,
            attestation@,
            chunk,
            descriptor,
            result,
        ),
{
    let ghost before = client.history();
    let canonical: String = match canonical_object_key(prefix) {
        Ok(canonical) => canonical,
        Err(error) => {
            return Err(error);
        },
    };
    let root: String = join(canonical.as_str(), "/content-v1/chunks");
    let key: String = match object_client_contract_probe_key_for_role(
        root.as_str(),
        "reclamation-chunk",
        chunk.0,
        chunk.1,
    ) {
        Ok(key) => key,
        Err(error) => {
            return Err(error);
        },
    };
    let checked: Result<()> = check_family(client, key.as_str());
    let ghost middle = client.history();
    proof {
        if checked is Ok {
            assert(middle.take(before.len() as int + 20) =~= middle);
        } else {
            check_has_one_result(
                before,
                middle,
                key@,
                checked->Err_0,
            );
        }
    }
    if let Err(error) = checked {
        return Err(error);
    }
    let root: String = join(canonical.as_str(), "/content-v1/domains");
    let key: String = match object_client_contract_probe_key_for_role(
        root.as_str(),
        "reclamation-descriptor",
        descriptor.0,
        descriptor.1,
    ) {
        Ok(key) => key,
        Err(error) => {
            return Err(error);
        },
    };
    let checked: Result<()> = check_family(client, key.as_str());
    proof {
        assert(client.history().take(before.len() as int + 20) =~= middle);
    }
    if let Err(error) = checked {
        return Err(error);
    }
    proof {
        keys::canonical_key_is_canonical(prefix@);
    }
    match object_store_reclamation_namespace_digest(canonical.as_str()) {
        Ok(namespace_digest) => Ok(
            QualifiedObjectStoreReclamation {
                evidence_digest: attestation.evidence_digest(),
                namespace_digest,
                client: number,
            },
        ),
        Err(error) => Err(error),
    }
}

/// A check that failed did not pass in any longer history either.
proof fn check_has_one_result(
    before: Seq<Exchange>,
    after: Seq<Exchange>,
    key: Seq<char>,
    error: Error,
)
    requires
        reclamation_refused(before, after, key, error),
    ensures
        before.len() + 20 <= after.len() ==> !reclamation_checked(
            before,
            after.take(before.len() as int + 20),
            key,
            Ok(()),
        ),
{
    let from = before.len() as int;
    let failed = after.drop_last();
    let last = failed.len() - from - 1;
    if before.len() + 20 <= after.len() && reclamation_checked(
        before,
        after.take(from + 20),
        key,
        Ok(()),
    ) {
        let passed = after.take(from + 20);
        assert(0 <= last <= 19);
        assert(reclamation_passes(passed, from, key, last));
        assert(failed[from + last] == passed[from + last]);
        assert(failed[from] == passed[from]);
        if last >= 6 {
            assert(failed[from + 6] == passed[from + 6]);
        }
        assert(reclamation_passes(failed, from, key, last));
    }
}

/// A qualification holds for its own prefix and client.
pub proof fn qualification_is_for_its_namespace(
    before: Seq<Exchange>,
    after: Seq<Exchange>,
    number: u64,
    prefix: Seq<char>,
    evidence: Seq<u8>,
    chunk: (u64, u64),
    descriptor: (u64, u64),
    qualified: QualifiedObjectStoreReclamation,
    spelling: Seq<char>,
)
    requires
        qualification(before, after, number, prefix, evidence, chunk, descriptor, Ok(qualified)),
        keys::canonical(spelling) == keys::canonical(prefix),
    ensures
        qualified.namespace() == sha256_of(namespace_bytes(spelling)),
        qualified.client() == number,
        qualified.evidence() == evidence,
{
}

/// Another canonical prefix stands for other bytes, so a qualification that also matches it
/// shows two inputs with one SHA-256 digest.
pub proof fn another_prefix_matches_only_by_collision(
    before: Seq<Exchange>,
    after: Seq<Exchange>,
    number: u64,
    prefix: Seq<char>,
    evidence: Seq<u8>,
    chunk: (u64, u64),
    descriptor: (u64, u64),
    qualified: QualifiedObjectStoreReclamation,
    other: Seq<char>,
)
    requires
        qualification(before, after, number, prefix, evidence, chunk, descriptor, Ok(qualified)),
        keys::canonical(other) != keys::canonical(prefix),
    ensures
        namespace_bytes(other) != namespace_bytes(prefix),
        qualified.namespace() == sha256_of(namespace_bytes(other)) ==> sha256_of(
            namespace_bytes(other),
        ) == sha256_of(namespace_bytes(prefix)),
{
    let label = vstd::utf8::encode_utf8("trine-object-store-reclamation-namespace-v1"@).push(0u8);
    let ours = vstd::utf8::encode_utf8(keys::canonical(prefix));
    let theirs = vstd::utf8::encode_utf8(keys::canonical(other));
    if namespace_bytes(other) == namespace_bytes(prefix) {
        assert(ours =~= (label + ours).skip(label.len() as int));
        assert(theirs =~= (label + theirs).skip(label.len() as int));
        ordered::names_by_bytes(keys::canonical(prefix), keys::canonical(other));
    }
}

} // verus!
