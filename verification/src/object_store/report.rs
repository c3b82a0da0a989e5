//! How tags, listings and errors read in a report.
use vstd::prelude::*;

use crate::error::Error;
use crate::object_store::{ETag, ObjectListPage, ObjectMeta, ObjectVersion};
use crate::text;
use crate::text::{join, push_decimal, quoted};

verus! {

/// How a tag reads.
pub open spec fn tag_shown(tag: Seq<char>) -> Seq<char> {
    "ETag("@ + text::quoted_text(tag) + ")"@
}

fn show_tag(tag: &ETag) -> (shown: String)
    ensures
        shown@ == tag_shown(tag@),
{
    let shown: String = join("ETag(", quoted(tag.as_str()).as_str());
    join(shown.as_str(), ")")
}

fn show_some(shown: &str) -> (wrapped: String)
    ensures
        wrapped@ == "Some("@ + shown@ + ")"@,
{
    let wrapped: String = join("Some(", shown);
    join(wrapped.as_str(), ")")
}

/// How a tag that may be missing reads.
pub open spec fn optional_tag_shown(tag: Option<ETag>) -> Seq<char> {
    match tag {
        Some(tag) => "Some("@ + tag_shown(tag@) + ")"@,
        None => "None"@,
    }
}

/// Renders a tag that may be missing.
pub fn show_optional_tag(tag: &Option<ETag>) -> (shown: String)
    ensures
        shown@ == optional_tag_shown(*tag),
{
    match tag {
        Some(tag) => show_some(show_tag(tag).as_str()),
        None => "None".to_owned(),
    }
}

/// How a text that may be missing reads.
pub open spec fn optional_text_shown(found: Option<Seq<char>>) -> Seq<char> {
    match found {
        Some(found) => "Some("@ + text::quoted_text(found) + ")"@,
        None => "None"@,
    }
}

/// Renders a text that is there.
pub fn show_some_text(found: &str) -> (shown: String)
    ensures
        shown@ == optional_text_shown(Some(found@)),
{
    show_some(quoted(found).as_str())
}

/// How a provider version that may be missing reads.
pub open spec fn optional_version_shown(version: Option<ObjectVersion>) -> Seq<char> {
    match version {
        Some(version) => "Some("@ + ("ObjectVersion("@ + text::quoted_text(version@) + ")"@) + ")"@,
        None => "None"@,
    }
}

fn show_optional_version(version: &Option<ObjectVersion>) -> (shown: String)
    ensures
        shown@ == optional_version_shown(*version),
{
    match version {
        Some(version) => {
            let shown: String = join("ObjectVersion(", quoted(version.as_str()).as_str());
            let shown: String = join(shown.as_str(), ")");
            show_some(shown.as_str())
        },
        None => "None".to_owned(),
    }
}

/// How the metadata of an object reads.
pub open spec fn meta_shown(meta: ObjectMeta) -> Seq<char> {
    "ObjectMeta { key: "@ + text::quoted_text(meta.key@) + ", size: "@ + text::decimal(
        meta.size as nat,
    ) + ", etag: "@ + tag_shown(meta.etag@) + ", version: "@ + optional_version_shown(meta.version)
        + " }"@
}

fn show_meta(meta: &ObjectMeta) -> (shown: String)
    ensures
        shown@ == meta_shown(*meta),
{
    let mut shown: String = join("ObjectMeta { key: ", quoted(meta.key.as_str()).as_str());
    shown.append(", size: ");
    push_decimal(&mut shown, meta.size);
    shown.append(", etag: ");
    shown.append(show_tag(&meta.etag).as_str());
    shown.append(", version: ");
    shown.append(show_optional_version(&meta.version).as_str());
    shown.append(" }");
    shown
}

/// How the entries of a listing read, one after the other.
pub open spec fn entries_shown(metas: Seq<ObjectMeta>) -> Seq<char>
    decreases metas.len(),
{
    if metas.len() == 0 {
        Seq::empty()
    } else if metas.len() == 1 {
        meta_shown(metas[0])
    } else {
        entries_shown(metas.drop_last()) + ", "@ + meta_shown(metas.last())
    }
}

/// How a listing reads.
pub open spec fn listing_shown(metas: Seq<ObjectMeta>) -> Seq<char> {
    "["@ + entries_shown(metas) + "]"@
}

/// Renders a listing.
pub fn show_listing(metas: &Vec<ObjectMeta>) -> (shown: String)
    ensures
        shown@ == listing_shown(metas@),
{
    let mut shown: String = "[".to_owned();
    let mut i: usize = 0;
    proof {
        assert(metas@.take(0) =~= Seq::empty());
        assert("["@ + entries_shown(metas@.take(0)) =~= "["@);
    }
    while i < metas.len()
        invariant
            i <= metas@.len(),
            shown@ == "["@ + entries_shown(metas@.take(i as int)),
        decreases metas@.len() - i,
    {
        let ghost before = shown@;
        let ghost done = metas@.take(i as int);
        proof {
            assert(metas@.take(i + 1).drop_last() =~= done);
        }
        if i > 0 {
            shown.append(", ");
        }
        shown.append(show_meta(&metas[i]).as_str());
        proof {
            if i > 0 {
                assert(shown@ =~= "["@ + (entries_shown(done) + ", "@ + meta_shown(
                    metas@[i as int],
                )));
            } else {
                assert(entries_shown(done) =~= Seq::empty());
                assert(shown@ =~= "["@ + meta_shown(metas@[i as int]));
            }
        }
        i += 1;
    }
    assert(metas@.take(i as int) =~= metas@);
    shown.append("]");
    shown
}

/// The text of a continuation key.
pub open spec fn next_of(page: ObjectListPage) -> Option<Seq<char>> {
    match page.next_after {
        Some(next) => Some(next@),
        None => None,
    }
}

/// How a page of a listing reads.
pub open spec fn page_shown(page: ObjectListPage) -> Seq<char> {
    "ObjectListPage { objects: "@ + listing_shown(page.objects@) + ", next_after: "@
        + optional_text_shown(next_of(page)) + " }"@
}

/// Renders a page of a listing.
pub fn show_page(page: &ObjectListPage) -> (shown: String)
    ensures
        shown@ == page_shown(*page),
{
    let mut shown: String = join(
        "ObjectListPage { objects: ",
        show_listing(&page.objects).as_str(),
    );
    shown.append(", next_after: ");
    let next: String = match &page.next_after {
        Some(next) => show_some_text(next.as_str()),
        None => "None".to_owned(),
    };
    shown.append(next.as_str());
    shown.append(" }");
    shown
}

/// How a field of an error reads.
pub open spec fn field_shown(variant: Seq<char>, field: Seq<char>, value: Seq<char>) -> Seq<char> {
    variant + " { "@ + field + ": "@ + text::quoted_text(value) + " }"@
}

fn show_field(variant: &str, field: &str, value: &str) -> (shown: String)
    ensures
        shown@ == field_shown(variant@, field@, value@),
{
    let mut shown: String = join(variant, " { ");
    shown.append(field);
    shown.append(": ");
    shown.append(quoted(value).as_str());
    shown.append(" }");
    shown
}

/// How an error reads.
pub open spec fn error_shown(error: Error) -> Seq<char> {
    match error {
        Error::InvalidFormat { message } => field_shown("InvalidFormat"@, "message"@, message@),
        Error::Corruption { message } => field_shown("Corruption"@, "message"@, message@),
        Error::UnsupportedFormat { message } => field_shown(
            "UnsupportedFormat"@,
            "message"@,
            message@,
        ),
        Error::InvalidOptions { message } => field_shown("InvalidOptions"@, "message"@, message@),
        Error::UnsupportedBackend { message } => field_shown(
            "UnsupportedBackend"@,
            "message"@,
            message@,
        ),
        Error::Unsupported { message } => field_shown("Unsupported"@, "message"@, message@),
        Error::Conflict { message } => field_shown("Conflict"@, "message"@, message@),
        Error::Fenced { held_epoch, current_epoch } => "Fenced { held_epoch: "@ + text::decimal(
            held_epoch as nat,
        ) + ", current_epoch: "@ + text::decimal(current_epoch as nat) + " }"@,
        Error::CheckpointAlreadyExists { name } => field_shown(
            "CheckpointAlreadyExists"@,
            "name"@,
            name@,
        ),
        Error::CheckpointNotFound { name } => field_shown("CheckpointNotFound"@, "name"@, name@),
        Error::ObjectVersionChanged { key } => field_shown("ObjectVersionChanged"@, "key"@, key@),
        Error::ManifestPublishedDurabilityUnknown { message } => field_shown(
            "ManifestPublishedDurabilityUnknown"@,
            "message"@,
            message@,
        ),
        Error::RuntimeBusy { message } => field_shown("RuntimeBusy"@, "message"@, message@),
        Error::Closed => "Closed"@,
        Error::Io { message } => field_shown("Io"@, "message"@, message@),
    }
}

/// Renders an error.
pub fn show_error(error: &Error) -> (shown: String)
    ensures
        shown@ == error_shown(*error),
{
    match error {
        Error::InvalidFormat { message } => show_field("InvalidFormat", "message", message.as_str()),
        Error::Corruption { message } => show_field("Corruption", "message", message.as_str()),
        Error::UnsupportedFormat { message } => show_field(
            "UnsupportedFormat",
            "message",
            message.as_str(),
        ),
        Error::InvalidOptions { message } => show_field(
            "InvalidOptions",
            "message",
            message.as_str(),
        ),
        Error::UnsupportedBackend { message } => show_field(
            "UnsupportedBackend",
            "message",
            message.as_str(),
        ),
        Error::Unsupported { message } => show_field("Unsupported", "message", message.as_str()),
        Error::Conflict { message } => show_field("Conflict", "message", message.as_str()),
        Error::Fenced { held_epoch, current_epoch } => {
            let mut shown: String = "Fenced { held_epoch: ".to_owned();
            push_decimal(&mut shown, *held_epoch);
            shown.append(", current_epoch: ");
            push_decimal(&mut shown, *current_epoch);
            shown.append(" }");
            shown
        },
        Error::CheckpointAlreadyExists { name } => show_field(
            "CheckpointAlreadyExists",
            "name",
            name.as_str(),
        ),
        Error::CheckpointNotFound { name } => show_field(
            "CheckpointNotFound",
            "name",
            name.as_str(),
        ),
        Error::ObjectVersionChanged { key } => show_field(
            "ObjectVersionChanged",
            "key",
            key.as_str(),
        ),
        Error::ManifestPublishedDurabilityUnknown { message } => show_field(
            "ManifestPublishedDurabilityUnknown",
            "message",
            message.as_str(),
        ),
        Error::RuntimeBusy { message } => show_field("RuntimeBusy", "message", message.as_str()),
        Error::Closed => "Closed".to_owned(),
        Error::Io { message } => show_field("Io", "message", message.as_str()),
    }
}

/// A listing is shown entry by entry, in order, with a comma between two of them.
pub proof fn entries_are_shown_in_order(a: Seq<ObjectMeta>, b: Seq<ObjectMeta>)
    ensures
        entries_shown(Seq::empty()).len() == 0,
        a.len() == 1 ==> entries_shown(a) == meta_shown(a[0]),
        a.len() > 0 && b.len() > 0 ==> entries_shown(a + b) == entries_shown(a) + ", "@
            + entries_shown(b),
    decreases b.len(),
{
    if a.len() > 0 && b.len() > 0 {
        assert((a + b).drop_last() =~= a + b.drop_last());
        assert((a + b).last() == b.last());
        if b.len() == 1 {
            assert(a + b.drop_last() =~= a);
            assert(b.last() == b[0]);
        } else {
            entries_are_shown_in_order(a, b.drop_last());
            assert(entries_shown(a + b) =~= entries_shown(a) + ", "@ + entries_shown(b));
        }
    }
}

} // verus!
