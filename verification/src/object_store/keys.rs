//! The one canonical form of an object key.
use vstd::prelude::*;
use vstd::string::*;

use crate::error::{Error, ErrorKind, Result};

verus! {

/// Whether a character separates key components.
pub open spec fn is_separator(c: char) -> bool {
    c == '/' || c == '\\'
}

/// The components of a key: the stretches between separators, empty ones among them.
pub open spec fn components(key: Seq<char>) -> Seq<Seq<char>>
    decreases key.len(),
{
    if key.len() == 0 {
        seq![Seq::empty()]
    } else {
        let before = components(key.drop_last());
        if is_separator(key.last()) {
            before.push(Seq::empty())
        } else {
            before.drop_last().push(before.last().push(key.last()))
        }
    }
}

/// Whether a component names something: neither nothing nor the place itself.
pub open spec fn is_named(component: Seq<char>) -> bool {
    component.len() > 0 && component != seq!['.']
}

/// Whether a component names the parent.
pub open spec fn is_parent(component: Seq<char>) -> bool {
    component == seq!['.', '.']
}

/// The components of a key that name something.
pub open spec fn named(parts: Seq<Seq<char>>) -> Seq<Seq<char>>
    decreases parts.len(),
{
    if parts.len() == 0 {
        Seq::empty()
    } else {
        let before = named(parts.drop_last());
        if is_named(parts.last()) {
            before.push(parts.last())
        } else {
            before
        }
    }
}

/// Components joined by slashes.
pub open spec fn joined(parts: Seq<Seq<char>>) -> Seq<char>
    decreases parts.len(),
{
    if parts.len() == 0 {
        Seq::empty()
    } else if parts.len() == 1 {
        parts[0]
    } else {
        joined(parts.drop_last()).push('/') + parts.last()
    }
}

/// Whether some component names the parent.
pub open spec fn climbs(parts: Seq<Seq<char>>) -> bool {
    exists|i: int| 0 <= i < parts.len() && is_parent(#[trigger] parts[i])
}

/// Whether a key can be brought to canonical form.
pub open spec fn is_key(key: Seq<char>) -> bool {
    !key.contains('\0') && !climbs(components(key))
}

/// The canonical form of a key: its named components, joined by slashes.
pub open spec fn canonical(key: Seq<char>) -> Seq<char> {
    joined(named(components(key)))
}

/// What keeps a key from being brought to canonical form.
pub open spec fn key_fault(key: Seq<char>) -> Seq<char> {
    if key.contains('\0') {
        "object-store prefix cannot contain a NUL byte"@
    } else {
        "object-store prefix cannot contain a parent component"@
    }
}

/// Whether an error says what keeps a key from being brought to canonical form.
pub open spec fn refuses_key(error: Error, key: Seq<char>) -> bool {
    error.says(ErrorKind::InvalidOptions, key_fault(key))
}

fn holds_nul(key: &str) -> (holds: bool)
    ensures
        holds == key@.contains('\0'),
{
    let len: usize = key.unicode_len();
    let mut i: usize = 0;
    while i < len
        invariant
            i <= len == key@.len(),
            forall|j: int| 0 <= j < i ==> key@[j] != '\0',
        decreases len - i,
    {
        if key.get_char(i) == '\0' {
            assert(key@[i as int] == '\0');
            return true;
        }
        i = i + 1;
    }
    false
}

proof fn components_are_not_empty(key: Seq<char>)
    ensures
        components(key).len() >= 1,
    decreases key.len(),
{
    if key.len() > 0 {
        components_are_not_empty(key.drop_last());
    }
}

proof fn named_are_named(parts: Seq<Seq<char>>)
    ensures
        forall|i: int| 0 <= i < named(parts).len() ==> is_named(#[trigger] named(parts)[i]),
        forall|i: int| 0 <= i < named(parts).len() ==> parts.contains(#[trigger] named(parts)[i]),
    decreases parts.len(),
{
    if parts.len() > 0 {
        let before = parts.drop_last();
        named_are_named(before);
        assert forall|i: int| 0 <= i < named(parts).len() implies parts.contains(
            #[trigger] named(parts)[i],
        ) by {
            if i < named(before).len() {
                assert(before.contains(named(before)[i]));
                let j = choose|j: int| 0 <= j < before.len() && before[j] == named(before)[i];
                assert(parts[j] == named(parts)[i]);
            } else {
                assert(parts[parts.len() - 1] == named(parts)[i]);
            }
        }
    }
}

/// Whether a component is a single dot.
fn is_dot(component: &str) -> (dot: bool)
    ensures
        dot == (component@ == seq!['.']),
{
    let dot: bool = component.unicode_len() == 1 && component.get_char(0) == '.';
    proof {
        if dot {
            assert(component@ =~= seq!['.']);
        }
    }
    dot
}

/// Whether a component is two dots.
fn is_dot_dot(component: &str) -> (parent: bool)
    ensures
        parent == is_parent(component@),
{
    let parent: bool = component.unicode_len() == 2 && component.get_char(0) == '.'
        && component.get_char(1) == '.';
    proof {
        if parent {
            assert(component@ =~= seq!['.', '.']);
        }
    }
    parent
}

/// Appends one finished component to a key that is being built.
fn append_component(built: &mut String, component: &str, parts: Ghost<Seq<Seq<char>>>)
    requires
        old(built)@ == joined(named(parts@)),
        (old(built)@.len() == 0) == (named(parts@).len() == 0),
    ensures
        final(built)@ == joined(named(parts@.push(component@))),
        (final(built)@.len() == 0) == (named(parts@.push(component@)).len() == 0),
{
    proof {
        reveal_strlit("/");
        assert(parts@.push(component@).drop_last() =~= parts@);
        let all = named(parts@.push(component@));
        assert(all.len() > 0 ==> all.drop_last() =~= named(parts@) || !is_named(component@));
    }
    if component.is_empty() || is_dot(component) {
        return;
    }
    let ghost all = named(parts@.push(component@));
    assert(all == named(parts@).push(component@));
    assert(all.drop_last() =~= named(parts@));
    if !built.as_str().is_empty() {
        built.append("/");
        assert(built@ =~= joined(named(parts@)).push('/'));
    } else {
        assert(built@ =~= Seq::empty());
    }
    let ghost before = built@;
    built.append(component);
    proof {
        if named(parts@).len() == 0 {
            assert(all.len() == 1);
            assert(built@ =~= component@);
        }
    }
}

/// Brings an object-store prefix to its canonical form.
pub fn canonical_object_prefix(value: &str) -> (result: Result<String>)
    ensures
        match result {
            Ok(key) => is_key(value@) && key@ == canonical(value@),
            Err(error) => !is_key(value@) && refuses_key(error, value@),
        },
{
    if holds_nul(value) {
        return Err(Error::invalid_options("object-store prefix cannot contain a NUL byte"));
    }
    let len: usize = value.unicode_len();
    let mut built: String = String::new();
    let mut start: usize = 0;
    let mut i: usize = 0;
    proof {
        assert(value@.take(0) =~= Seq::empty());
        assert(components(value@.take(0)).drop_last() =~= Seq::empty());
        assert(value@.subrange(0, 0) =~= Seq::empty());
    }
    while i < len
        invariant
            start <= i <= len == value@.len(),
            components(value@.take(i as int)).len() >= 1,
            components(value@.take(i as int)).last() == value@.subrange(start as int, i as int),
            !climbs(components(value@.take(i as int)).drop_last()),
            built@ == joined(named(components(value@.take(i as int)).drop_last())),
            (built@.len() == 0) == (named(
                components(value@.take(i as int)).drop_last(),
            ).len() == 0),
            !value@.contains('\0'),
        decreases len - i,
    {
        let c: char = value.get_char(i);
        let ghost done = components(value@.take(i as int));
        let ghost next = components(value@.take(i + 1));
        proof {
            assert(value@.take(i + 1).drop_last() =~= value@.take(i as int));
        }
        if c == '/' || c == '\\' {
            let component: &str = value.substring_char(start, i);
            if is_dot_dot(component) {
                proof {
                    parent_stays(value@, i as int, done.len() - 1);
                    assert(next.drop_last() =~= done);
                }
                return Err(
                    Error::invalid_options(
                        "object-store prefix cannot contain a parent component",
                    ),
                );
            }
            append_component(&mut built, component, Ghost(done.drop_last()));
            start = i + 1;
            proof {
                assert(done.drop_last().push(component@) =~= done);
                assert(next.drop_last() =~= done);
                assert(value@.subrange(start as int, i + 1) =~= Seq::empty());
                assert(!climbs(done)) by {
                    assert forall|k: int| 0 <= k < done.len() implies !is_parent(
                        #[trigger] done[k],
                    ) by {
                        if k < done.len() - 1 {
                            assert(done.drop_last()[k] == done[k]);
                        }
                    }
                }
            }
        } else {
            proof {
                assert(value@.subrange(start as int, i as int).push(c) =~= value@.subrange(
                    start as int,
                    i + 1,
                ));
                assert(next.drop_last() =~= done.drop_last());
            }
        }
        i = i + 1;
    }
    let ghost done = components(value@.take(i as int));
    assert(value@.take(i as int) =~= value@);
    let component: &str = value.substring_char(start, len);
    if is_dot_dot(component) {
        assert(is_parent(done[done.len() - 1]));
        return Err(
            Error::invalid_options("object-store prefix cannot contain a parent component"),
        );
    }
    append_component(&mut built, component, Ghost(done.drop_last()));
    proof {
        assert(done.drop_last().push(component@) =~= done);
        assert forall|k: int| 0 <= k < done.len() implies !is_parent(#[trigger] done[k]) by {
            if k < done.len() - 1 {
                assert(done.drop_last()[k] == done[k]);
            }
        }
    }
    Ok(built)
}

/// A component that is finished stays a component of every longer key.
proof fn parent_stays(key: Seq<char>, i: int, at: int)
    requires
        0 <= i < key.len(),
        is_separator(key[i]),
        at == components(key.take(i)).len() - 1,
        is_parent(components(key.take(i))[at]),
    ensures
        climbs(components(key)),
{
    let done = components(key.take(i));
    components_are_not_empty(key.take(i));
    assert(key.take(i + 1).drop_last() =~= key.take(i));
    assert(components(key.take(i + 1)) == done.push(Seq::empty()));
    finished_stays(key, i + 1, at);
    assert(components(key)[at] == done[at]);
}

proof fn finished_stays(key: Seq<char>, i: int, at: int)
    requires
        0 <= i <= key.len(),
        0 <= at < components(key.take(i)).len() - 1,
    ensures
        at < components(key).len() - 1,
        components(key)[at] == components(key.take(i))[at],
    decreases key.len() - i,
{
    if i < key.len() {
        assert(key.take(i + 1).drop_last() =~= key.take(i));
        finished_stays(key, i + 1, at);
    } else {
        assert(key.take(i) =~= key);
    }
}

/// Brings an object key, given as a path, to its canonical form.
pub fn canonical_object_key(path: &str) -> (result: Result<String>)
    ensures
        match result {
            Ok(key) => is_key(path@) && key@ == canonical(path@),
            Err(error) => !is_key(path@) && refuses_key(error, path@),
        },
{
    canonical_object_prefix(path)
}

/// Whether a text holds neither a separator nor a NUL.
spec fn is_plain(text: Seq<char>) -> bool {
    forall|i: int| 0 <= i < text.len() ==> !is_separator(#[trigger] text[i]) && text[i] != '\0'
}

proof fn components_are_plain(key: Seq<char>)
    requires
        !key.contains('\0'),
    ensures
        forall|i: int| 0 <= i < components(key).len() ==> is_plain(#[trigger] components(key)[i]),
    decreases key.len(),
{
    if key.len() > 0 {
        let before = key.drop_last();
        assert forall|i: int| 0 <= i < before.len() implies before[i] != '\0' by {
            assert(key.contains(key[i]));
        }
        components_are_plain(before);
        components_are_not_empty(before);
        let parts = components(before);
        assert(key.contains(key[key.len() - 1]));
        assert(is_plain(parts[parts.len() - 1]));
        assert forall|i: int| 0 <= i < components(key).len() implies is_plain(
            #[trigger] components(key)[i],
        ) by {
            if i < parts.len() - 1 {
                assert(is_plain(parts[i]));
            }
        }
    }
}

proof fn components_of_appended(key: Seq<char>, part: Seq<char>)
    requires
        is_plain(part),
    ensures
        components(key.push('/') + part) == components(key).push(part),
    decreases part.len(),
{
    let whole = key.push('/') + part;
    if part.len() == 0 {
        assert(whole =~= key.push('/'));
        assert(whole.drop_last() =~= key);
        assert(part =~= Seq::empty());
    } else {
        let shorter = part.drop_last();
        assert forall|i: int| 0 <= i < shorter.len() implies !is_separator(#[trigger] shorter[i])
            && shorter[i] != '\0' by {
            assert(part[i] == shorter[i]);
        }
        components_of_appended(key, shorter);
        assert(whole.drop_last() =~= key.push('/') + shorter);
        assert(!is_separator(part[part.len() - 1]));
        assert(shorter.push(part.last()) =~= part);
        assert(components(key).push(shorter).drop_last() =~= components(key));
    }
}

proof fn components_of_plain(part: Seq<char>)
    requires
        is_plain(part),
    ensures
        components(part) == seq![part],
    decreases part.len(),
{
    if part.len() == 0 {
        assert(part =~= Seq::empty());
    } else {
        let shorter = part.drop_last();
        assert forall|i: int| 0 <= i < shorter.len() implies !is_separator(#[trigger] shorter[i])
            && shorter[i] != '\0' by {
            assert(part[i] == shorter[i]);
        }
        components_of_plain(shorter);
        assert(!is_separator(part[part.len() - 1]));
        assert(shorter.push(part.last()) =~= part);
        assert(components(part) =~= seq![part]);
    }
}

proof fn components_of_joined(parts: Seq<Seq<char>>)
    requires
        parts.len() > 0,
        forall|i: int| 0 <= i < parts.len() ==> is_plain(#[trigger] parts[i]),
    ensures
        components(joined(parts)) == parts,
        !joined(parts).contains('\0'),
    decreases parts.len(),
{
    assert(is_plain(parts[parts.len() - 1]));
    if parts.len() == 1 {
        components_of_plain(parts[0]);
        assert(parts =~= seq![parts[0]]);
    } else {
        let before = parts.drop_last();
        assert forall|i: int| 0 <= i < before.len() implies is_plain(#[trigger] before[i]) by {
            assert(parts[i] == before[i]);
        }
        components_of_joined(before);
        components_of_appended(joined(before), parts.last());
        assert(before.push(parts.last()) =~= parts);
        let whole = joined(parts);
        assert forall|i: int| 0 <= i < whole.len() implies whole[i] != '\0' by {
            if i < joined(before).len() {
                assert(joined(before).contains(joined(before)[i]));
            } else if i > joined(before).len() {
                assert(whole[i] == parts.last()[i - joined(before).len() - 1]);
            }
        }
    }
}

proof fn named_of_named(parts: Seq<Seq<char>>)
    requires
        forall|i: int| 0 <= i < parts.len() ==> is_named(#[trigger] parts[i]),
    ensures
        named(parts) == parts,
    decreases parts.len(),
{
    if parts.len() > 0 {
        let before = parts.drop_last();
        assert forall|i: int| 0 <= i < before.len() implies is_named(#[trigger] before[i]) by {
            assert(parts[i] == before[i]);
        }
        named_of_named(before);
        assert(is_named(parts[parts.len() - 1]));
        assert(before.push(parts.last()) =~= parts);
    } else {
        assert(named(parts) =~= parts);
    }
}

/// A canonical key is a key, and it is its own canonical form.
pub proof fn canonical_key_is_canonical(key: Seq<char>)
    requires
        is_key(key),
    ensures
        is_key(canonical(key)),
        canonical(canonical(key)) == canonical(key),
{
    let all = components(key);
    let parts = named(all);
    components_are_plain(key);
    named_are_named(all);
    assert forall|i: int| 0 <= i < parts.len() implies is_plain(#[trigger] parts[i])
        && !is_parent(parts[i]) by {
        assert(all.contains(parts[i]));
        let j = choose|j: int| 0 <= j < all.len() && all[j] == parts[i];
        assert(is_plain(all[j]));
    }
    if parts.len() > 0 {
        components_of_joined(parts);
        named_of_named(parts);
    } else {
        assert(canonical(key) =~= Seq::empty());
        let none = components(canonical(key));
        assert(none =~= seq![Seq::empty()]);
        assert(!is_named(none.last()));
        assert(none.drop_last() =~= Seq::<Seq<char>>::empty());
        assert(named(none.drop_last()) =~= Seq::empty());
        assert(named(none) =~= Seq::empty());
    }
}

/// The components of a key are separated by one separator each: joined with slashes, they are the
/// key with a slash for every separator.
pub proof fn components_make_up_the_key(key: Seq<char>)
    ensures
        joined(components(key)) == key.map_values(
            |c: char|
                if is_separator(c) {
                    '/'
                } else {
                    c
                },
        ),
        forall|i: int, j: int|
            0 <= i < components(key).len() && 0 <= j < components(key)[i].len()
                ==> !is_separator(#[trigger] components(key)[i][j]),
    decreases key.len(),
{
    let slashed = |c: char|
        if is_separator(c) {
            '/'
        } else {
            c
        };
    let parts = components(key);
    if key.len() == 0 {
        assert(joined(parts) =~= key.map_values(slashed));
    } else {
        let shorter = key.drop_last();
        components_make_up_the_key(shorter);
        components_are_not_empty(shorter);
        let before = components(shorter);
        assert(shorter.map_values(slashed).push(slashed(key.last())) =~= key.map_values(slashed));
        if is_separator(key.last()) {
            assert(parts.drop_last() =~= before);
            assert(joined(before).push('/') + Seq::<char>::empty() =~= joined(before).push('/'));
        } else {
            let last = before.last().push(key.last());
            assert(parts.drop_last() =~= before.drop_last());
            assert(parts.last() == last);
            if before.len() == 1 {
                assert(joined(before) == before[0]);
                assert(joined(parts) == parts[0]);
                assert(joined(parts) =~= joined(before).push(key.last()));
            } else {
                assert(joined(before.drop_last()).push('/') + last =~= (joined(
                    before.drop_last(),
                ).push('/') + before.last()).push(key.last()));
            }
            assert forall|i: int, j: int|
                0 <= i < parts.len() && 0 <= j < parts[i].len() implies !is_separator(
                #[trigger] parts[i][j],
            ) by {
                if i < before.len() - 1 {
                    assert(parts[i] == before[i]);
                } else if j < before.last().len() {
                    assert(parts[i][j] == before[before.len() - 1][j]);
                }
            }
        }
    }
}

proof fn components_of_split(key: Seq<char>, separator: char, rest: Seq<char>)
    requires
        is_separator(separator),
    ensures
        components(key.push(separator) + rest) == components(key) + components(rest),
    decreases rest.len(),
{
    let whole = key.push(separator) + rest;
    if rest.len() == 0 {
        assert(whole =~= key.push(separator));
        assert(whole.drop_last() =~= key);
        assert(components(key).push(Seq::empty()) =~= components(key) + components(rest));
    } else {
        let shorter = rest.drop_last();
        components_of_split(key, separator, shorter);
        components_are_not_empty(shorter);
        assert(whole.last() == rest.last());
        assert(whole.drop_last() =~= key.push(separator) + shorter);
        let head = components(key);
        let tail = components(shorter);
        if is_separator(rest.last()) {
            assert((head + tail).push(Seq::empty()) =~= head + tail.push(Seq::empty()));
        } else {
            assert((head + tail).last() == tail.last());
            assert((head + tail).drop_last().push(tail.last().push(rest.last())) =~= head
                + tail.drop_last().push(tail.last().push(rest.last())));
        }
    }
}

proof fn named_of_both(a: Seq<Seq<char>>, b: Seq<Seq<char>>)
    ensures
        named(a + b) == named(a) + named(b),
    decreases b.len(),
{
    if b.len() == 0 {
        assert(a + b =~= a);
        assert(named(a) + named(b) =~= named(a));
    } else {
        named_of_both(a, b.drop_last());
        assert((a + b).drop_last() =~= a + b.drop_last());
        assert((a + b).last() == b.last());
        assert(named(a) + named(b) =~= if is_named(b.last()) {
            (named(a) + named(b.drop_last())).push(b.last())
        } else {
            named(a) + named(b.drop_last())
        });
    }
}

/// Keys are checked part by part: two texts with a separator between them are a key exactly if
/// each of them is. A text without separators is a key exactly if it is not the parent component
/// and has no NUL.
pub proof fn keys_are_checked_part_by_part(key: Seq<char>, separator: char, rest: Seq<char>)
    requires
        is_separator(separator),
    ensures
        is_key(key.push(separator) + rest) == (is_key(key) && is_key(rest)),
        (forall|i: int| 0 <= i < key.len() ==> !is_separator(#[trigger] key[i])) ==> (is_key(key)
            == (key != seq!['.', '.'] && !key.contains('\0'))),
{
    let whole = key.push(separator) + rest;
    components_of_split(key, separator, rest);
    let a = components(key);
    let b = components(rest);
    if key.contains('\0') {
        let i = choose|i: int| 0 <= i < key.len() && key[i] == '\0';
        assert(whole[i] == '\0');
    }
    if rest.contains('\0') {
        let i = choose|i: int| 0 <= i < rest.len() && rest[i] == '\0';
        assert(whole[key.len() + 1 + i] == '\0');
    }
    if whole.contains('\0') {
        let i = choose|i: int| 0 <= i < whole.len() && whole[i] == '\0';
        if i < key.len() {
            assert(key[i] == '\0');
        } else {
            assert(i != key.len());
            assert(rest[i - key.len() - 1] == '\0');
        }
    }
    if climbs(a) {
        let i = choose|i: int| 0 <= i < a.len() && is_parent(#[trigger] a[i]);
        assert(is_parent((a + b)[i]));
    }
    if climbs(b) {
        let i = choose|i: int| 0 <= i < b.len() && is_parent(#[trigger] b[i]);
        assert(is_parent((a + b)[a.len() + i]));
    }
    if climbs(a + b) {
        let i = choose|i: int| 0 <= i < (a + b).len() && is_parent(#[trigger] (a + b)[i]);
        if i < a.len() {
            assert(is_parent(a[i]));
        } else {
            assert(is_parent(b[i - a.len()]));
        }
    }
    if forall|i: int| 0 <= i < key.len() ==> !is_separator(#[trigger] key[i]) {
        if !key.contains('\0') {
            assert forall|i: int| 0 <= i < key.len() implies !is_separator(#[trigger] key[i])
                && key[i] != '\0' by {
                assert(key.contains(key[i]));
            }
            components_of_plain(key);
            assert(seq![key][0] == key);
            if key == seq!['.', '.'] {
                assert(is_parent(components(key)[0]));
            }
        }
    }
}

/// Two spellings of a key have one canonical form exactly if they have the same components, empty
/// and current-directory ones aside.
pub proof fn spellings_differ_only_in_unnamed_components(a: Seq<char>, b: Seq<char>)
    requires
        is_key(a),
        is_key(b),
    ensures
        canonical(a) == canonical(b) <==> named(components(a)) == named(components(b)),
{
    canonical_has_named_components(a);
    canonical_has_named_components(b);
    if canonical(a) == canonical(b) && named(components(a)).len() == 0 {
        assert(named(components(a)) =~= named(components(b)));
    }
}

proof fn canonical_has_named_components(key: Seq<char>)
    requires
        is_key(key),
    ensures
        named(components(key)).len() > 0 ==> components(canonical(key)) == named(components(key)),
        named(components(key)).len() == 0 ==> canonical(key).len() == 0,
        named(components(key)).len() > 0 ==> canonical(key).len() > 0,
{
    let all = components(key);
    let parts = named(all);
    components_are_plain(key);
    named_are_named(all);
    assert forall|i: int| 0 <= i < parts.len() implies is_plain(#[trigger] parts[i]) by {
        assert(all.contains(parts[i]));
        let j = choose|j: int| 0 <= j < all.len() && all[j] == parts[i];
        assert(is_plain(all[j]));
    }
    if parts.len() > 0 {
        components_of_joined(parts);
        if canonical(key).len() == 0 {
            assert(parts =~= seq![Seq::empty()]);
            assert(is_named(parts[0]));
        }
    }
}

proof fn unnamed_part(part: Seq<char>)
    requires
        !is_named(part),
    ensures
        named(seq![part]) == Seq::<Seq<char>>::empty(),
{
    let parts = seq![part];
    assert(parts.last() == part);
    assert(parts.drop_last() =~= Seq::<Seq<char>>::empty());
    assert(named(parts.drop_last()) =~= Seq::<Seq<char>>::empty());
}

/// A component that is empty or stands for the current directory makes no difference, at the end of
/// a key or between two parts of it.
pub proof fn unnamed_components_make_no_difference(
    key: Seq<char>,
    separator: char,
    rest: Seq<char>,
)
    requires
        is_separator(separator),
    ensures
        canonical(key.push(separator)) == canonical(key),
        canonical(key.push(separator).push('.')) == canonical(key),
        canonical(key.push(separator).push(separator) + rest) == canonical(
            key.push(separator) + rest,
        ),
        canonical(key.push('/') + rest) == canonical(key.push(separator) + rest),
{
    let nothing = Seq::<char>::empty();
    let dot = seq!['.'];
    let none = Seq::<Seq<char>>::empty();
    components_of_split(key, separator, nothing);
    assert(key.push(separator) + nothing =~= key.push(separator));
    assert(components(nothing) =~= seq![nothing]);
    unnamed_part(nothing);
    named_of_both(components(key), seq![nothing]);
    assert(named(components(key)) + none =~= named(components(key)));
    components_of_split(key, separator, dot);
    assert(key.push(separator) + dot =~= key.push(separator).push('.'));
    components_of_plain(dot);
    unnamed_part(dot);
    named_of_both(components(key), seq![dot]);
    components_of_split(key.push(separator), separator, rest);
    components_of_split(key, separator, rest);
    components_of_split(key, '/', rest);
    named_of_both(components(key.push(separator)), components(rest));
    named_of_both(components(key), components(rest));
}

} // verus!
