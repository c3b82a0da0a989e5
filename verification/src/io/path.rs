//! Paths as the operating system reads them.
use vstd::prelude::*;
use vstd::string::*;

verus! {

/// The stretches of a path between slashes, empty ones among them.
pub open spec fn stretches(path: Seq<char>) -> Seq<Seq<char>>
    decreases path.len(),
{
    if path.len() == 0 {
        seq![Seq::empty()]
    } else {
        let before = stretches(path.drop_last());
        if path.last() == '/' {
            before.push(Seq::empty())
        } else {
            before.drop_last().push(before.last().push(path.last()))
        }
    }
}

/// Whether the last of some stretches is a component: neither nothing, nor a dot that other
/// stretches precede.
pub open spec fn is_component(stretches: Seq<Seq<char>>) -> bool {
    stretches.last().len() > 0 && (stretches.last() != seq!['.'] || stretches.len() == 1)
}

/// The stretches that are components.
pub open spec fn components(stretches: Seq<Seq<char>>) -> Seq<Seq<char>>
    decreases stretches.len(),
{
    if stretches.len() == 0 {
        Seq::empty()
    } else {
        let before = components(stretches.drop_last());
        if is_component(stretches) {
            before.push(stretches.last())
        } else {
            before
        }
    }
}

/// What a path names: paths that differ in repeated slashes, slashes at the end or inner dots
/// name the same.
#[verifier::ext_equal]
pub struct PathName {
    /// Whether it starts at the root.
    pub rooted: bool,
    /// Its components.
    pub components: Seq<Seq<char>>,
}

/// What a path names.
pub open spec fn name_of(path: Seq<char>) -> PathName {
    PathName {
        rooted: path.len() > 0 && path[0] == '/',
        components: components(stretches(path)),
    }
}

/// The directory that a path name is in: the root and the empty name are in none.
pub open spec fn parent_name(name: PathName) -> Option<PathName> {
    if name.components.len() == 0 {
        None
    } else {
        Some(PathName { rooted: name.rooted, components: name.components.drop_last() })
    }
}

/// Whether a path ends with a component.
pub open spec fn ends_in_component(path: Seq<char>) -> bool {
    is_component(stretches(path))
}

/// A path without what follows its last component.
pub open spec fn through_last_component(path: Seq<char>) -> Seq<char>
    decreases path.len(),
{
    if path.len() <= 1 || ends_in_component(path) {
        path
    } else {
        through_last_component(path.drop_last())
    }
}

/// The part of a path before its last slash and the slash, or nothing.
pub open spec fn through_last_slash(path: Seq<char>) -> Seq<char>
    decreases path.len(),
{
    if path.len() > 0 && path.last() != '/' {
        through_last_slash(path.drop_last())
    } else {
        path
    }
}

/// The text of the directory that a path is in: the root has none, and a name alone is in the
/// directory with the empty path.
pub open spec fn parent_path(path: Seq<char>) -> Option<Seq<char>> {
    let whole = through_last_component(path);
    if ends_in_component(whole) {
        Some(through_last_component(through_last_slash(whole)))
    } else {
        None
    }
}

proof fn stretches_are_not_empty(path: Seq<char>)
    ensures
        stretches(path).len() >= 1,
    decreases path.len(),
{
    if path.len() > 0 {
        stretches_are_not_empty(path.drop_last());
    }
}

/// How a path ends shows in its last characters.
proof fn component_shows_at_end(path: Seq<char>)
    ensures
        ends_in_component(path) == (path.len() > 0 && path.last() != '/' && (path.last() != '.'
            || path.len() == 1 || path[path.len() - 2] != '/')),
{
    stretches_are_not_empty(path);
    if path.len() > 0 {
        let shorter = path.drop_last();
        stretches_are_not_empty(shorter);
        let before = stretches(shorter);
        if path.last() != '/' {
            let last = before.last().push(path.last());
            assert(stretches(path).last() == last);
            if shorter.len() == 0 {
                assert(stretches(path).len() == 1);
            } else if shorter.last() == '/' {
                stretches_are_not_empty(shorter.drop_last());
                assert(before.last() == Seq::<char>::empty());
                assert(last =~= seq![path.last()]);
                assert(stretches(path).len() > 1);
                if path.last() != '.' {
                    assert(last[0] != seq!['.'][0]);
                }
            } else {
                assert(before.last().len() > 0);
                assert(last.len() > 1);
            }
        }
    }
}

/// What follows the last component of a path changes nothing that it names.
proof fn end_names_nothing(path: Seq<char>)
    ensures
        name_of(through_last_component(path)) == name_of(path),
    decreases path.len(),
{
    if path.len() > 1 && !ends_in_component(path) {
        let shorter = path.drop_last();
        end_names_nothing(shorter);
        component_shows_at_end(path);
        component_shows_at_end(shorter);
        stretches_are_not_empty(shorter);
        let before = stretches(shorter);
        let all = stretches(path);
        if path.last() == '/' {
            assert(all.drop_last() =~= before);
        } else {
            assert(shorter.last() == '/');
            assert(all.drop_last() =~= before.drop_last());
        }
        assert(components(all) == components(all.drop_last()));
        assert(components(before) == components(all));
        assert(name_of(shorter) =~= name_of(path));
    }
}

/// A path up to its last slash holds the stretches before the last.
proof fn slash_ends_stretches(path: Seq<char>)
    ensures
        stretches(through_last_slash(path)) == stretches(path).drop_last().push(Seq::empty()),
        components(stretches(through_last_slash(path))) == components(stretches(path).drop_last()),
        path.len() > 0 && path[0] == '/' ==> through_last_slash(path).len() > 0,
        forall|i: int|
            0 <= i < through_last_slash(path).len() ==> #[trigger] through_last_slash(path)[i]
                == path[i],
        through_last_slash(path).len() <= path.len(),
    decreases path.len(),
{
    stretches_are_not_empty(path);
    if path.len() > 0 && path.last() != '/' {
        let shorter = path.drop_last();
        slash_ends_stretches(shorter);
        stretches_are_not_empty(shorter);
        assert(stretches(path).drop_last() =~= stretches(shorter).drop_last());
    } else if path.len() > 0 {
        assert(stretches(path).drop_last().push(Seq::empty()) =~= stretches(path));
    } else {
        assert(stretches(path).drop_last().push(Seq::empty()) =~= stretches(path));
    }
    let cut = stretches(path).drop_last().push(Seq::empty());
    assert(cut.drop_last() =~= stretches(path).drop_last());
}

/// The directory of a path is named by the path's components without the last.
pub proof fn parent_has_parent_name(path: Seq<char>)
    ensures
        match parent_path(path) {
            Some(parent) => parent_name(name_of(path)) == Some(name_of(parent)),
            None => parent_name(name_of(path)) is None,
        },
{
    let whole = through_last_component(path);
    end_names_nothing(path);
    if ends_in_component(whole) {
        let cut = through_last_slash(whole);
        slash_ends_stretches(whole);
        end_names_nothing(cut);
        stretches_are_not_empty(whole);
        let all = stretches(whole);
        assert(components(all) == components(all.drop_last()).push(all.last()));
        assert(components(all).drop_last() =~= components(all.drop_last()));
        assert(name_of(cut) =~= parent_name(name_of(path))->0);
    } else {
        last_is_short(path);
        component_shows_at_end(whole);
        if whole.len() == 1 {
            assert(whole.drop_last() =~= Seq::empty());
            assert(stretches(whole.drop_last()) == seq![Seq::<char>::empty()]);
            assert(stretches(whole).drop_last() =~= seq![Seq::<char>::empty()]);
            assert(seq![Seq::<char>::empty()].drop_last() =~= Seq::empty());
            reveal_with_fuel(components, 3);
            assert(components(stretches(whole)).len() == 0);
        } else {
            reveal_with_fuel(components, 3);
            assert(components(stretches(whole)).len() == 0);
        }
    }
}

proof fn last_is_short(path: Seq<char>)
    ensures
        through_last_component(path).len() <= 1 || ends_in_component(through_last_component(path)),
    decreases path.len(),
{
    if path.len() > 1 && !ends_in_component(path) {
        last_is_short(path.drop_last());
    }
}

fn last_component_end(path: &str, from: usize) -> (end: usize)
    requires
        from <= path@.len(),
    ensures
        end <= from,
        path@.take(end as int) == through_last_component(path@.take(from as int)),
{
    let mut end: usize = from;
    while end > 1
        invariant
            end <= from <= path@.len(),
            through_last_component(path@.take(end as int)) == through_last_component(
                path@.take(from as int),
            ),
        decreases end,
    {
        let last: char = path.get_char(end - 1);
        proof {
            component_shows_at_end(path@.take(end as int));
            assert(path@.take(end as int).drop_last() =~= path@.take(end - 1));
        }
        if last != '/' && (last != '.' || path.get_char(end - 2) != '/') {
            return end;
        }
        end = end - 1;
    }
    end
}

fn last_slash_end(path: &str, from: usize) -> (end: usize)
    requires
        from <= path@.len(),
    ensures
        end <= from,
        path@.take(end as int) == through_last_slash(path@.take(from as int)),
{
    let mut end: usize = from;
    while end > 0
        invariant
            end <= from <= path@.len(),
            through_last_slash(path@.take(end as int)) == through_last_slash(
                path@.take(from as int),
            ),
        decreases end,
    {
        assert(path@.take(end as int).drop_last() =~= path@.take(end - 1));
        if path.get_char(end - 1) == '/' {
            return end;
        }
        end = end - 1;
    }
    end
}

/// Returns the directory that a path is in.
///
/// Components of paths are separated by slashes.
pub fn parent_directory(path: &str) -> (parent: Option<String>)
    ensures
        match parent {
            Some(parent) => {
                &&& parent_path(path@) == Some(parent@)
                &&& parent_name(name_of(path@)) == Some(name_of(parent@))
            },
            None => parent_path(path@) is None && parent_name(name_of(path@)) is None,
        },
{
    let len: usize = path.unicode_len();
    proof {
        parent_has_parent_name(path@);
        assert(path@.take(len as int) =~= path@);
    }
    let whole: usize = last_component_end(path, len);
    proof {
        component_shows_at_end(path@.take(whole as int));
        last_is_short(path@);
    }
    if whole == 0 || path.get_char(whole - 1) == '/' {
        return None;
    }
    let cut: usize = last_slash_end(path, whole);
    let end: usize = last_component_end(path, cut);
    let parent: &str = path.substring_char(0, end);
    assert(parent@ =~= path@.take(end as int));
    Some(parent.to_owned())
}

/// The mathematical form of texts.
pub open spec fn texts(list: Seq<String>) -> Seq<Seq<char>> {
    Seq::new(list.len(), |i: int| list[i]@)
}

/// Returns the components of a path.
pub fn path_components(path: &str) -> (list: Vec<String>)
    ensures
        texts(list@) == components(stretches(path@)),
{
    let len: usize = path.unicode_len();
    let mut list: Vec<String> = Vec::new();
    let mut start: usize = 0;
    let mut i: usize = 0;
    proof {
        assert(path@.take(0) =~= Seq::empty());
        assert(stretches(path@.take(0)).drop_last() =~= Seq::empty());
        assert(path@.subrange(0, 0) =~= Seq::empty());
        assert(texts(list@) =~= Seq::empty());
    }
    while i < len
        invariant
            start <= i <= len == path@.len(),
            stretches(path@.take(i as int)).len() >= 1,
            (start == 0) == (stretches(path@.take(i as int)).len() == 1),
            stretches(path@.take(i as int)).last() == path@.subrange(start as int, i as int),
            texts(list@) == components(stretches(path@.take(i as int)).drop_last()),
        decreases len - i,
    {
        let ghost done = stretches(path@.take(i as int));
        let ghost next = stretches(path@.take(i + 1));
        proof {
            assert(path@.take(i + 1).drop_last() =~= path@.take(i as int));
        }
        let c: char = path.get_char(i);
        if c == '/' {
            keep_component(&mut list, path, start, i, Ghost(done));
            start = i + 1;
            proof {
                assert(next.drop_last() =~= done);
                assert(path@.subrange(start as int, i + 1) =~= Seq::empty());
            }
        } else {
            proof {
                assert(path@.subrange(start as int, i as int).push(c) =~= path@.subrange(
                    start as int,
                    i + 1,
                ));
                assert(next.drop_last() =~= done.drop_last());
            }
        }
        i = i + 1;
    }
    assert(path@.take(i as int) =~= path@);
    keep_component(&mut list, path, start, len, Ghost(stretches(path@)));
    list
}

fn keep_component(
    list: &mut Vec<String>,
    path: &str,
    start: usize,
    end: usize,
    all: Ghost<Seq<Seq<char>>>,
)
    requires
        start <= end <= path@.len(),
        all@.len() >= 1,
        (start == 0) == (all@.len() == 1),
        all@.last() == path@.subrange(start as int, end as int),
        texts(old(list)@) == components(all@.drop_last()),
    ensures
        texts(final(list)@) == components(all@),
{
    let ghost before = list@;
    let dot: bool = end - start == 1 && path.get_char(start) == '.';
    proof {
        let last = all@.last();
        if dot {
            assert(last =~= seq!['.']);
        } else if last == seq!['.'] {
            assert(last[0] == '.');
        }
    }
    if start < end && (!dot || start == 0) {
        let component: &str = path.substring_char(start, end);
        list.push(component.to_owned());
        assert(texts(list@) =~= texts(before).push(all@.last()));
    }
}

/// Tells whether two paths name the same.
pub fn same_path(a: &str, b: &str) -> (same: bool)
    ensures
        same == (name_of(a@) == name_of(b@)),
{
    let a_rooted: bool = a.unicode_len() > 0 && a.get_char(0) == '/';
    let b_rooted: bool = b.unicode_len() > 0 && b.get_char(0) == '/';
    if a_rooted != b_rooted {
        return false;
    }
    let left: Vec<String> = path_components(a);
    let right: Vec<String> = path_components(b);
    if left.len() != right.len() {
        assert(texts(left@).len() != texts(right@).len());
        return false;
    }
    let mut i: usize = 0;
    while i < left.len()
        invariant
            i <= left@.len() == right@.len(),
            texts(left@) == name_of(a@).components,
            texts(right@) == name_of(b@).components,
            forall|j: int| 0 <= j < i ==> (#[trigger] left@[j])@ == right@[j]@,
        decreases left@.len() - i,
    {
        if left[i] != right[i] {
            assert(texts(left@)[i as int] != texts(right@)[i as int]);
            return false;
        }
        i += 1;
    }
    assert(texts(left@) =~= texts(right@));
    true
}

/// Whether a text can stand as a name in a directory.
pub open spec fn is_plain_name(name: Seq<char>) -> bool {
    name.len() > 0 && name != seq!['.'] && !name.contains('/')
}

proof fn stretches_behind_slash(path: Seq<char>, rest: Seq<char>)
    requires
        !rest.contains('/'),
    ensures
        stretches(path.push('/') + rest) == stretches(path).push(rest),
    decreases rest.len(),
{
    let whole = path.push('/') + rest;
    if rest.len() == 0 {
        assert(whole =~= path.push('/'));
        assert(whole.drop_last() =~= path);
        assert(rest =~= Seq::empty());
    } else {
        let shorter = rest.drop_last();
        assert forall|i: int| 0 <= i < shorter.len() implies shorter[i] != '/' by {
            assert(rest[i] == shorter[i]);
            assert(rest.contains(rest[i]));
        }
        stretches_behind_slash(path, shorter);
        assert(rest.contains(rest[rest.len() - 1]));
        assert(whole.last() == rest.last());
        assert(whole.drop_last() =~= path.push('/') + shorter);
        let before = stretches(path).push(shorter);
        assert(before.drop_last() =~= stretches(path));
        assert(shorter.push(rest.last()) =~= rest);
    }
}

/// A name in a directory is the directory's components with the name behind them, and the directory
/// is its parent.
pub proof fn name_in_directory_comes_last(directory: Seq<char>, name: Seq<char>)
    requires
        directory.len() > 0,
        is_plain_name(name),
    ensures
        name_of(directory.push('/') + name) == (PathName {
            rooted: directory[0] == '/',
            components: name_of(directory).components.push(name),
        }),
        parent_name(name_of(directory.push('/') + name)) == Some(name_of(directory)),
{
    let whole = directory.push('/') + name;
    stretches_behind_slash(directory, name);
    stretches_are_not_empty(directory);
    let all = stretches(whole);
    assert(all.drop_last() =~= stretches(directory));
    assert(all.len() > 1);
    assert(whole[0] == directory[0]);
    let parts = name_of(directory).components;
    assert(parts.push(name).drop_last() =~= parts);
}

/// Slashes and current-directory components behind a path do not make another path of it.
pub proof fn unnamed_ends_make_no_difference(path: Seq<char>)
    requires
        path.len() > 0,
    ensures
        name_of(path.push('/')) == name_of(path),
        name_of(path.push('/').push('.')) == name_of(path),
{
    let nothing = Seq::<char>::empty();
    let dot = seq!['.'];
    stretches_are_not_empty(path);
    stretches_behind_slash(path, nothing);
    assert(path.push('/') + nothing =~= path.push('/'));
    assert(stretches(path).push(nothing).drop_last() =~= stretches(path));
    assert(path.push('/')[0] == path[0]);
    stretches_behind_slash(path, dot);
    assert(path.push('/') + dot =~= path.push('/').push('.'));
    assert(stretches(path).push(dot).drop_last() =~= stretches(path));
    assert(path.push('/').push('.')[0] == path[0]);
}

/// A path of one name is that name.
pub proof fn bare_name_is_one_component(name: Seq<char>)
    requires
        is_plain_name(name),
    ensures
        name_of(name) == (PathName { rooted: false, components: seq![name] }),
{
    bare_stretch(name);
    let all = stretches(name);
    assert(name.contains(name[0]));
    assert(all.drop_last() =~= Seq::<Seq<char>>::empty());
    assert(components(all.drop_last()) =~= Seq::<Seq<char>>::empty());
    assert(components(all) =~= seq![name]);
}

proof fn bare_stretch(name: Seq<char>)
    requires
        !name.contains('/'),
    ensures
        stretches(name) == seq![name],
    decreases name.len(),
{
    if name.len() == 0 {
        assert(name =~= Seq::empty());
    } else {
        let shorter = name.drop_last();
        assert forall|i: int| 0 <= i < shorter.len() implies shorter[i] != '/' by {
            assert(name[i] == shorter[i]);
            assert(name.contains(name[i]));
        }
        bare_stretch(shorter);
        assert(name.contains(name[name.len() - 1]));
        assert(seq![shorter].drop_last() =~= Seq::<Seq<char>>::empty());
        assert(shorter.push(name.last()) =~= name);
        assert(Seq::<Seq<char>>::empty().push(name) =~= seq![name]);
    }
}

} // verus!
