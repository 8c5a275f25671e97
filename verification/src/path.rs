//! Paths as byte strings, read component by component.
//!
//! A path's components are its names between separators. An absolute path
//! starts with the component `/`; empty names and names that stand for the
//! directory they are in (`.`) are no components, except a `.` that a relative
//! path starts with. Two paths are the same path where their components are.

use vstd::prelude::*;

verus! {

/// The separator of names.
pub const SLASH: u8 = 47;

/// The byte of the names `.` and `..`.
pub const DOT: u8 = 46;

/// How many bytes of `path` come ahead of its first separator.
pub open spec fn name_len(path: Seq<u8>) -> int
    decreases path.len(),
{
    if path.len() == 0 || path[0] == SLASH {
        0
    } else {
        1 + name_len(path.skip(1))
    }
}

/// The names of `path`, from its start. `leading` says whether a `.` here would
/// be the path's very first name.
pub open spec fn names(path: Seq<u8>, leading: bool) -> Seq<Seq<u8>>
    decreases path.len(),
    via names_decreases
{
    if path.len() == 0 {
        Seq::empty()
    } else if path[0] == SLASH {
        names(path.skip(1), false)
    } else {
        let name = path.take(name_len(path));
        let rest = names(path.skip(name_len(path)), false);
        if name == seq![DOT] && !leading {
            rest
        } else {
            seq![name] + rest
        }
    }
}

#[via_fn]
proof fn names_decreases(path: Seq<u8>, leading: bool) {
    lemma_name_len(path);
}

proof fn lemma_name_len(path: Seq<u8>)
    ensures
        0 <= name_len(path) <= path.len(),
        forall|i: int| 0 <= i < name_len(path) ==> path[i] != SLASH,
        name_len(path) < path.len() ==> path[name_len(path)] == SLASH,
        path.len() > 0 && path[0] != SLASH ==> name_len(path) > 0,
    decreases path.len(),
{
    if path.len() > 0 && path[0] != SLASH {
        lemma_name_len(path.skip(1));
        assert forall|i: int| 0 <= i < name_len(path) implies path[i] != SLASH by {
            if i > 0 {
                assert(path.skip(1)[i - 1] == path[i]);
            }
        }
    }
}

/// The components of `path`.
pub open spec fn components(path: Seq<u8>) -> Seq<Seq<u8>> {
    if path.len() > 0 && path[0] == SLASH {
        seq![seq![SLASH]] + names(path.skip(1), false)
    } else {
        names(path, true)
    }
}

/// Whether `path` is `base` or lies beneath it.
pub open spec fn at_or_under(path: Seq<u8>, base: Seq<u8>) -> bool {
    components(base).is_prefix_of(components(path))
}

/// Whether `path` lies beneath `base` and is not `base` itself.
pub open spec fn strictly_under(path: Seq<u8>, base: Seq<u8>) -> bool {
    at_or_under(path, base) && components(path) != components(base)
}

/// The path of `name`, read from `base`: that of a child, unless `name` is
/// absolute itself.
pub open spec fn joined(base: Seq<u8>, name: Seq<u8>) -> Seq<u8> {
    if name.len() > 0 && name[0] == SLASH {
        name
    } else if base.len() == 0 || base.last() == SLASH {
        base + name
    } else {
        base.push(SLASH) + name
    }
}

/// The byte strings that a vector of vectors holds.
pub open spec fn views(list: Seq<Vec<u8>>) -> Seq<Seq<u8>> {
    list.map_values(|v: Vec<u8>| v@)
}

/// Whether two byte strings are equal.
pub fn same_bytes(a: &[u8], b: &[u8]) -> (r: bool)
    ensures
        r == (a@ == b@),
{
    if a.len() != b.len() {
        return false;
    }
    let mut i: usize = 0;
    while i < a.len()
        invariant
            a@.len() == b@.len(),
            i <= a@.len(),
            forall|j: int| 0 <= j < i ==> a@[j] == b@[j],
        decreases a@.len() - i,
    {
        if a[i] != b[i] {
            return false;
        }
        i = i + 1;
    }
    assert(a@ =~= b@);
    true
}

/// Copies a byte string.
pub fn copy_bytes(a: &[u8]) -> (r: Vec<u8>)
    ensures
        r@ == a@,
{
    copy_range(a, 0, a.len())
}

/// Copies the bytes `a[from..to]`.
pub fn copy_range(a: &[u8], from: usize, to: usize) -> (r: Vec<u8>)
    requires
        from <= to <= a@.len(),
    ensures
        r@ == a@.subrange(from as int, to as int),
        from == 0 && to == a@.len() ==> r@ == a@,
{
    let mut out: Vec<u8> = Vec::new();
    let mut i: usize = from;
    while i < to
        invariant
            from <= i <= to <= a@.len(),
            out@ =~= a@.subrange(from as int, i as int),
        decreases to - i,
    {
        out.push(a[i]);
        i = i + 1;
    }
    assert(a@.subrange(0, a@.len() as int) =~= a@);
    out
}

/// The components of a path.
pub fn path_components(path: &[u8]) -> (r: Vec<Vec<u8>>)
    ensures
        views(r@) == components(path@),
{
    let mut out: Vec<Vec<u8>> = Vec::new();
    let mut at: usize = 0;
    let mut leading: bool = true;
    if path.len() > 0 && path[0] == SLASH {
        let mut root: Vec<u8> = Vec::new();
        root.push(SLASH);
        assert(root@ =~= seq![SLASH]);
        out.push(root);
        at = 1;
        leading = false;
        assert(views(out@) =~= seq![seq![SLASH]]);
    } else {
        assert(path@.skip(0) =~= path@);
        assert(views(out@) =~= Seq::empty());
        assert(views(out@) + names(path@, true) =~= names(path@, true));
    }
    while at < path.len()
        invariant
            at <= path@.len(),
            components(path@) == views(out@) + names(path@.skip(at as int), leading),
        decreases path@.len() - at,
    {
        let ghost rest = path@.skip(at as int);
        if path[at] == SLASH {
            at = at + 1;
            leading = false;
            assert(rest.skip(1) =~= path@.skip(at as int));
        } else {
            let start: usize = at;
            while at < path.len() && path[at] != SLASH
                invariant
                    start <= at <= path@.len(),
                    name_len(path@.skip(start as int)) == at - start + name_len(
                        path@.skip(at as int),
                    ),
                decreases path@.len() - at,
            {
                assert(path@.skip(at as int).skip(1) =~= path@.skip(at + 1));
                at = at + 1;
            }
            assert(name_len(path@.skip(at as int)) == 0);
            proof {
                lemma_name_len(rest);
                assert(rest.take(at - start) =~= path@.subrange(start as int, at as int));
                assert(rest.skip(at - start) =~= path@.skip(at as int));
            }
            let ghost name = rest.take(at - start);
            if at - start == 1 && path[start] == DOT && !leading {
                assert(name =~= seq![DOT]);
            } else {
                proof {
                    if name == seq![DOT] {
                        assert(name.len() == 1 && name[0] == DOT);
                    }
                }
                let seg = copy_range(path, start, at);
                let ghost before = views(out@);
                out.push(seg);
                assert(views(out@) =~= before.push(name));
                assert(before + (seq![name] + names(path@.skip(at as int), false))
                    =~= before.push(name) + names(path@.skip(at as int), false));
            }
            leading = false;
        }
    }
    assert(views(out@) + Seq::<Seq<u8>>::empty() =~= views(out@));
    out
}

/// Whether the byte strings of `a` start those of `b`.
fn is_prefix(a: &Vec<Vec<u8>>, b: &Vec<Vec<u8>>) -> (r: bool)
    ensures
        r == views(a@).is_prefix_of(views(b@)),
{
    if a.len() > b.len() {
        return false;
    }
    let mut i: usize = 0;
    while i < a.len()
        invariant
            a@.len() <= b@.len(),
            i <= a@.len(),
            forall|j: int| 0 <= j < i ==> views(a@)[j] == views(b@)[j],
        decreases a@.len() - i,
    {
        if !same_bytes(a[i].as_slice(), b[i].as_slice()) {
            assert(views(a@)[i as int] != views(b@)[i as int]);
            assert(views(b@).take(a@.len() as int)[i as int] == views(b@)[i as int]);
            return false;
        }
        i = i + 1;
    }
    assert(views(a@) =~= views(b@).take(a@.len() as int));
    true
}

/// Whether `path` is `base` or lies beneath it.
pub fn starts_with(path: &[u8], base: &[u8]) -> (r: bool)
    ensures
        r == at_or_under(path@, base@),
{
    let p = path_components(path);
    let b = path_components(base);
    is_prefix(&b, &p)
}

/// Whether `path` lies beneath `base` and is not `base` itself.
pub fn lies_under(path: &[u8], base: &[u8]) -> (r: bool)
    ensures
        r == strictly_under(path@, base@),
{
    let p = path_components(path);
    let b = path_components(base);
    let r = is_prefix(&b, &p) && p.len() != b.len();
    proof {
        let ps = components(path@);
        let bs = components(base@);
        if bs.is_prefix_of(ps) && ps.len() == bs.len() {
            assert(ps =~= bs);
        }
    }
    r
}

/// The path of `name`, read from `base`.
pub fn join(base: &[u8], name: &[u8]) -> (r: Vec<u8>)
    ensures
        r@ == joined(base@, name@),
{
    if name.len() > 0 && name[0] == SLASH {
        return copy_bytes(name);
    }
    let mut out = copy_bytes(base);
    if base.len() > 0 && base[base.len() - 1] != SLASH {
        out.push(SLASH);
    }
    let ghost head = out@;
    let mut i: usize = 0;
    while i < name.len()
        invariant
            i <= name@.len(),
            out@ =~= head + name@.take(i as int),
        decreases name@.len() - i,
    {
        out.push(name[i]);
        i = i + 1;
    }
    assert(name@.take(i as int) =~= name@);
    out
}

/// Whether `name` names a child of the directory it is read in.
pub open spec fn is_child_name(name: Seq<u8>) -> bool {
    &&& name.len() > 0
    &&& forall|i: int| 0 <= i < name.len() ==> name[i] != SLASH
    &&& name != seq![DOT]
}

proof fn lemma_one_name(name: Seq<u8>, leading: bool)
    requires
        is_child_name(name),
    ensures
        names(name, leading) == seq![name],
{
    lemma_name_len(name);
    assert(name_len(name) == name.len());
    assert(name.take(name.len() as int) =~= name);
    assert(name.skip(name.len() as int) =~= Seq::empty());
    assert(names(Seq::empty(), false) =~= Seq::empty());
    assert(names(name, leading) =~= seq![name]);
}

proof fn lemma_name_len_extended(path: Seq<u8>, more: Seq<u8>)
    requires
        more.len() > 0 ==> more[0] == SLASH,
    ensures
        name_len(path + more) == name_len(path),
    decreases path.len(),
{
    if path.len() > 0 && path[0] != SLASH {
        lemma_name_len_extended(path.skip(1), more);
        assert((path + more).skip(1) =~= path.skip(1) + more);
    } else if path.len() == 0 {
        assert(path + more =~= more);
    }
}

/// Names on both sides of a separator are read apart.
proof fn lemma_names_around_a_separator(path: Seq<u8>, more: Seq<u8>, leading: bool)
    requires
        more.len() > 0,
        more[0] == SLASH,
    ensures
        names(path + more, leading) == names(path, leading) + names(more, false),
    decreases path.len(),
{
    let whole = path + more;
    if path.len() == 0 {
        assert(whole =~= more);
        assert(names(path, leading) + names(more, false) =~= names(more, false));
    } else if path[0] == SLASH {
        assert(whole.skip(1) =~= path.skip(1) + more);
        lemma_names_around_a_separator(path.skip(1), more, false);
    } else {
        lemma_name_len(path);
        lemma_name_len_extended(path, more);
        let n = name_len(path);
        assert(whole.take(n) =~= path.take(n));
        assert(whole.skip(n) =~= path.skip(n) + more);
        lemma_names_around_a_separator(path.skip(n), more, false);
        let rest = names(path.skip(n), false);
        assert(seq![path.take(n)] + (rest + names(more, false)) =~= (seq![path.take(n)] + rest)
            + names(more, false));
    }
}

/// A trailing separator adds no name.
proof fn lemma_trailing_separator(path: Seq<u8>, leading: bool)
    requires
        path.len() > 0,
        path.last() == SLASH,
    ensures
        names(path, leading) == names(path.drop_last(), leading),
{
    let sep = seq![SLASH];
    assert(path.drop_last() + sep =~= path);
    lemma_names_around_a_separator(path.drop_last(), sep, leading);
    assert(sep.skip(1) =~= Seq::empty());
    assert(names(Seq::empty(), false) =~= Seq::empty());
    assert(names(sep, false) =~= Seq::empty());
    assert(names(path.drop_last(), leading) + Seq::<Seq<u8>>::empty() =~= names(
        path.drop_last(),
        leading,
    ));
}

proof fn lemma_joined_names(base: Seq<u8>, name: Seq<u8>, leading: bool)
    requires
        is_child_name(name),
        base.len() > 0,
    ensures
        names(joined(base, name), leading) == names(base, leading).push(name),
{
    let tail = seq![SLASH] + name;
    assert(tail.skip(1) =~= name);
    lemma_one_name(name, false);
    assert(names(tail, false) == seq![name]);
    if base.last() == SLASH {
        assert(joined(base, name) =~= base.drop_last() + tail);
        lemma_names_around_a_separator(base.drop_last(), tail, leading);
        lemma_trailing_separator(base, leading);
    } else {
        assert(joined(base, name) =~= base + tail);
        lemma_names_around_a_separator(base, tail, leading);
    }
    assert(names(base, leading) + seq![name] =~= names(base, leading).push(name));
}

/// A child's path has the components of its directory's path, and its own name
/// as one more.
pub proof fn law_a_child_is_one_component_down(base: Seq<u8>, name: Seq<u8>)
    requires
        is_child_name(name),
    ensures
        components(joined(base, name)) == components(base).push(name),
{
    let path = joined(base, name);
    if base.len() == 0 {
        assert(path =~= name);
        lemma_one_name(name, true);
        assert(components(base) =~= Seq::empty());
        assert(components(base).push(name) =~= seq![name]);
    } else if base[0] == SLASH {
        if base.len() == 1 {
            assert(path.skip(1) =~= name);
            lemma_one_name(name, false);
            assert(base.skip(1) =~= Seq::empty());
            assert(names(base.skip(1), false) =~= Seq::empty());
        } else {
            assert(path.skip(1) =~= joined(base.skip(1), name));
            lemma_joined_names(base.skip(1), name, false);
        }
        assert(components(path) =~= components(base).push(name));
    } else {
        lemma_joined_names(base, name, true);
    }
}

/// What lies at or beneath a path lies at or beneath all that path lies beneath.
pub proof fn law_under_is_transitive(a: Seq<u8>, b: Seq<u8>, c: Seq<u8>)
    requires
        at_or_under(a, b),
        at_or_under(b, c),
    ensures
        at_or_under(a, c),
{
    let (ca, cb, cc) = (components(a), components(b), components(c));
    assert forall|i: int| 0 <= i < cc.len() implies cc[i] == ca[i] by {
        assert(cc[i] == cb.take(cc.len() as int)[i]);
        assert(cb[i] == ca.take(cb.len() as int)[i]);
    }
    assert(cc =~= ca.take(cc.len() as int));
}

/// Whether the path has a directory to lie in: it is not empty and not the root.
pub open spec fn has_parent(path: Seq<u8>) -> bool {
    components(path).len() > 0 && components(path).last() != seq![SLASH]
}

/// Whether the path ends in a name of its own, not in `.` or `..`.
pub open spec fn has_file_name(path: Seq<u8>) -> bool {
    has_parent(path) && components(path).last() != seq![DOT] && components(path).last() != seq![
        DOT,
        DOT,
    ]
}

proof fn lemma_names_shape(path: Seq<u8>, leading: bool)
    ensures
        forall|i: int|
            0 <= i < names(path, leading).len() ==> is_child_name(
                #[trigger] names(path, leading)[i],
            ) || (i == 0 && leading && names(path, leading)[i] == seq![DOT]),
    decreases path.len(),
{
    if path.len() == 0 {
        assert(names(path, leading) =~= Seq::empty());
    } else {
        if path[0] == SLASH {
            lemma_names_shape(path.skip(1), false);
            assert(names(path, leading) == names(path.skip(1), false));
        } else {
            lemma_name_len(path);
            let name = path.take(name_len(path));
            let rest = names(path.skip(name_len(path)), false);
            lemma_names_shape(path.skip(name_len(path)), false);
            assert(name != seq![DOT] ==> is_child_name(name));
            assert forall|i: int| 0 <= i < names(path, leading).len() implies is_child_name(
                #[trigger] names(path, leading)[i],
            ) || (i == 0 && leading && names(path, leading)[i] == seq![DOT]) by {
                if name == seq![DOT] && !leading {
                    assert(names(path, leading)[i] == rest[i]);
                } else if i > 0 {
                    assert(names(path, leading)[i] == rest[i - 1]);
                } else {
                    assert(names(path, leading)[i] == name);
                }
            }
        }
    }
}

/// Every component but the first names a child; the first may also be the root,
/// or the directory the path is read in.
proof fn lemma_components_shape(path: Seq<u8>)
    ensures
        forall|i: int| 0 < i < components(path).len() ==> is_child_name(
            #[trigger] components(path)[i],
        ),
        components(path).len() > 0 ==> is_child_name(components(path)[0]) || components(path)[0]
            == seq![SLASH] || components(path)[0] == seq![DOT],
{
    lemma_names_shape(path, true);
    if path.len() > 0 && path[0] == SLASH {
        lemma_names_shape(path.skip(1), false);
        assert forall|i: int| 0 < i < components(path).len() implies is_child_name(
            #[trigger] components(path)[i],
        ) by {
            assert(components(path)[i] == names(path.skip(1), false)[i - 1]);
        }
    }
}

proof fn lemma_first_component(first: Seq<u8>)
    requires
        is_child_name(first) || first == seq![SLASH] || first == seq![DOT],
    ensures
        components(first) == seq![first],
{
    if is_child_name(first) {
        lemma_one_name(first, true);
    } else if first == seq![SLASH] {
        assert(first.skip(1) =~= Seq::empty());
        assert(names(Seq::empty(), false) =~= Seq::empty());
        assert(components(first) =~= seq![first]);
    } else {
        lemma_name_len(first);
        assert(first.take(1) =~= first);
        assert(first.skip(1) =~= Seq::empty());
        assert(names(Seq::empty(), false) =~= Seq::empty());
        assert(components(first) =~= seq![first]);
    }
}

/// The path of the first `count` components.
fn leading_path(parts: &Vec<Vec<u8>>, count: usize, Ghost(path): Ghost<Seq<u8>>) -> (r: Vec<u8>)
    requires
        views(parts@) == components(path),
        count <= parts@.len(),
    ensures
        components(r@) == components(path).take(count as int),
{
    let ghost all = components(path);
    proof {
        lemma_components_shape(path);
    }
    if count == 0 {
        let r: Vec<u8> = Vec::new();
        assert(r@ =~= Seq::empty());
        assert(components(r@) =~= Seq::empty());
        assert(all.take(0) =~= Seq::empty());
        return r;
    }
    let mut out = copy_bytes(parts[0].as_slice());
    proof {
        assert(all[0] == parts@[0]@);
        lemma_first_component(all[0]);
        assert(all.take(1) =~= seq![all[0]]);
    }
    let mut i: usize = 1;
    while i < count
        invariant
            1 <= i <= count <= parts@.len(),
            all == components(path),
            views(parts@) == all,
            components(out@) == all.take(i as int),
        decreases count - i,
    {
        proof {
            lemma_components_shape(path);
            assert(all[i as int] == parts@[i as int]@);
            law_a_child_is_one_component_down(out@, all[i as int]);
            assert(all.take(i as int).push(all[i as int]) =~= all.take(i + 1));
        }
        out = join(out.as_slice(), parts[i].as_slice());
        i = i + 1;
    }
    out
}

/// Whether a component is the root.
fn is_root(part: &[u8]) -> (r: bool)
    ensures
        r == (part@ == seq![SLASH]),
{
    let r = part.len() == 1 && part[0] == SLASH;
    assert(r ==> part@ =~= seq![SLASH]);
    r
}

/// The directory a path lies in.
pub fn parent(path: &[u8]) -> (r: Option<Vec<u8>>)
    ensures
        match r {
            Some(p) => has_parent(path@) && components(p@) == components(path@).drop_last(),
            None => !has_parent(path@),
        },
{
    let parts = path_components(path);
    if parts.len() == 0 {
        return None;
    }
    let last: usize = parts.len() - 1;
    assert(components(path@).last() == parts@[last as int]@);
    if is_root(parts[last].as_slice()) {
        return None;
    }
    let r = leading_path(&parts, last, Ghost(path@));
    assert(components(path@).take(last as int) =~= components(path@).drop_last());
    Some(r)
}

/// The name a path ends in.
pub fn file_name(path: &[u8]) -> (r: Option<Vec<u8>>)
    ensures
        match r {
            Some(n) => has_file_name(path@) && n@ == components(path@).last(),
            None => !has_file_name(path@),
        },
{
    let parts = path_components(path);
    if parts.len() == 0 {
        return None;
    }
    let part = parts[parts.len() - 1].as_slice();
    assert(components(path@).last() == part@);
    if is_root(part) {
        return None;
    }
    proof {
        assert(part@ =~= seq![DOT] <==> part@.len() == 1 && part@[0] == DOT);
        assert(part@ =~= seq![DOT, DOT] <==> part@.len() == 2 && part@[0] == DOT && part@[1]
            == DOT);
    }
    if part.len() == 1 && part[0] == DOT {
        return None;
    }
    if part.len() == 2 && part[0] == DOT && part[1] == DOT {
        return None;
    }
    Some(copy_bytes(part))
}

/// How many directories a path lies in, one within the other.
pub open spec fn ancestor_count(path: Seq<u8>) -> int {
    let parts = components(path);
    if parts.len() > 0 && parts[0] == seq![SLASH] {
        parts.len() - 1
    } else {
        parts.len() as int
    }
}

/// The directories a path lies in, the nearest first.
pub fn ancestors(path: &[u8]) -> (r: Vec<Vec<u8>>)
    ensures
        r@.len() == ancestor_count(path@),
        forall|i: int|
            0 <= i < r@.len() ==> components((#[trigger] r@[i])@) == components(path@).take(
                components(path@).len() - 1 - i,
            ),
{
    let parts = path_components(path);
    let ghost all = components(path@);
    let mut out: Vec<Vec<u8>> = Vec::new();
    let mut left: usize = parts.len();
    let mut floor: usize = 0;
    if parts.len() > 0 {
        assert(all[0] == parts@[0]@);
        if is_root(parts[0].as_slice()) {
            floor = 1;
        }
    }
    while left > floor
        invariant
            floor <= left <= parts@.len(),
            all == components(path@),
            views(parts@) == all,
            out@.len() == parts@.len() - left,
            forall|i: int|
                0 <= i < out@.len() ==> components((#[trigger] out@[i])@) == all.take(
                    all.len() - 1 - i,
                ),
        decreases left,
    {
        left = left - 1;
        let dir = leading_path(&parts, left, Ghost(path@));
        out.push(dir);
    }
    out
}

/// Pieces written one behind the other, each behind a separator.
pub open spec fn written(pieces: Seq<Seq<u8>>) -> Seq<u8>
    decreases pieces.len(),
{
    if pieces.len() == 0 {
        Seq::empty()
    } else {
        seq![47u8] + pieces.first() + written(pieces.drop_first())
    }
}

/// The pieces that are names: not empty, and not `.`.
pub open spec fn named(pieces: Seq<Seq<u8>>) -> Seq<Seq<u8>>
    decreases pieces.len(),
{
    if pieces.len() == 0 {
        Seq::empty()
    } else if pieces.first().len() == 0 || pieces.first() == seq![46u8] {
        named(pieces.drop_first())
    } else {
        seq![pieces.first()] + named(pieces.drop_first())
    }
}

/// Whether no separator is in any of the pieces.
pub open spec fn are_pieces(pieces: Seq<Seq<u8>>) -> bool {
    forall|i: int, j: int|
        0 <= i < pieces.len() && 0 <= j < pieces[i].len() ==> #[trigger] pieces[i][j] != 47
}

proof fn lemma_name_ends_at_a_separator(name: Seq<u8>, rest: Seq<u8>)
    requires
        forall|j: int| 0 <= j < name.len() ==> #[trigger] name[j] != SLASH,
        rest.len() > 0 ==> rest[0] == SLASH,
    ensures
        name_len(name + rest) == name.len(),
    decreases name.len(),
{
    let all = name + rest;
    if name.len() > 0 {
        assert(all[0] == name[0]);
        assert(all.skip(1) =~= name.skip(1) + rest);
        assert forall|j: int| 0 <= j < name.skip(1).len() implies #[trigger] name.skip(1)[j]
            != SLASH by {
            assert(name.skip(1)[j] == name[j + 1]);
        }
        lemma_name_ends_at_a_separator(name.skip(1), rest);
    }
}

proof fn lemma_pieces_are_names(pieces: Seq<Seq<u8>>)
    requires
        are_pieces(pieces),
    ensures
        names(written(pieces), false) == named(pieces),
        pieces.len() > 0 ==> written(pieces)[0] == SLASH,
    decreases pieces.len(),
{
    if pieces.len() == 0 {
        assert(names(written(pieces), false) =~= named(pieces));
    } else {
        let first = pieces.first();
        let later = pieces.drop_first();
        let rest = written(later);
        assert forall|i: int, j: int|
            0 <= i < later.len() && 0 <= j < later[i].len() implies #[trigger] later[i][j]
            != 47 by {
            assert(later[i][j] == pieces[i + 1][j]);
        }
        lemma_pieces_are_names(later);
        let path = written(pieces);
        assert(path[0] == SLASH);
        let tail = path.skip(1);
        assert(tail =~= first + rest);
        assert(names(path, false) == names(tail, false));
        if first.len() == 0 {
            assert(tail =~= rest);
        } else {
            assert forall|j: int| 0 <= j < first.len() implies #[trigger] first[j] != SLASH by {
                assert(first[j] == pieces[0][j]);
            }
            lemma_name_ends_at_a_separator(first, rest);
            assert(tail[0] == first[0]);
            assert(tail.take(first.len() as int) =~= first);
            assert(tail.skip(first.len() as int) =~= rest);
        }
    }
}

/// A path reads back as the names it was written with. An absolute path has the root ahead
/// of them; empty pieces and `.` are no names; and where a relative path starts with a name,
/// or with a `.`, that comes first.
pub proof fn law_a_path_reads_back(first: Seq<u8>, pieces: Seq<Seq<u8>>)
    requires
        are_pieces(pieces),
        forall|j: int| 0 <= j < first.len() ==> #[trigger] first[j] != 47,
    ensures
        pieces.len() > 0 ==> components(written(pieces)) == seq![seq![47u8]] + named(pieces),
        first.len() > 0 ==> components(first + written(pieces)) == seq![first] + named(pieces),
        components(Seq::empty()) == Seq::<Seq<u8>>::empty(),
{
    lemma_pieces_are_names(pieces);
    let rest = written(pieces);
    if pieces.len() > 0 {
        assert(names(rest, false) == names(rest.skip(1), false));
    }
    if first.len() > 0 {
        let path = first + rest;
        lemma_name_ends_at_a_separator(first, rest);
        assert(path[0] == first[0]);
        assert(path.take(first.len() as int) =~= first);
        assert(path.skip(first.len() as int) =~= rest);
    }
    assert(names(Seq::empty(), true) =~= Seq::empty());
}

/// A path lies at or beneath another one exactly if it has the other's components and then
/// some, or none, of its own; and strictly beneath it exactly if it has some.
pub proof fn law_what_lies_beneath_has_more_components(path: Seq<u8>, base: Seq<u8>)
    ensures
        at_or_under(path, base) <==> exists|more: Seq<Seq<u8>>|
            components(path) == #[trigger] (components(base) + more),
        strictly_under(path, base) <==> exists|more: Seq<Seq<u8>>|
            components(path) == #[trigger] (components(base) + more) && more.len() > 0,
{
    let (cp, cb) = (components(path), components(base));
    if at_or_under(path, base) {
        let more = cp.skip(cb.len() as int);
        assert(cp =~= cb + more);
        if cp != cb {
            assert(more.len() > 0) by {
                if more.len() == 0 {
                    assert(cp =~= cb);
                }
            }
        }
    }
    if exists|more: Seq<Seq<u8>>| cp == #[trigger] (cb + more) {
        let more = choose|more: Seq<Seq<u8>>| cp == #[trigger] (cb + more);
        assert(cb =~= cp.take(cb.len() as int));
    }
    if exists|more: Seq<Seq<u8>>| cp == #[trigger] (cb + more) && more.len() > 0 {
        let more = choose|more: Seq<Seq<u8>>| cp == #[trigger] (cb + more) && more.len() > 0;
        assert(cb =~= cp.take(cb.len() as int));
        assert(cp.len() > cb.len());
    }
}

/// A join ends in the name. An absolute name stands alone; any other one comes behind the
/// base, with exactly one slash between them where the base has something to part from it.
pub proof fn law_a_join_ends_in_its_name(base: Seq<u8>, name: Seq<u8>)
    ensures
        ({
            let path = joined(base, name);
            let ahead = path.len() - name.len();
            &&& 0 <= ahead && path.skip(ahead) == name
            &&& name.len() > 0 && name[0] == 47 ==> ahead == 0
            &&& !(name.len() > 0 && name[0] == 47) ==> {
                &&& base.is_prefix_of(path)
                &&& base.len() == 0 ==> ahead == 0
                &&& base.len() > 0 ==> path[ahead - 1] == 47
                &&& ahead == base.len() || (ahead == base.len() + 1 && base.last() != 47)
            }
        }),
{
    let path = joined(base, name);
    let ahead = path.len() - name.len();
    assert(path.skip(ahead) =~= name);
    if !(name.len() > 0 && name[0] == 47) {
        assert(base =~= path.take(base.len() as int));
    }
}

/// A path has a file name exactly if its last component is a name: not the root, `.` or
/// `..`. It has a parent exactly if it has a component and is not the root. As many
/// directories lie above it as it has components behind the root.
pub proof fn law_a_path_goes_by_its_last_component(path: Seq<u8>)
    ensures
        ({
            let parts = components(path);
            let is_root = parts.len() > 0 && parts.last() == seq![47u8];
            &&& has_parent(path) <==> parts.len() > 0 && !is_root
            &&& has_file_name(path) <==> parts.len() > 0 && !is_root && parts.last() != seq![46u8]
                && parts.last() != seq![46u8, 46u8]
            &&& parts.len() > 0 && parts.first() == seq![47u8] ==> ancestor_count(path)
                == parts.len() - 1
            &&& !(parts.len() > 0 && parts.first() == seq![47u8]) ==> ancestor_count(path)
                == parts.len()
        }),
{
}

} // verus!
