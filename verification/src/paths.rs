//! File paths as text: names, extensions, joining, and the order in which
//! paths are listed. Paths are read by the rules of Unix, with `/` as the separator.
use vstd::prelude::*;

use crate::text::{
    from_chars, text_less, text_order_is_total, text_order_is_transitive, to_chars,
};

verus! {

/// The lower-case form of a text, as `str::to_lowercase` gives it.
pub uninterp spec fn lowercase(s: Seq<char>) -> Seq<char>;

/// The text of a path without its final component, as `std::path::Path::parent` gives
/// it.
pub uninterp spec fn path_parent(path: Seq<char>) -> Option<Seq<char>>;

/// The parts of a path between its slashes.
pub open spec fn parts(path: Seq<char>) -> Seq<Seq<char>>
    decreases path.len(),
{
    if path.len() == 0 {
        seq![seq![]]
    } else {
        let before = parts(path.drop_last());
        if path.last() == '/' {
            before.push(seq![])
        } else {
            before.drop_last().push(before.last().push(path.last()))
        }
    }
}

/// The parts that count: no empty ones and no single dots.
pub open spec fn counted_parts(all: Seq<Seq<char>>) -> Seq<Seq<char>>
    decreases all.len(),
{
    if all.len() == 0 {
        seq![]
    } else {
        let before = counted_parts(all.drop_last());
        if all.last().len() == 0 || all.last() == seq!['.'] {
            before
        } else {
            before.push(all.last())
        }
    }
}

/// What a path begins with: the root, or the single dot of a relative path.
pub open spec fn lead(path: Seq<char>) -> Seq<Seq<char>> {
    if path.len() > 0 && path[0] == '/' {
        seq![seq!['/']]
    } else if path.len() > 0 && path[0] == '.' && (path.len() == 1 || path[1] == '/') {
        seq![seq!['.']]
    } else {
        seq![]
    }
}

/// The components of a path. Repeated slashes, a slash at the end, and single dots but
/// at the beginning make no difference.
pub open spec fn components(path: Seq<char>) -> Seq<Seq<char>> {
    lead(path) + counted_parts(parts(path))
}

/// The place of a component among the kinds: the root, a single dot, two dots, a name.
pub open spec fn kind_of_component(component: Seq<char>) -> int {
    if component == seq!['/'] {
        0
    } else if component == seq!['.'] {
        1
    } else if component == seq!['.', '.'] {
        2
    } else {
        3
    }
}

/// Whether one component comes before another: by its kind, and names by their text.
pub open spec fn component_less(a: Seq<char>, b: Seq<char>) -> bool {
    kind_of_component(a) < kind_of_component(b) || (kind_of_component(a) == 3
        && kind_of_component(b) == 3 && text_less(a, b))
}

/// Whether some components come before others, the first that differ deciding.
pub open spec fn components_less(a: Seq<Seq<char>>, b: Seq<Seq<char>>) -> bool
    decreases a.len(),
{
    if b.len() == 0 {
        false
    } else if a.len() == 0 {
        true
    } else if a[0] != b[0] {
        component_less(a[0], b[0])
    } else {
        components_less(a.skip(1), b.skip(1))
    }
}

/// Whether one path comes before another, or is the same, component by component.
pub open spec fn path_le(a: Seq<char>, b: Seq<char>) -> bool {
    !components_less(components(b), components(a))
}

/// Whether two paths are the same path, though they may be written differently.
pub open spec fn same_path(a: Seq<char>, b: Seq<char>) -> bool {
    components(a) == components(b)
}

/// Whether a path has a final component other than the root.
pub open spec fn has_parent(path: Seq<char>) -> bool {
    components(path).len() > 0 && kind_of_component(components(path).last()) != 0
}

/// The final component of a path, where it is a name.
pub open spec fn path_file_name(path: Seq<char>) -> Option<Seq<char>> {
    let c = components(path);
    if c.len() > 0 && kind_of_component(c.last()) == 3 {
        Some(c.last())
    } else {
        None
    }
}

proof fn lemma_component_order(a: Seq<char>, b: Seq<char>)
    ensures
        a == b ==> !component_less(a, b),
        a != b ==> component_less(a, b) != component_less(b, a),
{
    text_order_is_total(a, b);
}

proof fn lemma_component_order_is_transitive(a: Seq<char>, b: Seq<char>, c: Seq<char>)
    requires
        component_less(a, b),
        component_less(b, c),
    ensures
        component_less(a, c),
{
    if kind_of_component(a) == 3 {
        text_order_is_transitive(a, b, c);
    }
}

proof fn lemma_components_order(a: Seq<Seq<char>>, b: Seq<Seq<char>>)
    ensures
        a == b ==> !components_less(a, b),
        a != b ==> components_less(a, b) != components_less(b, a),
    decreases a.len(),
{
    if a.len() > 0 && b.len() > 0 {
        lemma_component_order(a[0], b[0]);
        if a[0] == b[0] {
            lemma_components_order(a.skip(1), b.skip(1));
            if a.skip(1) == b.skip(1) {
                assert(a =~= seq![a[0]] + a.skip(1));
                assert(b =~= seq![b[0]] + b.skip(1));
            }
        }
    } else if a.len() == 0 && b.len() == 0 {
        assert(a =~= b);
    }
}

proof fn lemma_components_order_is_transitive(
    a: Seq<Seq<char>>,
    b: Seq<Seq<char>>,
    c: Seq<Seq<char>>,
)
    requires
        components_less(a, b),
        components_less(b, c),
    ensures
        components_less(a, c),
    decreases a.len(),
{
    if a.len() > 0 {
        if a[0] == b[0] && b[0] == c[0] {
            lemma_components_order_is_transitive(a.skip(1), b.skip(1), c.skip(1));
        } else if a[0] != b[0] && b[0] != c[0] {
            lemma_component_order_is_transitive(a[0], b[0], c[0]);
            lemma_component_order(a[0], c[0]);
        }
    }
}

/// Of two paths one comes before the other or is the same, and only of the same path
/// both hold.
pub proof fn path_order_is_total(a: Seq<char>, b: Seq<char>)
    ensures
        path_le(a, b) || path_le(b, a),
        path_le(a, b) && path_le(b, a) <==> same_path(a, b),
{
    lemma_components_order(components(a), components(b));
    lemma_components_order(components(b), components(a));
}

/// What does not come after a path that does not come after a third does not come after
/// the third.
pub proof fn path_order_is_transitive(a: Seq<char>, b: Seq<char>, c: Seq<char>)
    requires
        path_le(a, b),
        path_le(b, c),
    ensures
        path_le(a, c),
{
    let (x, y, z) = (components(a), components(b), components(c));
    lemma_components_order(x, y);
    lemma_components_order(y, z);
    lemma_components_order(x, z);
    if components_less(z, x) && x != y && y != z {
        lemma_components_order_is_transitive(x, y, z);
    }
}

/// An optional text as an optional sequence of characters.
pub open spec fn text_view(s: Option<String>) -> Option<Seq<char>> {
    match s {
        Some(t) => Some(t@),
        None => None,
    }
}

/// `std::path::Path::file_name` gives the final component of the path, or
/// nothing where the path ends in `..` or has no component that is a name.
#[verifier::external_body]
pub(crate) fn file_name(path: &str) -> (r: Option<String>)
    ensures
        text_view(r) == path_file_name(path@),
{
    std::path::Path::new(path).file_name().map(|name| name.to_string_lossy().into_owned())
}

/// `std::path::Path::parent` gives the path without its final component, or
/// nothing where it ends in a root or has no component. How the result is written is
/// named, not stated; it is a function of the path.
#[verifier::external_body]
pub(crate) fn parent(path: &str) -> (r: Option<String>)
    ensures
        text_view(r) == path_parent(path@),
        match r {
            Some(p) => has_parent(path@) && components(p@) == components(path@).drop_last(),
            None => !has_parent(path@),
        },
{
    std::path::Path::new(path).parent().map(|p| p.to_string_lossy().into_owned())
}

/// `str::to_lowercase` gives the lower-case form by the Unicode tables. The
/// result is a function of the text.
#[verifier::external_body]
pub(crate) fn to_lowercase(s: &str) -> (r: String)
    ensures
        r@ == lowercase(s@),
{
    s.to_lowercase()
}

/// The comparison of `std::path::Path` goes by components: the first that differ decide,
/// the root coming before a single dot, that before two dots, and those before names,
/// which compare as texts.
#[verifier::external_body]
fn is_path_at_most(a: &str, b: &str) -> (r: bool)
    ensures
        r == path_le(a@, b@),
{
    std::path::Path::new(a) <= std::path::Path::new(b)
}

/// Whether one path comes before another, or is the same. The order is total.
pub(crate) fn path_before_or_equal(a: &str, b: &str) -> (r: bool)
    ensures
        r == path_le(a@, b@),
        r || path_le(b@, a@),
        forall|c: Seq<char>| r && #[trigger] path_le(b@, c) ==> path_le(a@, c),
        forall|c: Seq<char>|
            !r && #[trigger] path_le(a@, c) ==> path_le(b@, c) && !path_le(c, b@),
{
    let r = is_path_at_most(a, b);
    proof {
        path_order_is_total(a@, b@);
        assert forall|c: Seq<char>| r && #[trigger] path_le(b@, c) implies path_le(a@, c) by {
            path_order_is_transitive(a@, b@, c);
        }
        assert forall|c: Seq<char>| !r && #[trigger] path_le(a@, c) implies path_le(b@, c)
            && !path_le(c, b@) by {
            path_order_is_transitive(b@, a@, c);
            if path_le(c, b@) {
                path_order_is_transitive(a@, c, b@);
            }
        }
    }
    r
}

/// Components one after the other, each with a slash behind it.
pub open spec fn glued(all: Seq<Seq<char>>) -> Seq<char>
    decreases all.len(),
{
    if all.len() == 0 {
        seq![]
    } else {
        glued(all.drop_last()) + all.last().push('/')
    }
}

/// The one text of a path, however it is written.
pub open spec fn canonical(path: Seq<char>) -> Seq<char> {
    glued(components(path))
}

/// Writes the one text of a path, however it is written.
pub fn canonical_path(path: &str) -> (r: String)
    ensures
        r@ == canonical(path@),
{
    let chars = to_chars(path);
    let n: usize = chars.len();
    let mut out: Vec<char> = Vec::new();
    let ghost first = lead(path@);
    if n > 0 && chars[0] == '/' {
        out.push('/');
        out.push('/');
        assert(glued(first.drop_last()) =~= seq![]);
        assert(out@ =~= glued(first));
    } else if n > 0 && chars[0] == '.' && (n == 1 || chars[1] == '/') {
        out.push('.');
        out.push('/');
        assert(glued(first.drop_last()) =~= seq![]);
        assert(out@ =~= glued(first));
    } else {
        assert(out@ =~= glued(first));
    }
    let ghost mut done: Seq<Seq<char>> = seq![];
    let mut part: Vec<char> = Vec::new();
    let mut i: usize = 0;
    assert(parts(chars@.take(0)) =~= done.push(part@));
    assert(first + counted_parts(done) =~= first);
    while i < n
        invariant
            n == chars@.len(),
            chars@ == path@,
            i <= n,
            first == lead(path@),
            parts(chars@.take(i as int)) == done.push(part@),
            out@ == glued(first + counted_parts(done)),
        decreases n - i,
    {
        let ghost now = chars@.take(i + 1);
        let ghost before = done.push(part@);
        assert(now.drop_last() =~= chars@.take(i as int));
        assert(now.last() == chars@[i as int]);
        assert(before.drop_last() =~= done);
        if chars[i] == '/' {
            let ghost ended = part@;
            flush(&mut out, &part, Ghost(first), Ghost(done));
            part = Vec::new();
            proof {
                done = done.push(ended);
            }
            assert(part@ =~= seq![]);
        } else {
            part.push(chars[i]);
        }
        i = i + 1;
        assert(parts(chars@.take(i as int)) =~= done.push(part@));
    }
    assert(chars@.take(n as int) =~= path@);
    flush(&mut out, &part, Ghost(first), Ghost(done));
    from_chars(&out)
}

fn flush(
    out: &mut Vec<char>,
    part: &Vec<char>,
    Ghost(first): Ghost<Seq<Seq<char>>>,
    Ghost(done): Ghost<Seq<Seq<char>>>,
)
    requires
        old(out)@ == glued(first + counted_parts(done)),
    ensures
        final(out)@ == glued(first + counted_parts(done.push(part@))),
{
    let ghost all = done.push(part@);
    let ghost before = first + counted_parts(done);
    assert(all.drop_last() =~= done);
    assert(part@.len() == 1 && part@[0] == '.' ==> part@ =~= seq!['.']);
    if part.len() == 0 || (part.len() == 1 && part[0] == '.') {
        return;
    }
    assert(part@ != seq!['.']) by {
        if part@ == seq!['.'] {
            assert(part@[0] == '.' && part@.len() == 1);
        }
    }
    let ghost next = first + counted_parts(all);
    assert(next =~= before.push(part@));
    assert(next.drop_last() =~= before);
    let mut i: usize = 0;
    while i < part.len()
        invariant
            i <= part@.len(),
            out@ == glued(before) + part@.take(i as int),
        decreases part@.len() - i,
    {
        out.push(part[i]);
        i = i + 1;
        assert(out@ =~= glued(before) + part@.take(i as int));
    }
    out.push('/');
    assert(part@.take(i as int) =~= part@);
    assert(out@ =~= glued(before) + part@.push('/'));
}

/// Whether every component is written with at least one character, and none but a
/// leading root with a slash.
spec fn are_plain(all: Seq<Seq<char>>) -> bool {
    forall|i: int|
        0 <= i < all.len() ==> (#[trigger] all[i]).len() > 0 && (!all[i].contains('/') || (i == 0
            && all[i] == seq!['/']))
}

proof fn lemma_parts_are_plain(path: Seq<char>)
    ensures
        parts(path).len() > 0,
        forall|i: int| 0 <= i < parts(path).len() ==> !(#[trigger] parts(path)[i]).contains('/'),
    decreases path.len(),
{
    if path.len() > 0 {
        lemma_parts_are_plain(path.drop_last());
        let before = parts(path.drop_last());
        if path.last() != '/' {
            let part = before.last().push(path.last());
            assert(!before[before.len() - 1].contains('/'));
            assert(!part.contains('/')) by {
                if part.contains('/') {
                    let k = choose|k: int| 0 <= k < part.len() && part[k] == '/';
                    assert(k < before.last().len());
                    assert(before.last()[k] == '/');
                }
            }
        }
    }
}

proof fn lemma_counted_are_plain(all: Seq<Seq<char>>)
    requires
        forall|i: int| 0 <= i < all.len() ==> !(#[trigger] all[i]).contains('/'),
    ensures
        forall|i: int|
            0 <= i < counted_parts(all).len() ==> (#[trigger] counted_parts(all)[i]).len() > 0
                && !counted_parts(all)[i].contains('/'),
    decreases all.len(),
{
    if all.len() > 0 {
        let rest = all.drop_last();
        assert forall|i: int| 0 <= i < rest.len() implies !(#[trigger] rest[i]).contains('/') by {
            assert(rest[i] == all[i]);
        }
        lemma_counted_are_plain(rest);
        assert(!all[all.len() - 1].contains('/'));
        let before = counted_parts(rest);
        let now = counted_parts(all);
        assert forall|i: int| 0 <= i < now.len() implies (#[trigger] now[i]).len() > 0
            && !now[i].contains('/') by {
            if i < before.len() {
                assert(now[i] == before[i]);
            }
        }
    }
}

proof fn lemma_components_are_plain(path: Seq<char>)
    ensures
        are_plain(components(path)),
{
    lemma_parts_are_plain(path);
    lemma_counted_are_plain(parts(path));
    let c = components(path);
    let names = counted_parts(parts(path));
    assert forall|i: int| 0 <= i < c.len() implies (#[trigger] c[i]).len() > 0 && (!c[i].contains(
        '/',
    ) || (i == 0 && c[i] == seq!['/'])) by {
        if i >= lead(path).len() {
            assert(c[i] == names[i - lead(path).len()]);
        } else {
            assert(!seq!['.'].contains('/'));
        }
    }
}

proof fn lemma_glued_is_unique(a: Seq<Seq<char>>, b: Seq<Seq<char>>)
    requires
        are_plain(a),
        are_plain(b),
        glued(a) == glued(b),
    ensures
        a == b,
    decreases a.len(),
{
    if a.len() == 0 || b.len() == 0 {
        assert(a.len() > 0 ==> glued(a).len() > 0);
        assert(b.len() > 0 ==> glued(b).len() > 0);
        assert(a =~= b);
    } else {
        let (c, d) = (a.drop_last(), b.drop_last());
        let (x, y) = (a.last(), b.last());
        assert(x == a[a.len() - 1] && y == b[b.len() - 1]);
        assert forall|i: int| 0 <= i < c.len() implies c[i] == #[trigger] a[i] by {}
        assert forall|i: int| 0 <= i < d.len() implies d[i] == #[trigger] b[i] by {}
        assert(are_plain(c) && are_plain(d));
        lemma_last_is_unique(a, b);
        lemma_last_is_unique(b, a);
        assert(x.len() == y.len());
        let g = glued(a);
        assert(g.skip(glued(c).len() as int) =~= x.push('/'));
        assert(g.skip(glued(d).len() as int) =~= y.push('/'));
        assert(x =~= x.push('/').drop_last());
        assert(y =~= y.push('/').drop_last());
        assert(x == y);
        assert(glued(c) =~= g.take(glued(c).len() as int));
        assert(glued(d) =~= g.take(glued(d).len() as int));
        lemma_glued_is_unique(c, d);
        assert(a =~= c.push(x));
        assert(b =~= d.push(y));
    }
}

proof fn lemma_last_is_unique(a: Seq<Seq<char>>, b: Seq<Seq<char>>)
    requires
        are_plain(a),
        are_plain(b),
        a.len() > 0,
        b.len() > 0,
        glued(a) == glued(b),
    ensures
        a.last().len() <= b.last().len(),
{
    let (x, y) = (a.last(), b.last());
    let (c, d) = (a.drop_last(), b.drop_last());
    assert(x == a[a.len() - 1] && y == b[b.len() - 1]);
    let g = glued(a);
    if y.len() < x.len() {
        // The slash that ends what stands before the last component of `b` falls into
        // the last component of `a`.
        let before = glued(d);
        assert(before.len() > 0);
        assert(d.len() > 0);
        assert(before.last() == '/');
        let at = before.len() - 1;
        assert(g[at] == '/');
        let k = at - glued(c).len();
        assert(g.len() == glued(c).len() + x.len() + 1);
        assert(g.len() == glued(d).len() + y.len() + 1);
        assert(0 <= k < x.len());
        assert(x[k] == g[at]);
        assert(x.contains('/'));
        assert(x =~= seq!['/']);
    }
}

/// Two texts of paths are the same exactly where the paths are.
pub proof fn canonical_tells_paths_apart(a: Seq<char>, b: Seq<char>)
    ensures
        canonical(a) == canonical(b) <==> same_path(a, b),
{
    lemma_components_are_plain(a);
    lemma_components_are_plain(b);
    if canonical(a) == canonical(b) {
        lemma_glued_is_unique(components(a), components(b));
    }
}

/// The place of the last dot of a name, or -1.
pub open spec fn last_dot(name: Seq<char>) -> int
    decreases name.len(),
{
    if name.len() == 0 {
        -1
    } else if name.last() == '.' {
        name.len() - 1
    } else {
        last_dot(name.drop_last())
    }
}

/// The extension of a file name: what follows its last dot, unless that dot is
/// its first character.
pub open spec fn name_extension(name: Seq<char>) -> Option<Seq<char>> {
    if last_dot(name) > 0 && name != seq!['.', '.'] {
        Some(name.skip(last_dot(name) + 1))
    } else {
        None
    }
}

/// The extension of a path.
pub open spec fn path_extension(path: Seq<char>) -> Option<Seq<char>> {
    match path_file_name(path) {
        Some(name) => name_extension(name),
        None => None,
    }
}

/// The extension of a file name.
pub fn extension_of_name(name: &str) -> (r: Option<String>)
    ensures
        text_view(r) == name_extension(name@),
{
    let chars = to_chars(name);
    let mut i: usize = chars.len();
    assert(chars@.take(i as int) =~= chars@);
    while i > 0 && chars[i - 1] != '.'
        invariant
            i <= chars@.len(),
            last_dot(chars@.take(i as int)) == last_dot(chars@),
        decreases i,
    {
        assert(chars@.take(i as int).drop_last() =~= chars@.take(i - 1));
        i = i - 1;
    }
    assert(last_dot(chars@) == i - 1);
    if i <= 1 || (chars.len() == 2 && chars[0] == '.' && chars[1] == '.') {
        assert(chars@.len() == 2 && chars@[0] == '.' && chars@[1] == '.' ==> chars@ =~= seq![
            '.',
            '.',
        ]);
        return None;
    }
    assert(chars@ != seq!['.', '.']) by {
        if chars@ == seq!['.', '.'] {
            assert(chars@[0] == '.' && chars@[1] == '.');
        }
    }
    let mut rest: Vec<char> = Vec::new();
    let start: usize = i;
    while i < chars.len()
        invariant
            start <= i <= chars@.len(),
            rest@ == chars@.subrange(start as int, i as int),
        decreases chars@.len() - i,
    {
        rest.push(chars[i]);
        i = i + 1;
        assert(rest@ =~= chars@.subrange(start as int, i as int));
    }
    assert(rest@ =~= name@.skip(start as int));
    Some(from_chars(&rest))
}

/// The extension of a path.
pub fn extension(path: &str) -> (r: Option<String>)
    ensures
        text_view(r) == path_extension(path@),
{
    match file_name(path) {
        Some(name) => extension_of_name(&name),
        None => None,
    }
}

/// A name below a directory.
pub open spec fn joined(dir: Seq<char>, name: Seq<char>) -> Seq<char> {
    if dir.len() == 0 || dir.last() == '/' {
        dir + name
    } else {
        dir.push('/') + name
    }
}

/// A relative name below a directory.
pub fn join(dir: &str, name: &str) -> (r: String)
    ensures
        r@ == joined(dir@, name@),
{
    let chars = to_chars(dir);
    let mut out = dir.to_owned();
    if chars.len() > 0 && chars[chars.len() - 1] != '/' {
        out.push('/');
    }
    out.push_str(name);
    out
}

/// Whether two paths are the same path.
pub fn is_same_path(a: &str, b: &str) -> (r: bool)
    ensures
        r == same_path(a@, b@),
{
    proof {
        path_order_is_total(a@, b@);
    }
    path_before_or_equal(a, b) && path_before_or_equal(b, a)
}

proof fn lemma_parts_of_joined(dir: Seq<char>, name: Seq<char>)
    requires
        !name.contains('/'),
    ensures
        parts(dir.push('/') + name) == parts(dir).push(name),
    decreases name.len(),
{
    let path = dir.push('/') + name;
    lemma_parts_are_plain(dir);
    if name.len() == 0 {
        assert(path =~= dir.push('/'));
        assert(path.drop_last() =~= dir);
        assert(name =~= Seq::<char>::empty());
        assert(parts(path) =~= parts(dir).push(name));
    } else {
        let less = name.drop_last();
        assert(!less.contains('/')) by {
            if less.contains('/') {
                let k = choose|k: int| 0 <= k < less.len() && less[k] == '/';
                assert(name[k] == '/');
            }
        }
        lemma_parts_of_joined(dir, less);
        assert(path.drop_last() =~= dir.push('/') + less);
        assert(path.last() == name.last());
        assert(name[name.len() - 1] != '/');
        assert(name =~= less.push(name.last()));
        let before = parts(path.drop_last());
        assert(before.drop_last() =~= parts(dir));
        assert(parts(path) =~= parts(dir).push(name));
    }
}

/// Whether a text is the name of a file or a folder: it is not empty, has no slash, and
/// is neither of the two names that only point to a directory.
pub open spec fn is_name(name: Seq<char>) -> bool {
    &&& name.len() > 0
    &&& !name.contains('/')
    &&& name != seq!['.']
    &&& name != seq!['.', '.']
}

proof fn lemma_name_is_kind_three(name: Seq<char>)
    requires
        is_name(name),
    ensures
        kind_of_component(name) == 3,
{
    if name == seq!['/'] {
        assert(name[0] == '/');
    }
}

/// A name below a directory adds one component to it, and is the file name of the path,
/// however the directory ends.
pub proof fn joined_path_ends_in_the_name(dir: Seq<char>, name: Seq<char>)
    requires
        is_name(name),
    ensures
        components(joined(dir, name)) == components(dir).push(name),
        path_file_name(joined(dir, name)) == Some(name),
{
    lemma_name_is_kind_three(name);
    let path = joined(dir, name);
    if dir.len() == 0 {
        let empty = Seq::<char>::empty();
        assert(path =~= name);
        lemma_parts_without_slash(name);
        assert(parts(dir) =~= seq![empty]);
        let nothing = Seq::<Seq<char>>::empty();
        assert(counted_parts(nothing) =~= nothing);
        assert(parts(dir).drop_last() =~= nothing);
        assert(parts(dir).last() == empty);
        assert(counted_parts(parts(dir)) =~= nothing);
        assert(parts(name).drop_last() =~= nothing);
        assert(counted_parts(parts(name)) =~= seq![name]);
        assert(lead(name) =~= seq![]) by {
            assert(name[0] != '/');
            if name.len() == 1 && name[0] == '.' {
                assert(name =~= seq!['.']);
            }
        }
        assert(components(path) =~= components(dir).push(name));
    } else if dir.last() == '/' {
        let base = dir.drop_last();
        assert(dir =~= base.push('/'));
        assert(path =~= base.push('/') + name);
        lemma_parts_of_joined(base, name);
        lemma_parts_of_joined(base, Seq::<char>::empty());
        assert(base.push('/') + Seq::<char>::empty() =~= dir);
        assert(parts(path).drop_last() =~= parts(base));
        assert(parts(dir).drop_last() =~= parts(base));
        assert(lead(path) =~= lead(dir)) by {
            assert(path[0] == dir[0]);
            if dir.len() > 1 {
                assert(path[1] == dir[1]);
            }
        }
        assert(components(path) =~= components(dir).push(name));
    } else {
        lemma_parts_of_joined(dir, name);
        assert(parts(path).drop_last() =~= parts(dir));
        assert(lead(path) =~= lead(dir)) by {
            assert(path[0] == dir[0]);
            if dir.len() > 1 {
                assert(path[1] == dir[1]);
            } else {
                assert(path[1] == '/');
            }
        }
        assert(components(path) =~= components(dir).push(name));
    }
}

proof fn lemma_parts_without_slash(name: Seq<char>)
    requires
        !name.contains('/'),
    ensures
        parts(name) == seq![name],
    decreases name.len(),
{
    if name.len() > 0 {
        let less = name.drop_last();
        assert(!less.contains('/')) by {
            if less.contains('/') {
                let k = choose|k: int| 0 <= k < less.len() && less[k] == '/';
                assert(name[k] == '/');
            }
        }
        lemma_parts_without_slash(less);
        assert(name[name.len() - 1] != '/');
        assert(name =~= less.push(name.last()));
        assert(parts(name) =~= seq![name]);
    } else {
        assert(name =~= seq![]);
        assert(parts(name) =~= seq![name]);
    }
}

/// A slash at the end of a path makes no difference.
pub proof fn slash_at_the_end_makes_no_difference(path: Seq<char>)
    requires
        path.len() > 0,
    ensures
        same_path(path, path.push('/')),
        canonical(path) == canonical(path.push('/')),
{
    let long = path.push('/');
    assert(long.drop_last() =~= path);
    assert(parts(long).drop_last() =~= parts(path));
    assert(lead(long) =~= lead(path)) by {
        assert(long[0] == path[0]);
        if path.len() > 1 {
            assert(long[1] == path[1]);
        } else {
            assert(long[1] == '/');
        }
    }
    assert(components(long) =~= components(path));
}

proof fn lemma_last_dot_behind(stem: Seq<char>, ext: Seq<char>)
    requires
        !ext.contains('.'),
    ensures
        last_dot(stem.push('.') + ext) == stem.len(),
    decreases ext.len(),
{
    let name = stem.push('.') + ext;
    if ext.len() == 0 {
        assert(name =~= stem.push('.'));
    } else {
        let less = ext.drop_last();
        assert(!less.contains('.')) by {
            if less.contains('.') {
                let k = choose|k: int| 0 <= k < less.len() && less[k] == '.';
                assert(ext[k] == '.');
            }
        }
        lemma_last_dot_behind(stem, less);
        assert(ext[ext.len() - 1] != '.');
        assert(name.drop_last() =~= stem.push('.') + less);
        assert(name.last() == ext.last());
    }
}

proof fn lemma_no_dot(name: Seq<char>)
    requires
        !name.contains('.'),
    ensures
        last_dot(name) == -1,
    decreases name.len(),
{
    if name.len() > 0 {
        assert(name[name.len() - 1] != '.');
        let less = name.drop_last();
        assert(!less.contains('.')) by {
            if less.contains('.') {
                let k = choose|k: int| 0 <= k < less.len() && less[k] == '.';
                assert(name[k] == '.');
            }
        }
        lemma_no_dot(less);
    }
}

/// The extension is what follows the last dot of the name, wherever the file is. A name
/// without a dot, or with none but its first character, has no extension.
pub proof fn extension_follows_the_last_dot(dir: Seq<char>, stem: Seq<char>, ext: Seq<char>)
    requires
        !ext.contains('.'),
        !ext.contains('/') && !stem.contains('/'),
    ensures
        stem.len() > 0 && stem.push('.') + ext != seq!['.', '.'] ==> {
            &&& name_extension(stem.push('.') + ext) == Some(ext)
            &&& path_extension(joined(dir, stem.push('.') + ext)) == Some(ext)
        },
        name_extension(seq!['.'] + ext) is None,
        name_extension(ext) is None,
{
    let name = stem.push('.') + ext;
    lemma_last_dot_behind(stem, ext);
    if stem.len() > 0 && name != seq!['.', '.'] {
        assert(name.skip(stem.len() as int + 1) =~= ext);
        assert(!name.contains('/')) by {
            if name.contains('/') {
                let k = choose|k: int| 0 <= k < name.len() && name[k] == '/';
                if k < stem.len() {
                    assert(stem[k] == '/');
                } else if k > stem.len() {
                    assert(ext[k - stem.len() - 1] == '/');
                }
            }
        }
        if name == seq!['.'] {
            assert(name.len() == 1);
        }
        joined_path_ends_in_the_name(dir, name);
    }
    let none = Seq::<char>::empty();
    lemma_last_dot_behind(none, ext);
    assert(none.push('.') + ext =~= seq!['.'] + ext);
    lemma_no_dot(ext);
}

proof fn lemma_common_start(start: Seq<Seq<char>>, a: Seq<Seq<char>>, b: Seq<Seq<char>>)
    ensures
        components_less(start + a, start + b) == components_less(a, b),
    decreases start.len(),
{
    if start.len() == 0 {
        assert(start + a =~= a);
        assert(start + b =~= b);
    } else {
        lemma_common_start(start.skip(1), a, b);
        assert((start + a).skip(1) =~= start.skip(1) + a);
        assert((start + b).skip(1) =~= start.skip(1) + b);
        assert((start + a)[0] == start[0] && (start + b)[0] == start[0]);
    }
}

/// What a directory holds is in the order of the texts of the names, all of it behind the
/// directory itself.
pub proof fn names_are_in_the_order_of_their_texts(dir: Seq<char>, a: Seq<char>, b: Seq<char>)
    requires
        is_name(a),
        is_name(b),
    ensures
        path_le(joined(dir, a), joined(dir, b)) <==> a == b || text_less(a, b),
        path_le(dir, joined(dir, a)) && !same_path(dir, joined(dir, a)),
{
    joined_path_ends_in_the_name(dir, a);
    joined_path_ends_in_the_name(dir, b);
    lemma_name_is_kind_three(a);
    lemma_name_is_kind_three(b);
    let c = components(dir);
    let none = Seq::<Seq<char>>::empty();
    assert(c.push(a) =~= c + seq![a]);
    assert(c.push(b) =~= c + seq![b]);
    assert(c =~= c + none);
    lemma_common_start(c, seq![b], seq![a]);
    lemma_common_start(c, seq![a], none);
    assert(seq![a].skip(1) =~= none);
    assert(seq![b].skip(1) =~= none);
    assert(seq![a][0] == a && seq![b][0] == b);
    lemma_component_order(a, b);
    assert(!components_less(none, none));
    assert(components(joined(dir, a)).len() == c.len() + 1);
}

} // verus!
