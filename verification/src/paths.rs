//! Unix paths as text.

use crate::bytes::same_bytes;
use crate::text::{
    between, chars_of, joined, law_between, lemma_some_run, same_text, split_between, texts,
};
use vstd::prelude::*;

verus! {

/// A path with one relative component added: a `/` goes between unless one is there or the
/// path is empty.
pub open spec fn with_part(base: Seq<char>, part: Seq<char>) -> Seq<char> {
    if base.len() == 0 || base.last() == '/' {
        base + part
    } else {
        base.push('/') + part
    }
}

/// A path with a component added begins with the path and ends with the component, and between
/// them stands one `/`, unless the path is empty.
pub proof fn law_parts_are_added_behind_a_slash(base: Seq<char>, part: Seq<char>)
    ensures
        base.is_prefix_of(with_part(base, part)),
        part.is_suffix_of(with_part(base, part)),
        base.len() == 0 ==> with_part(base, part) == part,
        base.len() > 0 && base.last() == '/' ==> with_part(base, part).len() == base.len()
            + part.len(),
        base.len() > 0 && base.last() != '/' ==> with_part(base, part).len() == base.len()
            + part.len() + 1 && with_part(base, part)[base.len() as int] == '/',
{
    let whole = with_part(base, part);
    assert(base =~= whole.subrange(0, base.len() as int));
    assert(part =~= whole.subrange(whole.len() - part.len(), whole.len() as int));
    assert(base.len() == 0 ==> whole =~= part);
}

/// Adds a relative component to a path.
pub fn join(base: &str, part: &str) -> (r: String)
    ensures
        r@ == with_part(base@, part@),
{
    let chars = chars_of(base);
    let n = chars.len();
    if n == 0 || chars[n - 1] == '/' {
        joined(base, part)
    } else {
        let mut r = base.to_owned();
        r.push('/');
        r.append(part);
        r
    }
}

/// The runs between the `/` of a path, empty ones included.
pub open spec fn runs(s: Seq<char>) -> Seq<Seq<char>> {
    between(s, '/')
}

/// Whether a path starts at the root.
pub open spec fn is_absolute(path: Seq<char>) -> bool {
    path.len() > 0 && path[0] == '/'
}

/// Whether the run at `i` is a component: it is not empty, and not `.`, unless a relative path
/// starts with it.
pub open spec fn is_component(path: Seq<char>, i: int) -> bool {
    let run = runs(path)[i];
    &&& run.len() > 0
    &&& run != seq!['.'] || (i == 0 && !is_absolute(path))
}

/// The components among the first `n` runs of a path.
pub open spec fn components_before(path: Seq<char>, n: int) -> Seq<Seq<char>>
    decreases n,
{
    if n <= 0 {
        Seq::empty()
    } else if is_component(path, n - 1) {
        components_before(path, n - 1).push(runs(path)[n - 1])
    } else {
        components_before(path, n - 1)
    }
}

/// The components of a path, the root aside.
pub open spec fn components(path: Seq<char>) -> Seq<Seq<char>> {
    components_before(path, runs(path).len() as int)
}

/// Whether two paths have the same components.
pub open spec fn same_components(a: Seq<char>, b: Seq<char>) -> bool {
    is_absolute(a) == is_absolute(b) && components(a) == components(b)
}

/// The name of the file or directory that a path leads to: its last component, unless that is
/// `.` or `..`.
pub open spec fn name_of(path: Seq<char>) -> Option<Seq<char>> {
    let parts = components(path);
    if parts.len() == 0 || parts.last() == seq!['.'] || parts.last() == seq!['.', '.'] {
        None
    } else {
        Some(parts.last())
    }
}

/// Whether a run between `/` counts wherever it stands: it is not empty, and not `.`.
pub open spec fn counts() -> spec_fn(Seq<char>) -> bool {
    |run: Seq<char>| run.len() > 0 && !(run.len() == 1 && run[0] == '.')
}

/// The components of a path are what stands between its `/`, in order, without what is empty and
/// without `.`; only a `.` with which a relative path begins is one.
pub proof fn law_components(path: Seq<char>)
    ensures
        ({
            let runs = between(path, '/');
            let dotted = runs[0].len() == 1 && runs[0][0] == '.';
            &&& !dotted ==> components(path) == runs.filter(counts())
            &&& dotted ==> components(path) == seq![seq!['.']] + runs.filter(counts())
        }),
{
    lemma_some_run(path, '/');
    let runs = between(path, '/');
    lemma_components_before(path, runs.len() as int);
    assert(runs.take(runs.len() as int) =~= runs);
}

proof fn lemma_components_before(path: Seq<char>, n: int)
    requires
        1 <= n <= runs(path).len(),
    ensures
        ({
            let front = runs(path).take(n).filter(counts());
            let dotted = runs(path)[0].len() == 1 && runs(path)[0][0] == '.';
            &&& !dotted ==> components_before(path, n) == front
            &&& dotted ==> components_before(path, n) == seq![seq!['.']] + front
        }),
    decreases n,
{
    let all = runs(path);
    let keep = counts();
    let run = all[n - 1];
    let front = all.take(n);
    reveal(Seq::filter);
    assert(front.drop_last() =~= all.take(n - 1));
    assert(front.last() == run);
    assert((run =~= seq!['.']) == (run.len() == 1 && run[0] == '.'));
    if n == 1 {
        lemma_first_run(path);
        assert(all.take(0) =~= Seq::empty());
        assert(all.take(0).filter(keep) =~= Seq::empty());
        assert(components_before(path, 0) =~= Seq::empty());
        if run.len() == 1 && run[0] == '.' {
            assert(components_before(path, 1) =~= seq![seq!['.']] + front.filter(keep));
        } else if run.len() > 0 {
            assert(components_before(path, 1) =~= front.filter(keep));
        }
    } else {
        lemma_components_before(path, n - 1);
        let dotted = all[0].len() == 1 && all[0][0] == '.';
        if dotted {
            assert(components_before(path, n) =~= seq![seq!['.']] + front.filter(keep));
        } else {
            assert(components_before(path, n) =~= front.filter(keep));
        }
    }
}

/// A path starts at the root exactly where its first run is empty and something follows.
proof fn lemma_first_run(path: Seq<char>)
    ensures
        runs(path).len() >= 1,
        runs(path)[0].len() > 0 ==> !is_absolute(path),
    decreases path.len(),
{
    lemma_some_run(path, '/');
    if path.len() > 0 {
        let init = path.drop_last();
        lemma_some_run(init, '/');
        lemma_first_run(init);
        if init.len() > 0 {
            assert(path[0] == init[0]);
            lemma_first_run_of_absolute(path);
        }
    }
}

proof fn lemma_first_run_of_absolute(path: Seq<char>)
    ensures
        is_absolute(path) ==> between(path, '/').len() >= 2 && between(path, '/')[0].len() == 0,
    decreases path.len(),
{
    if is_absolute(path) {
        let init = path.drop_last();
        if init.len() == 0 {
            assert(between(init, '/') =~= seq![Seq::empty()]);
        } else {
            assert(init[0] == path[0]);
            lemma_first_run_of_absolute(init);
        }
    }
}

/// A path that ends with a component leads to what that names, with `/` behind it or not; one
/// that ends with `..` leads to nothing named.
pub proof fn law_names_of_paths(dir: Seq<char>, name: Seq<char>)
    requires
        name.len() > 0,
        !name.contains('/'),
        name != seq!['.'],
    ensures
        name != seq!['.', '.'] ==> name_of(dir.push('/') + name) == Some(name),
        name != seq!['.', '.'] ==> name_of(name) == Some(name),
        name != seq!['.', '.'] ==> name_of((dir.push('/') + name).push('/')) == Some(name),
        name == seq!['.', '.'] ==> name_of(dir.push('/') + name) is None,
{
    let path = dir.push('/') + name;
    law_between(dir, '/', name);
    law_between(name, '/', Seq::empty());
    law_between(path, '/', Seq::empty());
    assert(!Seq::<char>::empty().contains('/'));
    law_between(Seq::empty(), '/', Seq::empty());
    assert(path.push('/') + Seq::<char>::empty() =~= path.push('/'));
    law_components(path);
    law_components(name);
    law_components(path.push('/'));
    reveal(Seq::filter);
    let keep = counts();
    assert(!(name.len() == 1 && name[0] == '.')) by {
        if name.len() == 1 && name[0] == '.' {
            assert(name =~= seq!['.']);
        }
    }
    let front = between(dir, '/');
    lemma_some_run(dir, '/');
    assert((front + seq![name]).drop_last() =~= front);
    assert((front + seq![name]).last() == name);
    assert(seq![name].drop_last() =~= Seq::empty());
    let closed = front + seq![name] + seq![Seq::<char>::empty()];
    assert(closed.drop_last() =~= front + seq![name]);
    assert(closed.last().len() == 0);
    assert(closed.filter(keep) == (front + seq![name]).filter(keep));
    assert(between(path.push('/'), '/') =~= closed);
}

/// Two paths lead to the same place where the file system gives the same form for both, and
/// where it gives one for neither or for one only, if they have the same components and start
/// both or neither at the root.
pub proof fn law_same_places(a: Place, b: Place)
    ensures
        a.canonical is Some && b.canonical is Some ==> (is_same_place(a, b)
            <==> a.canonical.unwrap()@ == b.canonical.unwrap()@),
        a.canonical is None || b.canonical is None ==> (is_same_place(a, b) <==> components(a.path@)
            == components(b.path@) && (a.path@.len() > 0 && a.path@[0] == '/') == (b.path@.len()
            > 0 && b.path@[0] == '/')),
{
}

/// `Path::components`, the root aside.
pub fn split_components(path: &str) -> (r: Vec<String>)
    ensures
        texts(r@) == components(path@),
{
    proof {
        reveal_strlit(".");
        reveal_strlit("/");
        assert("."@ =~= seq!['.']);
    }
    let absolute = starts_at_root(path);
    let runs = split_between(path, '/');
    let mut r: Vec<String> = Vec::new();
    let mut i: usize = 0;
    assert(texts(r@) =~= components_before(path@, 0));
    while i < runs.len()
        invariant
            texts(runs@) == self::runs(path@),
            i <= runs@.len(),
            absolute == is_absolute(path@),
            "."@ == seq!['.'],
            texts(r@) == components_before(path@, i as int),
        decreases runs@.len() - i,
    {
        let run = &runs[i];
        assert(run@ == texts(runs@)[i as int]);
        let ghost before = texts(r@);
        if run.as_str().unicode_len() > 0 && (!same_text(run.as_str(), ".") || (i == 0
            && !absolute)) {
            r.push(run.clone());
            assert(texts(r@) =~= before.push(run@));
        }
        i += 1;
    }
    assert(runs@.len() == texts(runs@).len());
    r
}

fn starts_at_root(path: &str) -> (r: bool)
    ensures
        r == is_absolute(path@),
{
    path.unicode_len() > 0 && path.get_char(0) == '/'
}

/// `Path::eq`: whether two paths have the same components.
pub fn paths_match(a: &str, b: &str) -> (r: bool)
    ensures
        r == same_components(a@, b@),
{
    if starts_at_root(a) != starts_at_root(b) {
        return false;
    }
    let x = split_components(a);
    let y = split_components(b);
    assert(texts(x@).len() == x@.len());
    assert(texts(y@).len() == y@.len());
    if x.len() != y.len() {
        return false;
    }
    let mut i: usize = 0;
    while i < x.len()
        invariant
            x@.len() == y@.len(),
            i <= x@.len(),
            texts(x@) == components(a@),
            texts(y@) == components(b@),
            forall|k: int| 0 <= k < i ==> texts(x@)[k] == texts(y@)[k],
        decreases x@.len() - i,
    {
        assert(texts(x@)[i as int] == x@[i as int]@);
        assert(texts(y@)[i as int] == y@[i as int]@);
        if !same_text(x[i].as_str(), y[i].as_str()) {
            return false;
        }
        i += 1;
    }
    assert(components(a@) =~= components(b@));
    true
}

/// `Path::file_name`: the name of the file or directory that a path leads to.
pub fn file_name(path: &str) -> (r: Option<String>)
    ensures
        match r {
            Some(name) => name_of(path@) == Some(name@),
            None => name_of(path@) is None,
        },
{
    proof {
        reveal_strlit(".");
        reveal_strlit("..");
        assert("."@ =~= seq!['.']);
        assert(".."@ =~= seq!['.', '.']);
    }
    let parts = split_components(path);
    assert(texts(parts@).len() == parts@.len());
    let n = parts.len();
    if n == 0 {
        return None;
    }
    let last = &parts[n - 1];
    assert(last@ == texts(parts@).last());
    if same_text(last.as_str(), ".") || same_text(last.as_str(), "..") {
        None
    } else {
        Some(last.clone())
    }
}

/// A path, with the form that the file system gives for it, without links, if it leads
/// somewhere.
#[derive(Debug)]
pub struct Place {
    pub path: String,
    pub canonical: Option<Vec<u8>>,
}

/// Whether two paths lead to the same place: by the forms that the file system gives where both
/// have one, else by their components.
pub open spec fn is_same_place(a: Place, b: Place) -> bool {
    match (a.canonical, b.canonical) {
        (Some(x), Some(y)) => x@ == y@,
        _ => same_components(a.path@, b.path@),
    }
}

/// Whether two paths lead to the same place.
pub fn paths_equal(a: &Place, b: &Place) -> (r: bool)
    ensures
        r == is_same_place(*a, *b),
{
    match &a.canonical {
        Some(x) => match &b.canonical {
            Some(y) => same_bytes(x, y),
            None => paths_match(a.path.as_str(), b.path.as_str()),
        },
        None => paths_match(a.path.as_str(), b.path.as_str()),
    }
}

/// Every path leads to its own place, and whether two lead to the same does not depend on which
/// is named first.
pub proof fn law_same_place_is_symmetric(a: Place, b: Place)
    ensures
        is_same_place(a, b) == is_same_place(b, a),
        is_same_place(a, a),
{
}

} // verus!
