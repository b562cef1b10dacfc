use vstd::prelude::*;

use crate::text_util::{chars_to_string, copy_string, str_chars, str_eq};

verus! {

/// A part of a path as typed: the root, `.`, `..`, or a name.
#[derive(Debug, Clone, PartialEq, Eq)]
pub enum PathPart {
    Root,
    Current,
    Parent,
    Name(String),
}

/// A part of a path, as a value.
pub enum PathPartModel {
    Root,
    Current,
    Parent,
    Name(Seq<char>),
}

impl View for PathPart {
    type V = PathPartModel;

    open spec fn view(&self) -> PathPartModel {
        match self {
            PathPart::Root => PathPartModel::Root,
            PathPart::Current => PathPartModel::Current,
            PathPart::Parent => PathPartModel::Parent,
            PathPart::Name(n) => PathPartModel::Name(n@),
        }
    }
}

pub open spec fn parts_view(parts: Seq<PathPart>) -> Seq<PathPartModel> {
    parts.map_values(|p: PathPart| p@)
}

/// A path: whether it starts at the root, and its names in order.
pub struct PathValue {
    pub absolute: bool,
    pub names: Vec<String>,
}

/// A path, as a value.
pub struct PathModel {
    pub absolute: bool,
    pub names: Seq<Seq<char>>,
}

pub open spec fn names_view(names: Seq<String>) -> Seq<Seq<char>> {
    names.map_values(|n: String| n@)
}

impl View for PathValue {
    type V = PathModel;

    open spec fn view(&self) -> PathModel {
        PathModel { absolute: self.absolute, names: names_view(self.names@) }
    }
}

/// The name that stands for the home directory.
pub open spec fn home_name() -> Seq<char> {
    seq!['~']
}

/// A path after one more typed part: the root starts over at the root, `.`
/// changes nothing, `..` drops the last name where there is one, `~` goes to
/// the home directory, and a name is added at the end.
pub open spec fn step(p: PathModel, part: PathPartModel, home: PathModel) -> PathModel {
    match part {
        PathPartModel::Root => PathModel { absolute: true, names: Seq::empty() },
        PathPartModel::Current => p,
        PathPartModel::Parent => if p.names.len() > 0 {
            PathModel { absolute: p.absolute, names: p.names.drop_last() }
        } else {
            p
        },
        PathPartModel::Name(n) => if n == home_name() {
            home
        } else {
            PathModel { absolute: p.absolute, names: p.names.push(n) }
        },
    }
}

/// The path reached from `start` through the typed parts, in order.
pub open spec fn walk(start: PathModel, parts: Seq<PathPartModel>, home: PathModel) -> PathModel
    decreases parts.len(),
{
    if parts.len() == 0 {
        start
    } else {
        step(walk(start, parts.drop_last(), home), parts.last(), home)
    }
}

/// What typed input completes, and in which directory: the last name and
/// the path before it; nothing in the path itself when it has no names,
/// when nothing was typed, or when the input ends with a separator.
pub open spec fn completion_base(input: Seq<char>, p: PathModel) -> (Seq<char>, PathModel) {
    if p.names.len() == 0 || input.len() == 0 || input.last() == '/' {
        (Seq::empty(), p)
    } else {
        (p.names.last(), PathModel { absolute: p.absolute, names: p.names.drop_last() })
    }
}

/// Copies of some strings.
fn copy_names(names: &Vec<String>) -> (r: Vec<String>)
    ensures
        names_view(r@) == names_view(names@),
{
    let mut r: Vec<String> = Vec::new();
    let mut i: usize = 0;
    while i < names.len()
        invariant
            i <= names@.len(),
            names_view(r@) == names_view(names@.take(i as int)),
        decreases names@.len() - i,
    {
        let ghost before = r@;
        let c = copy_string(&names[i]);
        r.push(c);
        proof {
            assert(r@ =~= before.push(c));
            assert(names@.take(i + 1) =~= names@.take(i as int).push(names@[i as int]));
            assert(names_view(r@) =~= names_view(before).push(c@));
            assert(names_view(names@.take(i + 1)) =~= names_view(names@.take(i as int)).push(names@[i as int]@));
        }
        i = i + 1;
    }
    assert(names@.take(names@.len() as int) =~= names@);
    r
}

impl PathValue {
    /// The empty relative path.
    pub fn empty() -> (r: Self)
        ensures
            r@ == (PathModel { absolute: false, names: Seq::empty() }),
    {
        let r = PathValue { absolute: false, names: Vec::new() };
        assert(names_view(r.names@) =~= Seq::empty());
        r
    }

    /// The root directory.
    pub fn root() -> (r: Self)
        ensures
            r@ == (PathModel { absolute: true, names: Seq::empty() }),
    {
        let r = PathValue { absolute: true, names: Vec::new() };
        assert(names_view(r.names@) =~= Seq::empty());
        r
    }

    fn copy(&self) -> (r: Self)
        ensures
            r@ == self@,
    {
        PathValue { absolute: self.absolute, names: copy_names(&self.names) }
    }
}

/// The path reached from `start` through the typed parts; see `walk`.
pub fn walk_path(start: &PathValue, parts: &Vec<PathPart>, home: &PathValue) -> (r: PathValue)
    ensures
        r@ == walk(start@, parts_view(parts@), home@),
{
    let ghost all = parts_view(parts@);
    let mut p = start.copy();
    let mut i: usize = 0;
    proof {
        assert(all.take(0) =~= Seq::<PathPartModel>::empty());
    }
    while i < parts.len()
        invariant
            all == parts_view(parts@),
            i <= parts@.len(),
            p@ == walk(start@, all.take(i as int), home@),
        decreases parts@.len() - i,
    {
        proof {
            assert(all.take(i + 1).drop_last() =~= all.take(i as int));
            assert(all.take(i + 1).last() == parts@[i as int]@);
        }
        let ghost before = p@;
        let ghost part = parts@[i as int]@;
        match &parts[i] {
            PathPart::Root => {
                p = PathValue::root();
            },
            PathPart::Current => {},
            PathPart::Parent => {
                if p.names.len() > 0 {
                    p.names.pop();
                    proof {
                        assert(names_view(p.names@) =~= before.names.drop_last());
                    }
                }
            },
            PathPart::Name(n) => {
                let home_mark = "~";
                proof {
                    reveal_strlit("~");
                }
                proof {
                    assert(home_mark@ =~= home_name());
                    assert(part == PathPartModel::Name(n@));
                }
                if str_eq(n.as_str(), home_mark) {
                    p = home.copy();
                } else {
                    p.names.push(copy_string(n));
                    proof {
                        assert(names_view(p.names@) =~= before.names.push(n@));
                    }
                }
            },
        }
        proof {
            assert(p@ == step(before, part, home@));
        }
        i = i + 1;
    }
    proof {
        assert(all.take(parts@.len() as int) =~= all);
    }
    p
}

/// What typed input completes, and in which directory; see
/// `completion_base`.
pub fn completion_base_of(input: &str, path: PathValue) -> (r: (String, PathValue))
    ensures
        (r.0@, r.1@) == completion_base(input@, path@),
{
    let cs = str_chars(input);
    let mut p = path;
    if p.names.len() == 0 || cs.len() == 0 || cs[cs.len() - 1] == '/' {
        return (String::new(), p);
    }
    let ghost before = p@;
    let last = match p.names.pop() {
        Some(n) => n,
        None => String::new(),
    };
    proof {
        assert(names_view(p.names@) =~= before.names.drop_last());
    }
    (last, p)
}

/// The input to complete and the directory to complete it in, for the
/// typed `input` whose parts are `parts`, from the working directory `cwd`
/// with the home directory `home`.
pub fn resolve_file_input(input: &str, parts: &Vec<PathPart>, cwd: &PathValue, home: &PathValue) -> (r: (String, PathValue))
    ensures
        (r.0@, r.1@) == completion_base(input@, walk(cwd@, parts_view(parts@), home@)),
{
    let p = walk_path(cwd, parts, home);
    completion_base_of(input, p)
}

/// The names that typed parts add to a path, `..` among them as a name:
/// joining a typed path to a directory keeps them as typed.
pub open spec fn typed_names(parts: Seq<PathPartModel>) -> Seq<Seq<char>>
    decreases parts.len(),
{
    if parts.len() == 0 {
        Seq::empty()
    } else {
        let rest = typed_names(parts.drop_last());
        match parts.last() {
            PathPartModel::Name(n) => rest.push(n),
            PathPartModel::Parent => rest.push(seq!['.', '.']),
            _ => rest,
        }
    }
}

/// Names written one after another, with a separator between two.
pub open spec fn joined(names: Seq<Seq<char>>) -> Seq<char>
    decreases names.len(),
{
    if names.len() == 0 {
        Seq::empty()
    } else if names.len() == 1 {
        names[0]
    } else {
        joined(names.drop_last()) + seq!['/'] + names.last()
    }
}

/// Whether typed parts start at the root.
pub open spec fn starts_at_root(parts: Seq<PathPartModel>) -> bool {
    parts.len() > 0 && parts[0] is Root
}

/// The title of a file opened by the typed path `parts` from the working
/// directory `cwd`: the path from `cwd` where the file lies under it, else
/// the whole path.
pub open spec fn file_title(cwd: PathModel, parts: Seq<PathPartModel>) -> Seq<char> {
    let names = typed_names(parts);
    if !starts_at_root(parts) {
        joined(names)
    } else if cwd.absolute && cwd.names.is_prefix_of(names) {
        joined(names.skip(cwd.names.len() as int))
    } else {
        seq!['/'] + joined(names)
    }
}

/// The names that typed parts add; see `typed_names`.
fn typed_names_of(parts: &Vec<PathPart>) -> (r: Vec<String>)
    ensures
        names_view(r@) == typed_names(parts_view(parts@)),
{
    let ghost all = parts_view(parts@);
    let mut r: Vec<String> = Vec::new();
    let mut i: usize = 0;
    proof {
        assert(all.take(0) =~= Seq::<PathPartModel>::empty());
        assert(names_view(r@) =~= Seq::empty());
    }
    while i < parts.len()
        invariant
            all == parts_view(parts@),
            i <= parts@.len(),
            names_view(r@) == typed_names(all.take(i as int)),
        decreases parts@.len() - i,
    {
        proof {
            assert(all.take(i + 1).drop_last() =~= all.take(i as int));
            assert(all.take(i + 1).last() == parts@[i as int]@);
        }
        let ghost before = names_view(r@);
        match &parts[i] {
            PathPart::Name(n) => {
                r.push(copy_string(n));
                proof {
                    assert(names_view(r@) =~= before.push(n@));
                }
            },
            PathPart::Parent => {
                let mut dots: Vec<char> = Vec::new();
                dots.push('.');
                dots.push('.');
                r.push(chars_to_string(&dots));
                proof {
                    assert(dots@ =~= seq!['.', '.']);
                    assert(names_view(r@) =~= before.push(seq!['.', '.']));
                }
            },
            _ => {},
        }
        i = i + 1;
    }
    proof {
        assert(all.take(parts@.len() as int) =~= all);
    }
    r
}

/// The names from `from` on, written with separators; see `joined`.
fn join_from(names: &Vec<String>, from: usize) -> (r: String)
    requires
        from <= names@.len(),
    ensures
        r@ == joined(names_view(names@).skip(from as int)),
{
    let ghost all = names_view(names@);
    let mut cs: Vec<char> = Vec::new();
    let mut i: usize = from;
    proof {
        assert(all.subrange(from as int, from as int) =~= Seq::<Seq<char>>::empty());
    }
    while i < names.len()
        invariant
            all == names_view(names@),
            from <= i <= names@.len(),
            cs@ == joined(all.subrange(from as int, i as int)),
        decreases names@.len() - i,
    {
        let part = str_chars(names[i].as_str());
        let ghost sub = all.subrange(from as int, i + 1);
        proof {
            assert(sub.drop_last() =~= all.subrange(from as int, i as int));
            assert(sub.last() == names@[i as int]@);
        }
        let ghost before = cs@;
        if i > from {
            cs.push('/');
        }
        let mut k: usize = 0;
        let ghost start = cs@;
        while k < part.len()
            invariant
                k <= part@.len(),
                cs@ == start + part@.take(k as int),
            decreases part@.len() - k,
        {
            cs.push(part[k]);
            proof {
                assert(part@.take(k + 1) =~= part@.take(k as int).push(part@[k as int]));
            }
            k = k + 1;
        }
        proof {
            assert(part@.take(part@.len() as int) =~= part@);
            if i > from {
                assert(cs@ =~= before + seq!['/'] + part@);
            } else {
                assert(sub.len() == 1);
                assert(sub[0] == part@);
                assert(cs@ =~= part@);
            }
        }
        i = i + 1;
    }
    proof {
        assert(all.subrange(from as int, names@.len() as int) =~= all.skip(from as int));
    }
    chars_to_string(&cs)
}

/// The title of a file opened by typed parts from the working directory;
/// see `file_title`.
pub fn file_title_of(cwd: &PathValue, parts: &Vec<PathPart>) -> (r: String)
    ensures
        r@ == file_title(cwd@, parts_view(parts@)),
{
    let names = typed_names_of(parts);
    let at_root = parts.len() > 0 && match &parts[0] {
        PathPart::Root => true,
        _ => false,
    };
    proof {
        if parts@.len() > 0 {
            assert(parts_view(parts@)[0] == parts@[0]@);
        }
        assert(names_view(names@).skip(0) =~= names_view(names@));
    }
    if !at_root {
        return join_from(&names, 0);
    }
    if cwd.absolute && names_prefix(&cwd.names, &names) {
        return join_from(&names, cwd.names.len());
    }
    let mut cs: Vec<char> = Vec::new();
    cs.push('/');
    let rest = str_chars(join_from(&names, 0).as_str());
    let mut k: usize = 0;
    while k < rest.len()
        invariant
            k <= rest@.len(),
            cs@ == seq!['/'] + rest@.take(k as int),
        decreases rest@.len() - k,
    {
        cs.push(rest[k]);
        proof {
            assert(rest@.take(k + 1) =~= rest@.take(k as int).push(rest@[k as int]));
        }
        k = k + 1;
    }
    proof {
        assert(rest@.take(rest@.len() as int) =~= rest@);
        assert(names_view(names@).skip(0) =~= names_view(names@));
    }
    chars_to_string(&cs)
}

/// Whether the names of `a` begin the names of `b`.
fn names_prefix(a: &Vec<String>, b: &Vec<String>) -> (r: bool)
    ensures
        r == names_view(a@).is_prefix_of(names_view(b@)),
{
    if a.len() > b.len() {
        return false;
    }
    let ghost va = names_view(a@);
    let ghost vb = names_view(b@);
    let mut i: usize = 0;
    while i < a.len()
        invariant
            va == names_view(a@),
            vb == names_view(b@),
            a@.len() <= b@.len(),
            i <= a@.len(),
            forall|k: int| 0 <= k < i ==> va[k] == vb[k],
        decreases a@.len() - i,
    {
        if !str_eq(a[i].as_str(), b[i].as_str()) {
            proof {
                assert(va[i as int] != vb.subrange(0, va.len() as int)[i as int]);
            }
            return false;
        }
        i = i + 1;
    }
    assert(va =~= vb.subrange(0, va.len() as int));
    true
}

} // verus!
