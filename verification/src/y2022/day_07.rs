//! No space left on device: the directories of a device, rebuilt from the output of a
//! terminal.

use crate::number::{decimal, format_u64, parse_u32, u32_of};
use crate::text::{
    after_bytes, chars, first_word, halves, next_word, pieces, same, skip_bytes, split,
    split_once, trim, trimmed, views,
};
use vstd::prelude::*;

verus! {

/// A step of a path.
pub enum PathElement {
    Current,
    Parent,
    Child(String),
}

/// What a step of a path holds.
pub enum Step {
    Current,
    Parent,
    Child(Seq<char>),
}

impl View for PathElement {
    type V = Step;

    open spec fn view(&self) -> Step {
        match self {
            PathElement::Current => Step::Current,
            PathElement::Parent => Step::Parent,
            PathElement::Child(name) => Step::Child(name@),
        }
    }
}

/// The steps of a path.
pub type Path = Vec<PathElement>;

/// The step that a text writes: `.` stays, `..` goes up, any other text goes into the child
/// of that name; no text is no step.
pub open spec fn step_of(value: Seq<char>) -> Option<Step> {
    if value.len() == 0 {
        None
    } else if value.len() == 1 && value[0] == '.' {
        Some(Step::Current)
    } else if value.len() == 2 && value[0] == '.' && value[1] == '.' {
        Some(Step::Parent)
    } else {
        Some(Step::Child(value))
    }
}

impl PathElement {
    /// Reads a step of a path.
    pub fn try_from(value: &str) -> (r: Result<PathElement, ()>)
        ensures
            r is Ok == step_of(value@) is Some,
            r is Ok ==> r->Ok_0@ == step_of(value@)->0,
    {
        let v = chars(value);
        if v.len() == 0 {
            Err(())
        } else if v.len() == 1 && v[0] == '.' {
            Ok(Self::Current)
        } else if v.len() == 2 && v[0] == '.' && v[1] == '.' {
            Ok(Self::Parent)
        } else {
            Ok(Self::Child(value.to_owned()))
        }
    }
}

/// The steps that the first `n` texts write; `None` when one writes no step.
pub open spec fn steps(texts: Seq<Seq<char>>, n: int) -> Option<Seq<Step>>
    decreases n,
{
    if n <= 0 {
        Some(Seq::empty())
    } else {
        match (steps(texts, n - 1), step_of(texts[n - 1])) {
            (Some(s), Some(step)) => Some(s.push(step)),
            _ => None,
        }
    }
}

/// The path that a text writes: one step in each of its lines.
pub open spec fn path_of(value: Seq<char>) -> Option<Seq<Step>> {
    steps(pieces(value, '\n'), pieces(value, '\n').len() as int)
}

/// What the steps of a path hold.
pub open spec fn walk(path: Seq<PathElement>) -> Seq<Step> {
    Seq::new(path.len(), |i: int| path[i]@)
}

/// Reads a path.
pub fn make_path(value: &str) -> (r: Result<Path, ()>)
    ensures
        r is Ok == path_of(value@) is Some,
        r is Ok ==> walk(r->Ok_0@) == path_of(value@)->0,
{
    let splitted = split(value, '\n');
    let ghost texts = pieces(value@, '\n');
    let mut path: Option<Vec<PathElement>> = Some(Vec::new());
    assert(walk(Seq::<PathElement>::empty()) =~= Seq::<Step>::empty());
    let mut i: usize = 0;
    while i < splitted.len()
        invariant
            views(splitted@) == texts,
            0 <= i <= splitted.len(),
            path is Some == steps(texts, i as int) is Some,
            path is Some ==> walk(path->0@) == steps(texts, i as int)->0,
        decreases splitted.len() - i,
    {
        assert(views(splitted@)[i as int] == splitted@[i as int]@);
        path = match (path, PathElement::try_from(splitted[i])) {
            (Some(mut list), Ok(e)) => {
                assert(walk(list@.push(e)) =~= walk(list@).push(e@));
                list.push(e);
                Some(list)
            },
            _ => None,
        };
        i += 1;
    }
    match path {
        Some(list) => Ok(list),
        None => Err(()),
    }
}

/// What stands in a directory: a file or a directory, by its number among the files or the
/// directories of the device.
#[derive(Debug, Clone, Copy, PartialEq, Eq, Structural)]
pub enum DirElement {
    File(usize),
    Dir(usize),
}

/// A file: its name, its size, and the directory in which it stands.
#[derive(Debug)]
pub struct File {
    pub name: String,
    pub size: u32,
    pub parent: usize,
}

/// A directory: its name, what stands in it, and the directory in which it stands, if it is
/// not the outermost one.
#[derive(Debug)]
pub struct Dir {
    pub name: String,
    pub children: Vec<DirElement>,
    pub parent: Option<usize>,
}

/// The files and directories of a device. Directory 0 is the outermost one; every other
/// directory has a greater number than the directory in which it stands.
#[derive(Debug)]
pub struct Tree {
    pub dirs: Vec<Dir>,
    pub files: Vec<File>,
}

/// What a file holds.
pub struct FileView {
    pub name: Seq<char>,
    pub size: u32,
    pub parent: usize,
}

/// What a directory holds.
pub struct DirView {
    pub name: Seq<char>,
    pub children: Seq<DirElement>,
    pub parent: Option<usize>,
}

/// What a device holds.
pub struct TreeView {
    pub dirs: Seq<DirView>,
    pub files: Seq<FileView>,
}

impl View for Tree {
    type V = TreeView;

    open spec fn view(&self) -> TreeView {
        TreeView {
            dirs: Seq::new(
                self.dirs@.len(),
                |i: int|
                    DirView {
                        name: self.dirs@[i].name@,
                        children: self.dirs@[i].children@,
                        parent: self.dirs@[i].parent,
                    },
            ),
            files: Seq::new(
                self.files@.len(),
                |i: int|
                    FileView {
                        name: self.files@[i].name@,
                        size: self.files@[i].size,
                        parent: self.files@[i].parent,
                    },
            ),
        }
    }
}

impl TreeView {
    /// Whether `e` is a file or a directory of the device.
    pub open spec fn has(self, e: DirElement) -> bool {
        match e {
            DirElement::File(f) => f < self.files.len(),
            DirElement::Dir(d) => d < self.dirs.len(),
        }
    }

    /// Whether the device is well built: there is an outermost directory, and what stands in
    /// a directory is of the device, directories with a greater number than the directory in
    /// which they stand.
    pub open spec fn sound(self) -> bool {
        &&& self.dirs.len() > 0
        &&& forall|d: int, i: int|
            0 <= d < self.dirs.len() && 0 <= i < self.dirs[d].children.len() ==> self.has(
                #[trigger] self.dirs[d].children[i],
            ) && (self.dirs[d].children[i] matches DirElement::Dir(c) ==> c > d)
        &&& forall|d: int| 0 <= d < self.dirs.len() ==> ((#[trigger] self.dirs[d]).parent matches Some(p)
            ==> p < self.dirs.len())
        &&& forall|f: int| 0 <= f < self.files.len() ==> (#[trigger] self.files[f]).parent < self.dirs.len()
    }

    /// The name of `e`.
    pub open spec fn name(self, e: DirElement) -> Seq<char> {
        match e {
            DirElement::File(f) => self.files[f as int].name,
            DirElement::Dir(d) => self.dirs[d as int].name,
        }
    }

    /// The size of `e`: that of a file, or that of all that stands in a directory.
    pub open spec fn size(self, e: DirElement) -> int
        decreases
                self.dirs.len() - (if e is Dir {
                    e->Dir_0 as int
                } else {
                    self.dirs.len() as int
                }),
                1int,
                0int,
    {
        match e {
            DirElement::File(f) => self.files[f as int].size as int,
            DirElement::Dir(d) => if d < self.dirs.len() {
                self.sum(d as int, self.dirs[d as int].children.len() as int)
            } else {
                0
            },
        }
    }

    /// The sizes of the first `n` things that stand in directory `d`, added up.
    pub open spec fn sum(self, d: int, n: int) -> int
        decreases self.dirs.len() - d, 0int, n + 1,
    {
        if n <= 0 || d < 0 || d >= self.dirs.len() || n > self.dirs[d].children.len() {
            0
        } else {
            self.sum(d, n - 1) + match self.dirs[d].children[n - 1] {
                DirElement::Dir(c) => if d < c < self.dirs.len() {
                    self.size(DirElement::Dir(c))
                } else {
                    0
                },
                DirElement::File(f) => self.files[f as int].size as int,
            }
        }
    }

    /// The first among the first `n` things in `e` that has the name, if `e` is a directory
    /// that holds one.
    pub open spec fn child(self, e: DirElement, name: Seq<char>, n: int) -> Option<DirElement>
        decreases n,
    {
        match e {
            DirElement::File(_) => None,
            DirElement::Dir(d) => if n <= 0 {
                None
            } else {
                match self.child(e, name, n - 1) {
                    Some(c) => Some(c),
                    None => if self.name(self.dirs[d as int].children[n - 1]) == name {
                        Some(self.dirs[d as int].children[n - 1])
                    } else {
                        None
                    },
                }
            },
        }
    }

    /// The first thing in `e` that has the name.
    pub open spec fn get_child(self, e: DirElement, name: Seq<char>) -> Option<DirElement> {
        match e {
            DirElement::File(_) => None,
            DirElement::Dir(d) => self.child(e, name, self.dirs[d as int].children.len() as int),
        }
    }

    /// The directory in which `e` stands.
    pub open spec fn get_parent(self, e: DirElement) -> Option<usize> {
        match e {
            DirElement::File(f) => Some(self.files[f as int].parent),
            DirElement::Dir(d) => self.dirs[d as int].parent,
        }
    }

    /// The device with one more file in directory `d`.
    pub open spec fn with_file(self, d: int, size: u32, name: Seq<char>) -> TreeView {
        TreeView {
            dirs: self.dirs.update(
                d,
                DirView {
                    children: self.dirs[d].children.push(DirElement::File(self.files.len() as usize)),
                    ..self.dirs[d]
                },
            ),
            files: self.files.push(FileView { name, size, parent: d as usize }),
        }
    }

    /// The device with one more directory in directory `d`.
    pub open spec fn with_dir(self, d: int, name: Seq<char>) -> TreeView {
        TreeView {
            dirs: self.dirs.update(
                d,
                DirView {
                    children: self.dirs[d].children.push(DirElement::Dir(self.dirs.len() as usize)),
                    ..self.dirs[d]
                },
            ).push(DirView { name, children: Seq::empty(), parent: Some(d as usize) }),
            files: self.files,
        }
    }
}

impl Tree {
    /// Puts a file into the directory.
    pub fn add_child_file(&mut self, dir: usize, size: u32, name: &str)
        requires
            old(self)@.sound(),
            dir < old(self).dirs.len(),
        ensures
            final(self)@ == old(self)@.with_file(dir as int, size, name@),
            final(self)@.sound(),
    {
        let ghost before = self@;
        let name = name.to_owned();
        let file = self.files.len();
        self.files.push(File { size, name, parent: dir });
        self.dirs[dir].children.push(DirElement::File(file));
        assert(self@.files =~= before.with_file(dir as int, size, name@).files);
        assert(self@.dirs =~= before.with_file(dir as int, size, name@).dirs);
        assert(self@.sound()) by {
            let now = self@;
            assert forall|d: int, i: int|
                0 <= d < now.dirs.len() && 0 <= i < now.dirs[d].children.len() implies now.has(
                #[trigger] now.dirs[d].children[i],
            ) && (now.dirs[d].children[i] matches DirElement::Dir(c) ==> c > d) by {
                if d != dir || i < before.dirs[d].children.len() {
                    assert(now.dirs[d].children[i] == before.dirs[d].children[i]);
                    assert(before.has(before.dirs[d].children[i]));
                }
            }
            assert forall|d: int| 0 <= d < now.dirs.len() implies ((#[trigger] now.dirs[d]).parent matches Some(
                p,
            ) ==> p < now.dirs.len()) by {
                assert(now.dirs[d].parent == before.dirs[d].parent);
            }
            assert forall|f: int| 0 <= f < now.files.len() implies (#[trigger] now.files[f]).parent
                < now.dirs.len() by {
                if f < before.files.len() {
                    assert(now.files[f] == before.files[f]);
                }
            }
        }
    }

    /// Puts a new directory into the directory.
    pub fn add_child_dir(&mut self, dir: usize, name: &str)
        requires
            old(self)@.sound(),
            dir < old(self).dirs.len(),
        ensures
            final(self)@ == old(self)@.with_dir(dir as int, name@),
            final(self)@.sound(),
    {
        let ghost before = self@;
        let name = name.to_owned();
        let child = self.dirs.len();
        self.dirs[dir].children.push(DirElement::Dir(child));
        self.dirs.push(Dir { name, parent: Some(dir), children: Vec::new() });
        assert(self@.files =~= before.with_dir(dir as int, name@).files);
        assert(self@.dirs =~= before.with_dir(dir as int, name@).dirs);
        assert(self@.sound()) by {
            let now = self@;
            assert forall|d: int, i: int|
                0 <= d < now.dirs.len() && 0 <= i < now.dirs[d].children.len() implies now.has(
                #[trigger] now.dirs[d].children[i],
            ) && (now.dirs[d].children[i] matches DirElement::Dir(c) ==> c > d) by {
                if d < before.dirs.len() && (d != dir || i < before.dirs[d].children.len()) {
                    assert(now.dirs[d].children[i] == before.dirs[d].children[i]);
                    assert(before.has(before.dirs[d].children[i]));
                }
            }
            assert forall|d: int| 0 <= d < now.dirs.len() implies ((#[trigger] now.dirs[d]).parent matches Some(
                p,
            ) ==> p < now.dirs.len()) by {
                if d < before.dirs.len() {
                    assert(now.dirs[d].parent == before.dirs[d].parent);
                }
            }
            assert forall|f: int| 0 <= f < now.files.len() implies (#[trigger] now.files[f]).parent
                < now.dirs.len() by {
                assert(now.files[f] == before.files[f]);
            }
        }
    }

    /// The name of what stands in a directory.
    pub fn get_name(&self, element: DirElement) -> (r: &str)
        requires
            self@.has(element),
        ensures
            r@ == self@.name(element),
    {
        match element {
            DirElement::File(file) => self.files[file].name.as_str(),
            DirElement::Dir(dir) => self.dirs[dir].name.as_str(),
        }
    }

    /// The size of all that stands in the directory, if it can be held.
    pub fn try_get_total_size(&self, dir: usize) -> (r: Option<u32>)
        requires
            self@.sound(),
            dir < self.dirs.len(),
        ensures
            0 <= self@.size(DirElement::Dir(dir)),
            r is Some ==> r->0 == self@.size(DirElement::Dir(dir)),
            r is None ==> self@.size(DirElement::Dir(dir)) > u32::MAX,
        decreases self.dirs.len() - dir,
    {
        let mut total: u32 = 0;
        let children = &self.dirs[dir].children;
        assert(children@ == self@.dirs[dir as int].children);
        let mut i: usize = 0;
        while i < children.len()
            invariant
                self@.sound(),
                dir < self.dirs.len(),
                children@ == self@.dirs[dir as int].children,
                0 <= i <= children.len(),
                total == self@.sum(dir as int, i as int),
            decreases children.len() - i,
        {
            assert(self@.has(self@.dirs[dir as int].children[i as int]));
            let size = match children[i] {
                DirElement::File(file) => {
                    assert(self@.files[file as int].size == self.files@[file as int].size);
                    Some(self.files[file].size)
                },
                DirElement::Dir(child) => self.try_get_total_size(child),
            };
            proof {
                self@.lemma_sum_grows(dir as int, i + 1, children.len() as int);
            }
            match size {
                Some(size) => match total.checked_add(size) {
                    Some(t) => {
                        total = t;
                    },
                    None => {
                        return None;
                    },
                },
                None => {
                    return None;
                },
            }
            i += 1;
        }
        Some(total)
    }

    /// The size of what stands in a directory, if it can be held.
    pub fn try_get_size(&self, element: DirElement) -> (r: Option<u32>)
        requires
            self@.sound(),
            self@.has(element),
        ensures
            r is Some ==> r->0 == self@.size(element),
            r is None ==> self@.size(element) > u32::MAX,
    {
        match element {
            DirElement::File(file) => {
                assert(self@.files[file as int].size == self.files@[file as int].size);
                Some(self.files[file].size)
            },
            DirElement::Dir(dir) => self.try_get_total_size(dir),
        }
    }

    /// The size of all that stands in the directory.
    pub fn get_total_size(&self, dir: usize) -> (r: u32)
        requires
            self@.sound(),
            dir < self.dirs.len(),
            self@.size(DirElement::Dir(dir)) <= u32::MAX,
        ensures
            r == self@.size(DirElement::Dir(dir)),
    {
        self.try_get_total_size(dir).unwrap()
    }

    /// The size of what stands in a directory.
    pub fn get_size(&self, element: DirElement) -> (r: u32)
        requires
            self@.sound(),
            self@.has(element),
            self@.size(element) <= u32::MAX,
        ensures
            r == self@.size(element),
    {
        self.try_get_size(element).unwrap()
    }

    /// The first thing of that name in a directory.
    pub fn get_child(&self, element: DirElement, name: &str) -> (r: Option<DirElement>)
        requires
            self@.sound(),
            self@.has(element),
        ensures
            r == self@.get_child(element, name@),
            r is Some ==> self@.has(r->0),
    {
        match element {
            DirElement::File(_) => None,
            DirElement::Dir(dir) => {
                let children = &self.dirs[dir].children;
                assert(children@ == self@.dirs[dir as int].children);
                let mut i: usize = 0;
                while i < children.len()
                    invariant
                        self@.sound(),
                        dir < self.dirs.len(),
                        element == DirElement::Dir(dir),
                        children@ == self@.dirs[dir as int].children,
                        0 <= i <= children.len(),
                        self@.child(element, name@, i as int) is None,
                    decreases children.len() - i,
                {
                    assert(self@.has(self@.dirs[dir as int].children[i as int]));
                    let child = children[i];
                    if same(self.get_name(child), name) {
                        proof {
                            self@.lemma_child_stays(element, name@, i + 1, children.len() as int);
                        }
                        return Some(child);
                    }
                    i += 1;
                }
                None
            },
        }
    }

    /// The directory in which a file or a directory stands.
    pub fn get_parent(&self, element: DirElement) -> (r: Option<usize>)
        requires
            self@.sound(),
            self@.has(element),
        ensures
            r == self@.get_parent(element),
            r is Some ==> r->0 < self.dirs.len(),
    {
        match element {
            DirElement::File(file) => {
                assert(self@.files[file as int].parent == self.files@[file as int].parent);
                Some(self.files[file].parent)
            },
            DirElement::Dir(dir) => {
                assert(self@.dirs[dir as int].parent == self.dirs@[dir as int].parent);
                self.dirs[dir].parent
            },
        }
    }
}

impl TreeView {
    /// The sizes of the things in a directory add up to no less than 0.
    pub proof fn lemma_sum_positive(self, d: int, n: int)
        requires
            0 <= d < self.dirs.len(),
        ensures
            0 <= self.sum(d, n),
        decreases self.dirs.len() - d, n + 1,
    {
        if 0 < n <= self.dirs[d].children.len() {
            self.lemma_sum_positive(d, n - 1);
            match self.dirs[d].children[n - 1] {
                DirElement::Dir(c) => {
                    if d < c < self.dirs.len() {
                        self.lemma_sum_positive(
                            c as int,
                            self.dirs[c as int].children.len() as int,
                        );
                        assert(self.size(DirElement::Dir(c)) == self.sum(
                            c as int,
                            self.dirs[c as int].children.len() as int,
                        ));
                    }
                },
                DirElement::File(f) => {},
            }
        }
    }

    /// The sizes of the things in a directory add up to more with each thing.
    pub proof fn lemma_sum_grows(self, d: int, n: int, m: int)
        requires
            0 <= d < self.dirs.len(),
            0 <= n <= m <= self.dirs[d].children.len(),
        ensures
            0 <= self.sum(d, n) <= self.sum(d, m),
        decreases m - n,
    {
        self.lemma_sum_positive(d, n);
        if n < m {
            self.lemma_sum_grows(d, n, m - 1);
            match self.dirs[d].children[m - 1] {
                DirElement::Dir(c) => {
                    if d < c < self.dirs.len() {
                        self.lemma_sum_positive(
                            c as int,
                            self.dirs[c as int].children.len() as int,
                        );
                        assert(self.size(DirElement::Dir(c)) == self.sum(
                            c as int,
                            self.dirs[c as int].children.len() as int,
                        ));
                    }
                },
                DirElement::File(f) => {},
            }
        }
    }

    /// The first thing of a name stays the first when more things are looked at.
    pub proof fn lemma_child_stays(self, e: DirElement, name: Seq<char>, n: int, m: int)
        requires
            n <= m,
            self.child(e, name, n) is Some,
        ensures
            self.child(e, name, m) == self.child(e, name, n),
        decreases m,
    {
        if n < m {
            self.lemma_child_stays(e, name, n, m - 1);
        }
    }
}

/// Where one is on the device while its output is read.
#[derive(Debug)]
pub struct DirCursor {
    pub cursor: DirElement,
    pub root: usize,
    pub is_ls: bool,
    pub tree: Tree,
}

/// What the cursor holds.
pub struct CursorView {
    pub cursor: DirElement,
    pub is_ls: bool,
    pub tree: TreeView,
}

impl View for DirCursor {
    type V = CursorView;

    open spec fn view(&self) -> CursorView {
        CursorView { cursor: self.cursor, is_ls: self.is_ls, tree: self.tree@ }
    }
}

impl CursorView {
    /// Whether the cursor stands on something of a device that is well built.
    pub open spec fn sound(self) -> bool {
        self.tree.sound() && self.tree.has(self.cursor)
    }

    /// Where the steps of the path from number `i` on lead, and whether all could be taken.
    /// The way ends where a step cannot be taken.
    pub open spec fn follow(self, path: Seq<Step>, i: int) -> (DirElement, bool)
        decreases path.len() - i,
    {
        if i < 0 || i >= path.len() {
            (self.cursor, true)
        } else {
            match path[i] {
                Step::Current => self.follow(path, i + 1),
                Step::Parent => match self.tree.get_parent(self.cursor) {
                    Some(p) => (CursorView { cursor: DirElement::Dir(p), ..self }).follow(path, i + 1),
                    None => (self.cursor, false),
                },
                Step::Child(name) => match self.tree.get_child(self.cursor, name) {
                    Some(c) => (CursorView { cursor: c, ..self }).follow(path, i + 1),
                    None => (self.cursor, false),
                },
            }
        }
    }

    /// Where `cd` with the path leads, and whether it succeeds: to the outermost directory
    /// for `/`, else along the steps of the path.
    pub open spec fn cd(self, path_str: Seq<char>) -> (CursorView, bool) {
        if path_str.len() == 1 && path_str[0] == '/' {
            (CursorView { cursor: DirElement::Dir(0), ..self }, true)
        } else {
            match path_of(path_str) {
                Some(path) => (
                    CursorView { cursor: self.follow(path, 0).0, ..self },
                    self.follow(path, 0).1,
                ),
                None => (self, false),
            }
        }
    }

    /// What a line of the listing adds to the directory on which the cursor stands: a file
    /// where the text before the first blank writes a size, else a directory; the name is
    /// what follows the blank.
    pub open spec fn listed(self, line: Seq<char>) -> (CursorView, bool) {
        match (halves(line, ' '), self.cursor) {
            (Some((size_or_dir, name)), DirElement::Dir(d)) => (
                CursorView {
                    tree: match u32_of(size_or_dir) {
                        Some(size) => self.tree.with_file(d as int, size, name),
                        None => self.tree.with_dir(d as int, name),
                    },
                    ..self
                },
                true,
            ),
            _ => (self, false),
        }
    }

    /// What a command does, which is a line without the dollar sign and the character behind
    /// it: `ls` begins a listing, `cd` goes along the path that begins at the fourth byte of
    /// the command. `None` when the command cannot be cut there.
    pub open spec fn commanded(self, line: Seq<char>) -> Option<(CursorView, bool)> {
        let quiet = CursorView { is_ls: false, ..self };
        match first_word(line) {
            None => Some((quiet, false)),
            Some(word) => if word == "ls"@ {
                Some((CursorView { is_ls: true, ..self }, true))
            } else if word == "cd"@ {
                match after_bytes(line, 3) {
                    Some(path) => Some(quiet.cd(path)),
                    None => None,
                }
            } else {
                Some((quiet, false))
            },
        }
    }

    /// What a line of the output does: a command where it begins with a dollar sign, else a
    /// line of a listing, which must have begun. `None` when a command cannot be cut out.
    pub open spec fn handled(self, line: Seq<char>) -> Option<(CursorView, bool)> {
        if line.len() > 0 && line[0] == '$' {
            match after_bytes(line, 2) {
                Some(command) => self.commanded(command),
                None => None,
            }
        } else if !self.is_ls {
            Some((self, false))
        } else {
            Some(self.listed(line))
        }
    }

    /// The cursor after the first `n` lines, each without the white space at its ends and
    /// lines without a character left out; `None` when a line fails.
    pub open spec fn read(self, lines: Seq<Seq<char>>, n: int) -> Option<CursorView>
        decreases n,
    {
        if n <= 0 {
            Some(self)
        } else {
            match self.read(lines, n - 1) {
                Some(c) => if trimmed(lines[n - 1]).len() == 0 {
                    Some(c)
                } else {
                    match c.handled(trimmed(lines[n - 1])) {
                        Some((next, true)) => Some(next),
                        _ => None,
                    }
                },
                None => None,
            }
        }
    }
}

/// A device with an outermost directory without a name and nothing in it, the cursor on that
/// directory.
pub open spec fn empty_cursor() -> CursorView {
    CursorView {
        cursor: DirElement::Dir(0),
        is_ls: false,
        tree: TreeView {
            dirs: seq![DirView { name: Seq::empty(), children: Seq::empty(), parent: None }],
            files: Seq::empty(),
        },
    }
}

/// The device that the output of a terminal shows.
pub open spec fn parsed(text: Seq<char>) -> Option<CursorView> {
    empty_cursor().read(pieces(text, '\n'), pieces(text, '\n').len() as int)
}

impl DirCursor {
    /// A cursor on an empty device.
    pub fn create_empty() -> (r: Self)
        ensures
            r@ == empty_cursor(),
            r@.sound(),
            r.root == 0,
    {
        let mut dirs: Vec<Dir> = Vec::new();
        dirs.push(Dir { name: String::new(), children: Vec::new(), parent: None });
        let r = Self {
            root: 0,
            cursor: DirElement::Dir(0),
            is_ls: false,
            tree: Tree { dirs, files: Vec::new() },
        };
        assert(r@.tree.dirs =~= empty_cursor().tree.dirs);
        assert(r@.tree.files =~= empty_cursor().tree.files);
        r
    }

    /// Moves the cursor along the path. Where a step cannot be taken, the cursor stays where
    /// it has come to.
    pub fn cd(&mut self, path_str: &str) -> (r: Result<(), ()>)
        requires
            old(self)@.sound(),
            old(self).root == 0,
        ensures
            final(self)@ == old(self)@.cd(path_str@).0,
            r is Ok == old(self)@.cd(path_str@).1,
            final(self)@.sound(),
            final(self).root == 0,
    {
        if same(path_str, "/") {
            proof {
                reveal_strlit("/");
            }
            self.cursor = DirElement::Dir(self.root);
            return Ok(());
        }
        proof {
            reveal_strlit("/");
            if path_str@.len() == 1 && path_str@[0] == '/' {
                assert(path_str@ =~= "/"@);
            }
        }
        let path = match make_path(path_str) {
            Ok(path) => path,
            Err(_) => {
                return Err(());
            },
        };
        let ghost start = self@;
        let ghost steps = walk(path@);
        let mut i: usize = 0;
        while i < path.len()
            invariant
                steps == walk(path@),
                start == old(self)@,
                !(path_str@.len() == 1 && path_str@[0] == '/'),
                path_of(path_str@) == Some(steps),
                0 <= i <= path.len(),
                self@.sound(),
                self.root == 0,
                self@.tree == start.tree,
                self@.is_ls == start.is_ls,
                start.follow(steps, 0) == self@.follow(steps, i as int),
            decreases path.len() - i,
        {
            assert(steps[i as int] == path@[i as int]@);
            match &path[i] {
                PathElement::Current => {},
                PathElement::Parent => {
                    if let Some(parent) = self.tree.get_parent(self.cursor) {
                        self.cursor = DirElement::Dir(parent);
                    } else {
                        return Err(());
                    }
                },
                PathElement::Child(name) => {
                    if let Some(child) = self.tree.get_child(self.cursor, name.as_str()) {
                        self.cursor = child;
                    } else {
                        return Err(());
                    }
                },
            }
            i += 1;
        }
        Ok(())
    }

    /// Takes up a command.
    pub fn handle_command_line(&mut self, line: &str) -> (r: Result<(), ()>)
        requires
            old(self)@.sound(),
            old(self).root == 0,
            old(self)@.commanded(line@) is Some,
        ensures
            final(self)@ == old(self)@.commanded(line@).unwrap().0,
            r is Ok == old(self)@.commanded(line@).unwrap().1,
            final(self)@.sound(),
            final(self).root == 0,
    {
        proof {
            reveal_strlit("ls");
            reveal_strlit("cd");
        }
        self.is_ls = false;
        match next_word(line) {
            None => Err(()),
            Some(word) => {
                if same(word, "ls") {
                    self.is_ls = true;
                    Ok(())
                } else if same(word, "cd") {
                    self.cd(skip_bytes(line, 3).unwrap())
                } else {
                    Err(())
                }
            },
        }
    }

    /// Takes up a line of a listing.
    pub fn handle_ls_line(&mut self, line: &str) -> (r: Result<(), ()>)
        requires
            old(self)@.sound(),
            old(self).root == 0,
        ensures
            final(self)@ == old(self)@.listed(line@).0,
            r is Ok == old(self)@.listed(line@).1,
            final(self)@.sound(),
            final(self).root == 0,
    {
        if let Some((size_or_dir, name)) = split_once(line, ' ') {
            match self.cursor {
                DirElement::File(_) => {
                    return Err(());
                },
                DirElement::Dir(cursor) => {
                    match parse_u32(size_or_dir) {
                        Some(size) => {
                            self.tree.add_child_file(cursor, size, name);
                        },
                        None => {
                            self.tree.add_child_dir(cursor, name);
                        },
                    }
                    return Ok(());
                },
            }
        }
        Err(())
    }

    /// Takes up a line of the output.
    pub fn handle_line(&mut self, line: &str) -> (r: Result<(), ()>)
        requires
            old(self)@.sound(),
            old(self).root == 0,
            old(self)@.handled(line@) is Some,
        ensures
            final(self)@ == old(self)@.handled(line@).unwrap().0,
            r is Ok == old(self)@.handled(line@).unwrap().1,
            final(self)@.sound(),
            final(self).root == 0,
    {
        let v = chars(line);
        if v.len() > 0 && v[0] == '$' {
            self.handle_command_line(skip_bytes(line, 2).unwrap())
        } else {
            if !self.is_ls {
                return Err(());
            }
            self.handle_ls_line(line)
        }
    }

    /// Tells whether a line of the output can be taken up without a command that cannot be
    /// cut out.
    pub fn can_handle(&self, line: &str) -> (r: bool)
        ensures
            r == self@.handled(line@) is Some,
    {
        proof {
            reveal_strlit("ls");
            reveal_strlit("cd");
        }
        let v = chars(line);
        if v.len() > 0 && v[0] == '$' {
            match skip_bytes(line, 2) {
                Some(command) => match next_word(command) {
                    Some(word) => !same(word, "cd") || same(word, "ls") || skip_bytes(
                        command,
                        3,
                    ).is_some(),
                    None => true,
                },
                None => false,
            }
        } else {
            true
        }
    }
}

/// Rebuilds the device from the output, if every line can be taken up.
pub fn try_parse_output(text: &str) -> (r: Option<DirCursor>)
    ensures
        r is Some == parsed(text@) is Some,
        r is Some ==> r->0@ == parsed(text@)->0 && r->0@.sound() && r->0.root == 0,
{
    let mut dir = DirCursor::create_empty();
    let lines = split(text, '\n');
    let ghost all = pieces(text@, '\n');
    let mut i: usize = 0;
    while i < lines.len()
        invariant
            views(lines@) == all,
            all == pieces(text@, '\n'),
            0 <= i <= lines.len(),
            dir@.sound(),
            dir.root == 0,
            empty_cursor().read(all, i as int) == Some(dir@),
        decreases lines.len() - i,
    {
        assert(views(lines@)[i as int] == lines@[i as int]@);
        let line = trim(lines[i]);
        if !line.is_empty() {
            if !dir.can_handle(line) {
                proof {
                    lemma_read_fails(empty_cursor(), all, i + 1, all.len() as int);
                }
                return None;
            }
            if dir.handle_line(line).is_err() {
                proof {
                    lemma_read_fails(empty_cursor(), all, i + 1, all.len() as int);
                }
                return None;
            }
        }
        i += 1;
    }
    Some(dir)
}

/// Once a line has failed, the output shows no device.
pub proof fn lemma_read_fails(c: CursorView, lines: Seq<Seq<char>>, n: int, m: int)
    requires
        n <= m,
        c.read(lines, n) is None,
    ensures
        c.read(lines, m) is None,
    decreases m,
{
    if n < m {
        lemma_read_fails(c, lines, n, m - 1);
    }
}

/// Rebuilds the device from the output.
pub fn parse_output(text: &str) -> (r: DirCursor)
    requires
        parsed(text@) is Some,
    ensures
        r@ == parsed(text@)->0,
        r@.sound(),
        r.root == 0,
{
    try_parse_output(text).unwrap()
}

impl TreeView {
    /// Directory `d` and the directories below it: each directory before what stands in it,
    /// and that in its order.
    pub open spec fn all_dirs(self, d: int) -> Seq<usize>
        decreases self.dirs.len() - d, 1int, 0int,
    {
        if 0 <= d < self.dirs.len() {
            seq![d as usize] + self.all_in(d, self.dirs[d].children.len() as int)
        } else {
            Seq::empty()
        }
    }

    /// The directories among the first `n` things in directory `d`, with those below them.
    pub open spec fn all_in(self, d: int, n: int) -> Seq<usize>
        decreases self.dirs.len() - d, 0int, n + 1,
    {
        if n <= 0 || d < 0 || d >= self.dirs.len() || n > self.dirs[d].children.len() {
            Seq::empty()
        } else {
            self.all_in(d, n - 1) + match self.dirs[d].children[n - 1] {
                DirElement::Dir(c) => if d < c < self.dirs.len() {
                    self.all_dirs(c as int)
                } else {
                    Seq::empty()
                },
                DirElement::File(_) => Seq::empty(),
            }
        }
    }

    /// Whether the directory is at most as large as `limit`.
    pub open spec fn small(self, limit: u32) -> spec_fn(usize) -> bool {
        |d: usize| self.size(DirElement::Dir(d)) <= limit
    }
}

/// Adds the directory and the directories below it to the list.
pub fn get_all_dir_recur(tree: &Tree, dir: usize, result: &mut Vec<usize>)
    requires
        tree@.sound(),
        dir < tree.dirs.len(),
        forall|j: int| 0 <= j < old(result).len() ==> old(result)[j] < tree.dirs.len(),
    ensures
        final(result)@ == old(result)@ + tree@.all_dirs(dir as int),
        forall|j: int| 0 <= j < final(result).len() ==> final(result)[j] < tree.dirs.len(),
    decreases tree.dirs.len() - dir,
{
    let ghost before = result@;
    result.push(dir);
    let children = &tree.dirs[dir].children;
    assert(children@ == tree@.dirs[dir as int].children);
    let mut i: usize = 0;
    assert(result@ =~= before + (seq![dir] + tree@.all_in(dir as int, 0)));
    while i < children.len()
        invariant
            tree@.sound(),
            dir < tree.dirs.len(),
            children@ == tree@.dirs[dir as int].children,
            0 <= i <= children.len(),
            result@ == before + (seq![dir] + tree@.all_in(dir as int, i as int)),
            forall|j: int| 0 <= j < result.len() ==> result[j] < tree.dirs.len(),
        decreases children.len() - i,
    {
        assert(tree@.has(tree@.dirs[dir as int].children[i as int]));
        let ghost so_far = result@;
        match children[i] {
            DirElement::File(_) => {
                assert(tree@.all_in(dir as int, i + 1) =~= tree@.all_in(dir as int, i as int));
            },
            DirElement::Dir(child) => {
                get_all_dir_recur(tree, child, result);
                assert(result@ =~= before + (seq![dir] + tree@.all_in(dir as int, i + 1)));
            },
        }
        i += 1;
    }
}

/// Adds those among the directory and the directories below it to the list that are at most
/// as large as `limit`.
pub fn get_small_dir_recur(tree: &Tree, dir: usize, result: &mut Vec<usize>, limit: u32)
    requires
        tree@.sound(),
        dir < tree.dirs.len(),
        forall|j: int|
            0 <= j < tree@.all_dirs(dir as int).len() ==> tree@.size(
                DirElement::Dir(#[trigger] tree@.all_dirs(dir as int)[j]),
            ) <= u32::MAX,
    ensures
        final(result)@ == old(result)@ + tree@.all_dirs(dir as int).filter(tree@.small(limit)),
{
    let mut all: Vec<usize> = Vec::new();
    get_all_dir_recur(tree, dir, &mut all);
    assert(all@ =~= tree@.all_dirs(dir as int));
    let ghost before = result@;
    let ghost keep = tree@.small(limit);
    let mut i: usize = 0;
    assert(all@.take(0) =~= Seq::<usize>::empty());
    assert(result@ =~= before + all@.take(0).filter(keep)) by {
        reveal(Seq::filter);
    }
    while i < all.len()
        invariant
            tree@.sound(),
            keep == tree@.small(limit),
            all@ == tree@.all_dirs(dir as int),
            forall|j: int| 0 <= j < all.len() ==> all[j] < tree.dirs.len(),
            forall|j: int|
                0 <= j < all.len() ==> tree@.size(DirElement::Dir(#[trigger] all@[j])) <= u32::MAX,
            0 <= i <= all.len(),
            result@ == before + all@.take(i as int).filter(keep),
        decreases all.len() - i,
    {
        let d = all[i];
        proof {
            assert(all@.take(i + 1).drop_last() =~= all@.take(i as int));
            assert(all@.take(i + 1).last() == d);
            reveal(Seq::filter);
        }
        if tree.get_total_size(d) <= limit {
            result.push(d);
            assert(result@ =~= before + all@.take(i + 1).filter(keep));
        }
        i += 1;
    }
    assert(all@.take(all.len() as int) =~= all@);
}

/// The sizes of the first `n` directories of the list, added up.
pub open spec fn sizes(tree: TreeView, list: Seq<usize>, n: int) -> int
    decreases n,
{
    if n <= 0 {
        0
    } else {
        sizes(tree, list, n - 1) + tree.size(DirElement::Dir(list[n - 1]))
    }
}

/// Whether every directory of the device has a size that can be held.
pub open spec fn holdable(tree: TreeView) -> bool {
    forall|j: int|
        0 <= j < tree.all_dirs(0).len() ==> tree.size(DirElement::Dir(#[trigger] tree.all_dirs(0)[j]))
            <= u32::MAX
}

/// Tells whether every directory of the device has a size that can be held.
fn is_holdable(tree: &Tree) -> (r: bool)
    requires
        tree@.sound(),
    ensures
        r == holdable(tree@),
{
    let mut all: Vec<usize> = Vec::new();
    get_all_dir_recur(tree, 0, &mut all);
    assert(all@ =~= tree@.all_dirs(0));
    let mut i: usize = 0;
    while i < all.len()
        invariant
            tree@.sound(),
            all@ == tree@.all_dirs(0),
            forall|j: int| 0 <= j < all.len() ==> all[j] < tree.dirs.len(),
            0 <= i <= all.len(),
            forall|j: int| 0 <= j < i ==> tree@.size(DirElement::Dir(#[trigger] all@[j])) <= u32::MAX,
        decreases all.len() - i,
    {
        if tree.try_get_total_size(all[i]).is_none() {
            return false;
        }
        i += 1;
    }
    true
}

/// The sizes of the directories of at most 100000 added up; `None` when the output shows no
/// device or a number cannot be held.
pub open spec fn answer_1(input: Seq<char>) -> Option<int> {
    match parsed(input) {
        Some(c) => {
            let small = c.tree.all_dirs(0).filter(c.tree.small(100_000));
            if holdable(c.tree) && sizes(c.tree, small, small.len() as int) <= u32::MAX {
                Some(sizes(c.tree, small, small.len() as int))
            } else {
                None
            }
        },
        None => None,
    }
}

/// The sizes grow with the number of directories.
pub proof fn lemma_sizes_grow(tree: TreeView, list: Seq<usize>, n: int, m: int)
    requires
        tree.sound(),
        0 <= n <= m <= list.len(),
        forall|j: int| 0 <= j < list.len() ==> list[j] < tree.dirs.len(),
    ensures
        0 <= sizes(tree, list, n) <= sizes(tree, list, m),
    decreases m,
{
    if m > 0 {
        if n < m {
            lemma_sizes_grow(tree, list, n, m - 1);
        } else {
            lemma_sizes_grow(tree, list, n - 1, m - 1);
        }
        tree.lemma_sum_positive(
            list[m - 1] as int,
            tree.dirs[list[m - 1] as int].children.len() as int,
        );
        assert(tree.size(DirElement::Dir(list[m - 1])) == tree.sum(
            list[m - 1] as int,
            tree.dirs[list[m - 1] as int].children.len() as int,
        ));
    }
}

/// The sizes of the directories of at most 100000 added up, if they can be worked out.
pub fn try_puzzle_1(input: &str) -> (r: Option<String>)
    ensures
        r is Some == answer_1(input@) is Some,
        r is Some ==> r->0@ == decimal(answer_1(input@)->0),
{
    let dir = match try_parse_output(input) {
        Some(dir) => dir,
        None => {
            return None;
        },
    };
    if !is_holdable(&dir.tree) {
        return None;
    }
    let mut small_dirs: Vec<usize> = Vec::new();
    get_small_dir_recur(&dir.tree, dir.root, &mut small_dirs, 100_000);
    let ghost tree = dir.tree@;
    let ghost small = tree.all_dirs(0).filter(tree.small(100_000));
    assert(small_dirs@ =~= small);
    assert forall|j: int| 0 <= j < small.len() implies small[j] < tree.dirs.len() && tree.size(
        DirElement::Dir(small[j]),
    ) <= 100_000 by {
        tree.all_dirs(0).lemma_filter_contains_rev(tree.small(100_000), small[j]);
        let k = choose|k: int| 0 <= k < tree.all_dirs(0).len() && tree.all_dirs(0)[k] == small[j];
        lemma_all_dirs_exist(tree, 0, k);
    }
    let mut size: u32 = 0;
    let mut i: usize = 0;
    while i < small_dirs.len()
        invariant
            tree == dir.tree@,
            tree.sound(),
            parsed(input@) == Some(dir@),
            holdable(tree),
            small == tree.all_dirs(0).filter(tree.small(100_000)),
            small_dirs@ == small,
            forall|j: int|
                0 <= j < small.len() ==> small[j] < tree.dirs.len() && tree.size(
                    DirElement::Dir(small[j]),
                ) <= 100_000,
            0 <= i <= small_dirs.len(),
            size == sizes(tree, small, i as int),
        decreases small_dirs.len() - i,
    {
        let d = small_dirs[i];
        match size.checked_add(dir.tree.get_total_size(d)) {
            Some(s) => {
                size = s;
            },
            None => {
                proof {
                    lemma_sizes_grow(tree, small, i + 1, small.len() as int);
                }
                return None;
            },
        }
        i += 1;
    }
    Some(format_u64(size as u64))
}

/// The directories listed are directories of the device.
pub proof fn lemma_all_dirs_exist(tree: TreeView, d: int, k: int)
    requires
        tree.sound(),
        0 <= d < tree.dirs.len(),
        0 <= k < tree.all_dirs(d).len(),
    ensures
        tree.all_dirs(d)[k] < tree.dirs.len(),
    decreases tree.dirs.len() - d, 1int, 0int,
{
    if k > 0 {
        lemma_all_in_exist(tree, d, tree.dirs[d].children.len() as int, k - 1);
    }
}

/// The directories listed below a directory are directories of the device.
pub proof fn lemma_all_in_exist(tree: TreeView, d: int, n: int, k: int)
    requires
        tree.sound(),
        0 <= d < tree.dirs.len(),
        0 <= n <= tree.dirs[d].children.len(),
        0 <= k < tree.all_in(d, n).len(),
    ensures
        tree.all_in(d, n)[k] < tree.dirs.len(),
    decreases tree.dirs.len() - d, 0int, n + 1,
{
    if n > 0 {
        if k < tree.all_in(d, n - 1).len() {
            lemma_all_in_exist(tree, d, n - 1, k);
        } else {
            match tree.dirs[d].children[n - 1] {
                DirElement::Dir(c) => {
                    if d < c < tree.dirs.len() {
                        lemma_all_dirs_exist(tree, c as int, k - tree.all_in(d, n - 1).len());
                    }
                },
                DirElement::File(_) => {},
            }
        }
    }
}

/// The sizes of the directories of at most 100000 added up.
pub fn puzzle_1(input: &str) -> (r: String)
    requires
        answer_1(input@) is Some,
    ensures
        r@ == decimal(answer_1(input@)->0),
{
    try_puzzle_1(input).unwrap()
}

/// The size of the first `n` directories of the list that is the least among those of at
/// least `floor`; `None` when none is that large.
pub open spec fn least_from(tree: TreeView, list: Seq<usize>, n: int, floor: int) -> Option<int>
    decreases n,
{
    if n <= 0 {
        None
    } else {
        let size = tree.size(DirElement::Dir(list[n - 1]));
        match least_from(tree, list, n - 1, floor) {
            Some(best) => if floor <= size < best {
                Some(size)
            } else {
                Some(best)
            },
            None => if floor <= size {
                Some(size)
            } else {
                None
            },
        }
    }
}

/// What is written for the directory to delete: nothing where more than 30000000 of the
/// 70000000 of the device are free, else the size of the smallest directory that frees enough
/// when deleted. `None` when the output shows no device, a size cannot be held or the device
/// holds more than 70000000.
pub open spec fn answer_2(input: Seq<char>) -> Option<Seq<char>> {
    match parsed(input) {
        Some(c) => {
            let used = c.tree.size(DirElement::Dir(0));
            if !holdable(c.tree) || used > 70_000_000 {
                None
            } else if 70_000_000 - used > 30_000_000 {
                Some(Seq::empty())
            } else {
                match least_from(
                    c.tree,
                    c.tree.all_dirs(0),
                    c.tree.all_dirs(0).len() as int,
                    30_000_000 - (70_000_000 - used),
                ) {
                    Some(size) => Some(decimal(size)),
                    None => None,
                }
            }
        },
        None => None,
    }
}

/// What is written for the directory to delete, if it can be worked out.
pub fn try_puzzle_2(input: &str) -> (r: Option<String>)
    ensures
        r is Some == answer_2(input@) is Some,
        r is Some ==> r->0@ == answer_2(input@)->0,
{
    let target: u32 = 30_000_000;
    let fs_total: u32 = 70_000_000;
    let dir = match try_parse_output(input) {
        Some(dir) => dir,
        None => {
            return None;
        },
    };
    if !is_holdable(&dir.tree) {
        return None;
    }
    let ghost tree = dir.tree@;
    let mut all_dirs: Vec<usize> = Vec::new();
    get_all_dir_recur(&dir.tree, dir.root, &mut all_dirs);
    assert(all_dirs@ =~= tree.all_dirs(0));
    assert(tree.all_dirs(0)[0] == 0);
    let used = dir.tree.get_total_size(dir.root);
    if used > fs_total {
        return None;
    }
    let space_left = fs_total - used;
    if space_left > target {
        return Some(String::new());
    }
    let to_save = target - space_left;
    let mut best: Option<u32> = None;
    let mut i: usize = 0;
    while i < all_dirs.len()
        invariant
            tree == dir.tree@,
            tree.sound(),
            holdable(tree),
            all_dirs@ == tree.all_dirs(0),
            forall|j: int| 0 <= j < all_dirs.len() ==> all_dirs[j] < dir.tree.dirs.len(),
            0 <= i <= all_dirs.len(),
            best is Some == least_from(tree, all_dirs@, i as int, to_save as int) is Some,
            best is Some ==> best->0 == least_from(tree, all_dirs@, i as int, to_save as int)->0,
        decreases all_dirs.len() - i,
    {
        let size = dir.tree.get_total_size(all_dirs[i]);
        best = match best {
            Some(b) => if to_save <= size && size < b {
                Some(size)
            } else {
                Some(b)
            },
            None => if to_save <= size {
                Some(size)
            } else {
                None
            },
        };
        i += 1;
    }
    match best {
        Some(size) => Some(format_u64(size as u64)),
        None => None,
    }
}

/// What is written for the directory to delete.
pub fn puzzle_2(input: &str) -> (r: String)
    requires
        answer_2(input@) is Some,
    ensures
        r@ == answer_2(input@)->0,
{
    try_puzzle_2(input).unwrap()
}

} // verus!
