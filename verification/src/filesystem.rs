//! A directory tree rebuilt from a terminal transcript: `cd` and `ls`
//! commands with the files and directories they reveal, and the disk usage
//! of any subtree.

use vstd::prelude::*;
use vstd::string::StringSliceAdditionalSpecFns;

verus! {

/// A file with its size, or a directory with its children.
#[derive(Debug)]
pub enum FileSystem {
    Dir(String, Vec<FileSystem>),
    File(String, usize),
}

/// The name of a node.
pub open spec fn fs_name(fs: FileSystem) -> Seq<char> {
    match fs {
        FileSystem::Dir(n, _) => n@,
        FileSystem::File(n, _) => n@,
    }
}

/// The total size of every file in a subtree.
pub open spec fn du_spec(fs: FileSystem) -> int
    decreases fs,
{
    match fs {
        FileSystem::File(_, size) => size as int,
        FileSystem::Dir(_, children) => du_seq(children@),
    }
}

/// The total size of every file under a list of nodes.
pub open spec fn du_seq(cs: Seq<FileSystem>) -> int
    decreases cs,
{
    if cs.len() == 0 {
        0
    } else {
        du_spec(cs.last()) + du_seq(cs.drop_last())
    }
}

/// Why a transcript command failed.
#[derive(Copy, Debug, Clone, PartialEq, Eq, Structural)]
pub enum FsError {
    /// The current path names no node.
    NoSuchPath,
    /// The named node is not a directory.
    NotADirectory,
    /// `cd ..` was used at the root.
    NoParent,
    /// A transcript line fits no command.
    BadCommand,
}

/// Whether two pieces of text are the same characters.
pub fn str_eq(a: &str, b: &str) -> (r: bool)
    ensures
        r == (a@ == b@),
{
    broadcast use vstd::utf8::encode_utf8_decode_utf8;

    let av = a.as_bytes_vec();
    let bv = b.as_bytes_vec();
    if av.len() != bv.len() {
        proof {
            if a@ == b@ {
                assert(a.spec_bytes() == b.spec_bytes());
            }
        }
        return false;
    }
    let mut i: usize = 0;
    while i < av.len()
        invariant
            i <= av@.len(),
            av@.len() == bv@.len(),
            av@ == a.spec_bytes(),
            bv@ == b.spec_bytes(),
            forall|k: int| 0 <= k < i ==> av@[k] == bv@[k],
        decreases av@.len() - i,
    {
        if av[i] != bv[i] {
            proof {
                if a@ == b@ {
                    assert(a.spec_bytes() == b.spec_bytes());
                }
            }
            return false;
        }
        i += 1;
    }
    proof {
        assert(a.spec_bytes() =~= b.spec_bytes());
        assert(vstd::utf8::decode_utf8(a.spec_bytes()) == vstd::utf8::decode_utf8(
            b.spec_bytes(),
        ));
        assert(a@ == b@);
    }
    true
}

/// The index of the first child with the given name, if any.
pub open spec fn child_index(cs: Seq<FileSystem>, name: Seq<char>) -> Option<int>
    decreases cs.len(),
{
    if cs.len() == 0 {
        None
    } else if fs_name(cs[0]) == name {
        Some(0)
    } else {
        match child_index(cs.skip(1), name) {
            Some(i) => Some(i + 1),
            None => None,
        }
    }
}

/// What `child_index` finds is the first child of that name.
pub proof fn lemma_child_index(cs: Seq<FileSystem>, name: Seq<char>)
    ensures
        match child_index(cs, name) {
            Some(i) => 0 <= i < cs.len() && fs_name(cs[i]) == name && forall|j: int|
                0 <= j < i ==> fs_name(#[trigger] cs[j]) != name,
            None => forall|j: int| 0 <= j < cs.len() ==> fs_name(#[trigger] cs[j]) != name,
        },
    decreases cs.len(),
{
    if cs.len() > 0 && fs_name(cs[0]) != name {
        lemma_child_index(cs.skip(1), name);
        assert forall|j: int| 1 <= j < cs.len() implies cs[j] == cs.skip(1)[j - 1] by {}
    }
}

/// The child a name denotes within a node: nothing at a file.
pub open spec fn get_spec(fs: FileSystem, name: Seq<char>) -> Option<FileSystem> {
    match fs {
        FileSystem::Dir(_, cs) => match child_index(cs@, name) {
            Some(i) => Some(cs@[i]),
            None => None,
        },
        FileSystem::File(_, _) => None,
    }
}

/// The path as the search walks it: a leading empty part is dropped.
pub open spec fn path_parts(path: Seq<Seq<char>>) -> Seq<Seq<char>> {
    if path.len() > 0 && path[0].len() == 0 {
        path.skip(1)
    } else {
        path
    }
}

/// The node a path of names leads to, one `get` per part.
pub open spec fn get_path_spec(fs: FileSystem, parts: Seq<Seq<char>>) -> Option<FileSystem>
    decreases parts.len(),
{
    if parts.len() == 0 {
        Some(fs)
    } else {
        match get_spec(fs, parts[0]) {
            Some(c) => get_path_spec(c, parts.skip(1)),
            None => None,
        }
    }
}

impl FileSystem {
    /// The node's name.
    pub fn name<'a>(&'a self) -> (r: &'a str)
        ensures
            r@ == fs_name(*self),
    {
        match self {
            Self::Dir(name, _) => name.as_str(),
            Self::File(name, _) => name.as_str(),
        }
    }

    /// The child of that name, for a directory that has one.
    pub fn get<'a>(&'a self, name: &str) -> (r: Option<&'a Self>)
        ensures
            match r {
                Some(c) => get_spec(*self, name@) == Some(*c),
                None => get_spec(*self, name@) is None,
            },
    {
        proof {
            match self {
                FileSystem::Dir(_, cs) => {
                    lemma_child_index(cs@, name@);
                },
                FileSystem::File(_, _) => {},
            }
        }
        match self {
            Self::Dir(_, children) => {
                let mut i: usize = 0;
                while i < children.len()
                    invariant
                        i <= children@.len(),
                        match child_index(children@, name@) {
                            Some(k) => get_spec(*self, name@) == Some(children@[k]),
                            None => get_spec(*self, name@) is None,
                        },
                        forall|j: int| 0 <= j < i ==> fs_name(#[trigger] children@[j]) != name@,
                    decreases children@.len() - i,
                {
                    if str_eq(children[i].name(), name) {
                        proof {
                            lemma_child_index(children@, name@);
                            match child_index(children@, name@) {
                                Some(k) => {
                                    assert(!(k < i) && !(i < k));
                                },
                                None => {
                                    assert(fs_name(children@[i as int]) != name@);
                                },
                            }
                        }
                        return Some(&children[i]);
                    }
                    i += 1;
                }
                proof {
                    lemma_child_index(children@, name@);
                    if child_index(children@, name@) is Some {
                        let k = child_index(children@, name@).unwrap();
                        assert(fs_name(children@[k]) != name@);
                    }
                }
                None
            },
            Self::File(_, _) => None,
        }
    }

    /// The node a path leads to, ignoring one leading empty part.
    pub fn get_path<'a>(&'a self, path: &Vec<String>) -> (r: Option<&'a Self>)
        ensures
            ({
                let parts = path_parts(path@.map(|i: int, p: String| p@));
                match r {
                    Some(c) => get_path_spec(*self, parts) == Some(*c),
                    None => get_path_spec(*self, parts) is None,
                }
            }),
    {
        let ghost pv = path@.map(|i: int, p: String| p@);
        let mut start: usize = 0;
        if path.len() > 0 {
            let first = &path[0];
            proof {
                assert(first@ == pv[0]);
            }
            if first.as_str().unicode_len() == 0 {
                start = 1;
            }
        }
        proof {
            assert(path_parts(pv) =~= pv.skip(start as int));
        }
        let mut ptr: &FileSystem = self;
        let mut i: usize = start;
        while i < path.len()
            invariant
                start <= i <= pv.len(),
                pv == path@.map(|k: int, p: String| p@),
                path_parts(pv) == pv.skip(start as int),
                get_path_spec(*self, pv.skip(start as int)) == get_path_spec(
                    *ptr,
                    pv.skip(i as int),
                ),
            decreases pv.len() - i,
        {
            proof {
                assert(pv.skip(i as int)[0] == pv[i as int]);
                assert(pv.skip(i as int).skip(1) =~= pv.skip(i + 1));
                assert(path@[i as int]@ == pv[i as int]);
            }
            let part = &path[i];
            match ptr.get(part.as_str()) {
                Some(fs) => {
                    ptr = fs;
                },
                None => {
                    return None;
                },
            }
            i += 1;
        }
        proof {
            assert(pv.skip(pv.len() as int) =~= Seq::<Seq<char>>::empty());
        }
        Some(ptr)
    }

    /// The children of a directory.
    pub fn children<'a>(&'a self) -> (r: Option<&'a Vec<FileSystem>>)
        ensures
            match *self {
                FileSystem::Dir(_, _) => r is Some && *self == FileSystem::Dir(
                    ({
                        let n = match *self {
                            FileSystem::Dir(n, _) => n,
                            FileSystem::File(n, _) => n,
                        };
                        n
                    }),
                    *r.unwrap(),
                ),
                FileSystem::File(_, _) => r is None,
            },
    {
        if let Self::Dir(_, children) = self {
            return Some(children);
        }
        None
    }

    /// Whether the node is a directory.
    pub fn is_dir(&self) -> (r: bool)
        ensures
            r == (self is Dir),
    {
        if let FileSystem::Dir(_, _) = self {
            return true;
        }
        false
    }

    /// The total size of every file in this subtree.
    pub fn du(&self) -> (r: usize)
        requires
            du_spec(*self) <= usize::MAX,
        ensures
            r == du_spec(*self),
        decreases *self,
    {
        match self {
            Self::File(_, size) => *size,
            Self::Dir(_, children) => {
                let mut total: usize = 0;
                let mut i: usize = 0;
                proof {
                    lemma_du_seq_bounds(children@, 0);
                    assert(children@.subrange(0, 0) =~= Seq::<FileSystem>::empty());
                }
                while i < children.len()
                    invariant
                        i <= children@.len(),
                        *self == FileSystem::Dir(
                            ({
                                let n = match *self {
                                    FileSystem::Dir(n, _) => n,
                                    FileSystem::File(n, _) => n,
                                };
                                n
                            }),
                            *children,
                        ),
                        du_spec(*self) <= usize::MAX,
                        total == du_seq(children@.subrange(0, i as int)),
                    decreases children@.len() - i,
                {
                    proof {
                        lemma_du_seq_prefix(children@, i as int);
                        lemma_du_seq_bounds(children@, i + 1);
                        assert(children@.subrange(0, i + 1).drop_last() =~= children@.subrange(
                            0,
                            i as int,
                        ));
                        assert(children@.subrange(0, i + 1).last() == children@[i as int]);
                    }
                    let child = &children[i];
                    let c = child.du();
                    total = total + c;
                    i += 1;
                }
                proof {
                    assert(children@.subrange(0, children@.len() as int) =~= children@);
                }
                total
            },
        }
    }
}

/// Every subtree size is non-negative.
pub proof fn lemma_du_nonneg(fs: FileSystem)
    ensures
        du_spec(fs) >= 0,
    decreases fs,
{
    match fs {
        FileSystem::File(_, _) => {},
        FileSystem::Dir(_, cs) => {
            lemma_du_seq_nonneg(cs@);
        },
    }
}

/// Every list of subtrees has a non-negative total size.
pub proof fn lemma_du_seq_nonneg(cs: Seq<FileSystem>)
    ensures
        du_seq(cs) >= 0,
    decreases cs,
{
    if cs.len() > 0 {
        lemma_du_nonneg(cs.last());
        lemma_du_seq_nonneg(cs.drop_last());
    }
}

/// A prefix of children weighs no more than all of them, and each child no
/// more than the prefix that ends with it.
proof fn lemma_du_seq_prefix(cs: Seq<FileSystem>, i: int)
    requires
        0 <= i < cs.len(),
    ensures
        du_seq(cs.subrange(0, i)) + du_spec(cs[i]) == du_seq(cs.subrange(0, i + 1)),
        du_spec(cs[i]) >= 0,
        du_seq(cs.subrange(0, i)) >= 0,
{
    assert(cs.subrange(0, i + 1).drop_last() =~= cs.subrange(0, i));
    assert(cs.subrange(0, i + 1).last() == cs[i]);
    lemma_du_nonneg(cs[i]);
    lemma_du_seq_nonneg(cs.subrange(0, i));
}

/// Whatever children remain past a prefix only add size.
proof fn lemma_du_seq_bounds(cs: Seq<FileSystem>, i: int)
    requires
        0 <= i <= cs.len(),
    ensures
        du_seq(cs.subrange(0, i)) <= du_seq(cs),
    decreases cs.len() - i,
{
    if i == cs.len() {
        assert(cs.subrange(0, i) =~= cs);
    } else {
        lemma_du_seq_prefix(cs, i);
        lemma_du_seq_bounds(cs, i + 1);
    }
}

/// The mathematical image of a tree: names and sizes, with children as a
/// sequence.
pub enum FsV {
    Dir(Seq<char>, Seq<FsV>),
    File(Seq<char>, usize),
}

/// The image of a node.
pub open spec fn fs_view(fs: FileSystem) -> FsV
    decreases fs,
{
    match fs {
        FileSystem::File(n, size) => FsV::File(n@, size),
        FileSystem::Dir(n, cs) => FsV::Dir(n@, seq_view(cs@)),
    }
}

/// The images of a list of nodes.
pub open spec fn seq_view(cs: Seq<FileSystem>) -> Seq<FsV>
    decreases cs,
{
    if cs.len() == 0 {
        Seq::empty()
    } else {
        seq_view(cs.drop_last()).push(fs_view(cs.last()))
    }
}

/// The image of a list is the image of each node.
pub proof fn lemma_seq_view(cs: Seq<FileSystem>)
    ensures
        seq_view(cs).len() == cs.len(),
        forall|i: int| 0 <= i < cs.len() ==> #[trigger] seq_view(cs)[i] == fs_view(cs[i]),
    decreases cs,
{
    if cs.len() > 0 {
        lemma_seq_view(cs.drop_last());
        assert forall|i: int| 0 <= i < cs.len() implies #[trigger] seq_view(cs)[i] == fs_view(
            cs[i],
        ) by {
            if i < cs.len() - 1 {
                assert(cs.drop_last()[i] == cs[i]);
            }
        }
    }
}

/// The name of a node's image.
pub open spec fn fsv_name(v: FsV) -> Seq<char> {
    match v {
        FsV::Dir(n, _) => n,
        FsV::File(n, _) => n,
    }
}

/// The index of the first child image with the given name, if any.
pub open spec fn child_index_v(cs: Seq<FsV>, name: Seq<char>) -> Option<int>
    decreases cs.len(),
{
    if cs.len() == 0 {
        None
    } else if fsv_name(cs[0]) == name {
        Some(0)
    } else {
        match child_index_v(cs.skip(1), name) {
            Some(i) => Some(i + 1),
            None => None,
        }
    }
}

/// Both child searches find the same index.
pub proof fn lemma_child_index_view(cs: Seq<FileSystem>, name: Seq<char>)
    ensures
        child_index_v(seq_view(cs), name) == child_index(cs, name),
    decreases cs.len(),
{
    lemma_seq_view(cs);
    if cs.len() > 0 {
        assert(seq_view(cs)[0] == fs_view(cs[0]));
        assert(fsv_name(fs_view(cs[0])) == fs_name(cs[0]));
        if fs_name(cs[0]) != name {
            lemma_child_index_view(cs.skip(1), name);
            assert(seq_view(cs).skip(1) =~= seq_view(cs.skip(1))) by {
                lemma_seq_view(cs.skip(1));
                assert forall|i: int| 0 <= i < cs.len() - 1 implies seq_view(cs).skip(1)[i]
                    == seq_view(cs.skip(1))[i] by {
                    assert(seq_view(cs)[i + 1] == fs_view(cs[i + 1]));
                    assert(seq_view(cs.skip(1))[i] == fs_view(cs.skip(1)[i]));
                    assert(cs.skip(1)[i] == cs[i + 1]);
                }
            }
        }
    }
}

/// The tree image after a node is inserted at the directory the parts lead
/// to: a child of the same name is replaced, any other is appended; nothing
/// when the walk meets a file or a missing name.
pub open spec fn insert_spec(v: FsV, parts: Seq<Seq<char>>, node: FsV) -> Option<FsV>
    decreases parts.len(),
{
    match v {
        FsV::File(_, _) => None,
        FsV::Dir(n, cs) => {
            if parts.len() == 0 {
                match child_index_v(cs, fsv_name(node)) {
                    Some(i) => Some(FsV::Dir(n, cs.update(i, node))),
                    None => Some(FsV::Dir(n, cs.push(node))),
                }
            } else {
                match child_index_v(cs, parts[0]) {
                    Some(i) => match insert_spec(cs[i], parts.skip(1), node) {
                        Some(c2) => Some(FsV::Dir(n, cs.update(i, c2))),
                        None => None,
                    },
                    None => None,
                }
            }
        },
    }
}

impl FileSystem {
    /// Inserts a node at the directory the path (ignoring one leading empty
    /// part) leads to.  On failure the tree is unchanged.
    pub fn insert(&mut self, parent_path: &Vec<String>, fs: FileSystem) -> (r: Result<
        (),
        FsError,
    >)
        ensures
            ({
                let parts = path_parts(parent_path@.map(|i: int, p: String| p@));
                match insert_spec(fs_view(*old(self)), parts, fs_view(fs)) {
                    Some(v2) => r is Ok && fs_view(*final(self)) == v2,
                    None => r is Err && fs_view(*final(self)) == fs_view(*old(self)),
                }
            }),
    {
        let ghost pv = parent_path@.map(|i: int, p: String| p@);
        let mut start: usize = 0;
        if parent_path.len() > 0 {
            let first = &parent_path[0];
            proof {
                assert(first@ == pv[0]);
            }
            if first.as_str().unicode_len() == 0 {
                start = 1;
            }
        }
        proof {
            assert(path_parts(pv) =~= pv.skip(start as int));
        }
        self.insert_at(parent_path, start, fs)
    }

    /// Inserts a node at the directory that the path parts from `idx` on
    /// lead to.
    fn insert_at(&mut self, parts: &Vec<String>, idx: usize, fs: FileSystem) -> (r: Result<
        (),
        FsError,
    >)
        requires
            idx <= parts@.len(),
        ensures
            ({
                let pv = parts@.map(|i: int, p: String| p@).skip(idx as int);
                match insert_spec(fs_view(*old(self)), pv, fs_view(fs)) {
                    Some(v2) => r is Ok && fs_view(*final(self)) == v2,
                    None => r is Err && fs_view(*final(self)) == fs_view(*old(self)),
                }
            }),
        decreases *self,
    {
        let ghost pv = parts@.map(|i: int, p: String| p@).skip(idx as int);
        match self {
            FileSystem::File(_, _) => Err(FsError::NotADirectory),
            FileSystem::Dir(_, children) => {
                let ghost cs0 = children@;
                proof {
                    lemma_seq_view(cs0);
                }
                if idx == parts.len() {
                    proof {
                        lemma_child_index_view(cs0, fs_name(fs));
                    }
                    let name_owned = fs.name().to_owned();
                    match Self::find_child(children, name_owned.as_str()) {
                        Some(i) => {
                            let ghost csv = seq_view(cs0);
                            children[i] = fs;
                            proof {
                                lemma_seq_view(children@);
                                assert(seq_view(children@) =~= csv.update(
                                    child_index(cs0, fs_name(fs)).unwrap(),
                                    fs_view(fs),
                                ));
                            }
                            Ok(())
                        },
                        None => {
                            let ghost csv = seq_view(cs0);
                            children.push(fs);
                            proof {
                                lemma_seq_view(children@);
                                assert(seq_view(children@) =~= csv.push(
                                    fs_view(children@.last()),
                                ));
                            }
                            Ok(())
                        },
                    }
                } else {
                    proof {
                        assert(parts@[idx as int]@ == pv[0]);
                        lemma_child_index_view(cs0, pv[0]);
                    }
                    let part = &parts[idx];
                    match Self::find_child(children, part.as_str()) {
                        Some(i) => {
                            let ghost csv = seq_view(cs0);
                            let child = &mut children[i];
                            proof {
                                assert((*child) == cs0[i as int]);
                                assert(pv.skip(1) =~= parts@.map(
                                    |k: int, p: String| p@,
                                ).skip(idx + 1));
                            }
                            let res = child.insert_at(parts, idx + 1, fs);
                            proof {
                                lemma_seq_view(children@);
                                assert(seq_view(children@) =~= csv.update(
                                    i as int,
                                    fs_view(children@[i as int]),
                                ));
                            }
                            match res {
                                Ok(_) => Ok(()),
                                Err(e) => {
                                    proof {
                                        assert(seq_view(children@) =~= csv);
                                    }
                                    Err(e)
                                },
                            }
                        },
                        None => Err(FsError::NoSuchPath),
                    }
                }
            },
        }
    }

    /// The index of the first child of that name.
    fn find_child(children: &Vec<FileSystem>, name: &str) -> (r: Option<usize>)
        ensures
            match r {
                Some(i) => child_index(children@, name@) == Some(i as int) && i
                    < children@.len(),
                None => child_index(children@, name@) is None,
            },
    {
        proof {
            lemma_child_index(children@, name@);
        }
        let mut i: usize = 0;
        while i < children.len()
            invariant
                i <= children@.len(),
                forall|j: int| 0 <= j < i ==> fs_name(#[trigger] children@[j]) != name@,
            decreases children@.len() - i,
        {
            if str_eq(children[i].name(), name) {
                proof {
                    lemma_child_index(children@, name@);
                    match child_index(children@, name@) {
                        Some(k) => {
                            assert(!(k < i) && !(i < k));
                        },
                        None => {
                            assert(fs_name(children@[i as int]) != name@);
                        },
                    }
                }
                return Some(i);
            }
            i += 1;
        }
        proof {
            lemma_child_index(children@, name@);
            if child_index(children@, name@) is Some {
                let k = child_index(children@, name@).unwrap();
                assert(fs_name(children@[k]) != name@);
            }
        }
        None
    }
}

/// One transcript line: a change of directory, a listing, or a revealed
/// directory or file.
#[derive(Debug)]
pub enum InputLine {
    Cd(String),
    Ls,
    File(usize, String),
    Dir(String),
}

/// The image of a transcript line, its name as bytes.
pub enum InputLineV {
    Cd(Seq<u8>),
    Ls,
    File(usize, Seq<u8>),
    Dir(Seq<u8>),
}

/// The line a trimmed-at-the-end transcript line denotes: `$ ls`, `$ cd
/// name`, `dir name`, or a size and a name, as whitespace-separated tokens.
pub open spec fn input_line_spec(s: Seq<u8>) -> Option<InputLineV> {
    let t = crate::text::trim_end_spec(s);
    let a0 = crate::text::ws_run_end(t, 0);
    let e0 = crate::text::token_end(t, a0);
    let a1 = crate::text::ws_run_end(t, e0);
    let e1 = crate::text::token_end(t, a1);
    let a2 = crate::text::ws_run_end(t, e1);
    let e2 = crate::text::token_end(t, a2);
    let tok0 = t.subrange(a0, e0);
    let tok1 = t.subrange(a1, e1);
    let tok2 = t.subrange(a2, e2);
    let two = e0 > a0 && e1 > a1 && a2 == t.len();
    let three = e0 > a0 && e1 > a1 && e2 > a2 && crate::text::ws_run_end(t, e2) == t.len();
    if two && tok0 == "$".spec_bytes() && tok1 == "ls".spec_bytes() {
        Some(InputLineV::Ls)
    } else if three && tok0 == "$".spec_bytes() && tok1 == "cd".spec_bytes() {
        Some(InputLineV::Cd(tok2))
    } else if two && tok0 == "dir".spec_bytes() {
        Some(InputLineV::Dir(tok1))
    } else if two && crate::text::digit_run_end(tok0, 0) == tok0.len() && crate::text::dec_val(
        tok0,
    ) <= usize::MAX {
        Some(InputLineV::File((crate::text::dec_val(tok0) as usize), tok1))
    } else {
        None
    }
}

impl InputLine {
    /// Reads one transcript line.  The input must be ASCII.
    pub fn from_str(s: &str) -> (r: Result<InputLine, FsError>)
        requires
            vstd::string::is_ascii(s),
        ensures
            match r {
                Ok(l) => match input_line_spec(s.spec_bytes()) {
                    Some(v) => line_matches(l, v),
                    None => false,
                },
                Err(_) => input_line_spec(s.spec_bytes()) is None,
            },
    {
        broadcast use vstd::string::is_ascii_spec_bytes;

        let v = s.as_bytes_vec();
        // pins the byte count to the machine range
        let _ = v.len();
        let t = crate::text::trim_end_line(&v);
        let a0 = crate::text::skip_ws(&t, 0);
        proof {
            crate::text::lemma_ws_run_end(t@, 0);
        }
        let e0 = crate::text::find_token_end(&t, a0);
        proof {
            crate::text::lemma_token_end(t@, a0 as int);
        }
        let a1 = crate::text::skip_ws(&t, e0);
        proof {
            crate::text::lemma_ws_run_end(t@, e0 as int);
        }
        let e1 = crate::text::find_token_end(&t, a1);
        proof {
            crate::text::lemma_token_end(t@, a1 as int);
        }
        let a2 = crate::text::skip_ws(&t, e1);
        proof {
            crate::text::lemma_ws_run_end(t@, e1 as int);
        }
        let e2 = crate::text::find_token_end(&t, a2);
        proof {
            crate::text::lemma_token_end(t@, a2 as int);
        }
        let a3 = crate::text::skip_ws(&t, e2);
        proof {
            crate::text::lemma_ws_run_end(t@, e2 as int);
        }
        let two = e0 > a0 && e1 > a1 && a2 == t.len();
        let three = e0 > a0 && e1 > a1 && e2 > a2 && a3 == t.len();
        let ghost ts = crate::text::trim_end_spec(s.spec_bytes());
        proof {
            assert(t@ == ts);
            lemma_trim_end_prefix(s);
            crate::text::lemma_ws_suffix_start(s.spec_bytes());
            assert(ts.len() <= s.spec_bytes().len());
        }
        if two && tok_is(&t, a0, e0, "$") && tok_is(&t, a1, e1, "ls") {
            return Ok(InputLine::Ls);
        }
        if three && tok_is(&t, a0, e0, "$") && tok_is(&t, a1, e1, "cd") {
            let dir = substring_string(s, a2, e2);
            return Ok(InputLine::Cd(dir));
        }
        if two && tok_is(&t, a0, e0, "dir") {
            let name = substring_string(s, a1, e1);
            return Ok(InputLine::Dir(name));
        }
        if two {
            let de = crate::text::digits_end(&t, a0);
            if de == e0 {
                match crate::text::take_number(&t, a0) {
                    Some((size, _)) => {
                        proof {
                            crate::text::lemma_digit_run_end_sub2(t@, a0 as int, e0 as int);
                        }
                        let name = substring_string(s, a1, e1);
                        return Ok(InputLine::File(size, name));
                    },
                    None => {
                        proof {
                            crate::text::lemma_digit_run_end_sub2(t@, a0 as int, e0 as int);
                        }
                        return Err(FsError::BadCommand);
                    },
                }
            }
            proof {
                crate::text::lemma_digit_run_end_sub2(t@, a0 as int, e0 as int);
            }
            return Err(FsError::BadCommand);
        }
        Err(FsError::BadCommand)
    }
}

/// Whether an owned line value shows the image a parse gives.
pub open spec fn line_matches(l: InputLine, v: InputLineV) -> bool {
    match (l, v) {
        (InputLine::Ls, InputLineV::Ls) => true,
        (InputLine::Cd(a), InputLineV::Cd(b)) => vstd::utf8::encode_utf8(a@) == b,
        (InputLine::Dir(a), InputLineV::Dir(b)) => vstd::utf8::encode_utf8(a@) == b,
        (InputLine::File(sa, a), InputLineV::File(sb, b)) => sa == sb && vstd::utf8::encode_utf8(
            a@,
        ) == b,
        _ => false,
    }
}

/// Whether the token at `a .. e` is exactly the given word.
fn tok_is(t: &Vec<u8>, a: usize, e: usize, word: &str) -> (r: bool)
    requires
        a <= e <= t@.len(),
    ensures
        r == (t@.subrange(a as int, e as int) == word.spec_bytes()),
{
    broadcast use vstd::utf8::encode_utf8_decode_utf8;

    let w = word.as_bytes_vec();
    if e - a != w.len() {
        proof {
            if t@.subrange(a as int, e as int) == word.spec_bytes() {
                assert(t@.subrange(a as int, e as int).len() == w@.len());
            }
        }
        return false;
    }
    let mut k: usize = 0;
    while k < w.len()
        invariant
            k <= w@.len(),
            a + w@.len() == e <= t@.len(),
            w@ == word.spec_bytes(),
            forall|j: int| 0 <= j < k ==> t@[a + j] == w@[j],
        decreases w@.len() - k,
    {
        if t[a + k] != w[k] {
            proof {
                assert(t@.subrange(a as int, e as int)[k as int] == t@[a + k]);
            }
            return false;
        }
        k += 1;
    }
    proof {
        assert(t@.subrange(a as int, e as int) =~= w@);
    }
    true
}

/// The characters of a byte span of ASCII text, as owned text.
fn substring_string(s: &str, a: usize, e: usize) -> (r: String)
    requires
        vstd::string::is_ascii(s),
        a <= e,
        e <= s.spec_bytes().len(),
    ensures
        vstd::utf8::encode_utf8(r@) == s.spec_bytes().subrange(a as int, e as int),
{
    broadcast use vstd::string::is_ascii_spec_bytes;

    proof {
        crate::monkeys::lemma_ascii_bytes(s, a as int, e as int);
    }
    s.substring_ascii(a, e).to_owned()
}

/// Trimming whitespace off the end keeps every earlier byte in place.
proof fn lemma_trim_end_prefix(s: &str)
    ensures
        ({
            let ts = crate::text::trim_end_spec(s.spec_bytes());
            forall|a: int, e: int|
                0 <= a <= e <= ts.len() ==> #[trigger] ts.subrange(a, e) == s.spec_bytes().subrange(
                    a,
                    e,
                )
        }),
{
    let ts = crate::text::trim_end_spec(s.spec_bytes());
    crate::text::lemma_ws_suffix_start(s.spec_bytes());
    assert forall|a: int, e: int| 0 <= a <= e <= ts.len() implies #[trigger] ts.subrange(a, e)
        == s.spec_bytes().subrange(a, e) by {
        assert(ts.subrange(a, e) =~= s.spec_bytes().subrange(a, e));
    }
}

/// The transcript replayer: the tree built so far and the current path.
pub struct Machine {
    pub fs: FileSystem,
    pub cwd: Vec<String>,
}

/// The current path, as character sequences.
pub open spec fn cwd_view(cwd: Seq<String>) -> Seq<Seq<char>> {
    cwd.map(|i: int, p: String| p@)
}

impl Machine {
    /// A fresh machine: an unnamed empty root, standing at it.
    pub fn new() -> (r: Self)
        ensures
            r.cwd@.len() == 0,
            fs_view(r.fs) == FsV::Dir(Seq::<char>::empty(), Seq::<FsV>::empty()),
    {
        let m = Machine { cwd: Vec::new(), fs: FileSystem::Dir(String::new(), Vec::new()) };
        proof {
            assert(seq_view(Seq::<FileSystem>::empty()) =~= Seq::<FsV>::empty());
            assert(fs_view(m.fs) == FsV::Dir(Seq::<char>::empty(), Seq::<FsV>::empty()));
        }
        m
    }

    /// Changes directory: `..` drops the last path part, any other name is
    /// appended after checking that the current path still names a node.
    pub fn cd(&mut self, dir: &str) -> (r: Result<(), FsError>)
        ensures
            final(self).fs == old(self).fs,
            dir@ == ".."@ ==> ({
                if old(self).cwd@.len() > 0 {
                    r is Ok && final(self).cwd@ == old(self).cwd@.drop_last()
                } else {
                    r == Err::<(), FsError>(FsError::NoParent) && final(self).cwd@ == old(self).cwd@
                }
            }),
            dir@ != ".."@ ==> ({
                match get_path_spec(old(self).fs, path_parts(cwd_view(old(self).cwd@))) {
                    Some(_) => r is Ok && cwd_view(final(self).cwd@) == cwd_view(
                        old(self).cwd@,
                    ).push(dir@),
                    None => r == Err::<(), FsError>(FsError::NoSuchPath) && final(self).cwd@
                        == old(self).cwd@,
                }
            }),
    {
        if str_eq(dir, "..") {
            if self.cwd.len() == 0 {
                return Err(FsError::NoParent);
            }
            let _ = self.cwd.pop();
            Ok(())
        } else {
            match self.fs.get_path(&self.cwd) {
                Some(_) => {},
                None => {
                    return Err(FsError::NoSuchPath);
                },
            }
            self.cwd.push(dir.to_owned());
            proof {
                assert(cwd_view(self.cwd@) =~= cwd_view(old(self).cwd@).push(dir@));
            }
            Ok(())
        }
    }

    /// Replays one transcript line: `ls` does nothing, `cd` moves (with `/`
    /// returning to no-op as the transcript's root), and a revealed node is
    /// inserted at the current path.
    pub fn run(&mut self, cmd: &InputLine) -> (r: Result<(), FsError>)
        ensures
            ({
                let fs0 = fs_view(old(self).fs);
                let cw0 = cwd_view(old(self).cwd@);
                match *cmd {
                    InputLine::Ls => r is Ok && *final(self) == *old(self),
                    InputLine::Cd(ref d) => if d@ == "/"@ {
                        r is Ok && *final(self) == *old(self)
                    } else if d@ == ".."@ {
                        final(self).fs == old(self).fs && ({
                            if old(self).cwd@.len() > 0 {
                                r is Ok && final(self).cwd@ == old(self).cwd@.drop_last()
                            } else {
                                r == Err::<(), FsError>(FsError::NoParent) && final(self).cwd@
                                    == old(self).cwd@
                            }
                        })
                    } else {
                        final(self).fs == old(self).fs && ({
                            match get_path_spec(old(self).fs, path_parts(cw0)) {
                                Some(_) => r is Ok && cwd_view(final(self).cwd@) == cw0.push(
                                    d@,
                                ),
                                None => r == Err::<(), FsError>(FsError::NoSuchPath) && final(self).cwd@ == old(self).cwd@,
                            }
                        })
                    },
                    InputLine::Dir(ref name) => final(self).cwd@ == old(self).cwd@ && ({
                        match insert_spec(
                            fs0,
                            path_parts(cw0),
                            FsV::Dir(name@, Seq::<FsV>::empty()),
                        ) {
                            Some(v2) => r is Ok && fs_view(final(self).fs) == v2,
                            None => r is Err && fs_view(final(self).fs) == fs0,
                        }
                    }),
                    InputLine::File(size, ref name) => final(self).cwd@ == old(self).cwd@ && ({
                        match insert_spec(fs0, path_parts(cw0), FsV::File(name@, size)) {
                            Some(v2) => r is Ok && fs_view(final(self).fs) == v2,
                            None => r is Err && fs_view(final(self).fs) == fs0,
                        }
                    }),
                }
            }),
    {
        match cmd {
            InputLine::Ls => Ok(()),
            InputLine::Cd(dir) => {
                if str_eq(dir.as_str(), "/") {
                    Ok(())
                } else {
                    self.cd_from_run(dir.as_str())
                }
            },
            InputLine::Dir(name) => {
                let node = FileSystem::Dir(name.clone(), Vec::new());
                proof {
                    assert(seq_view(Seq::<FileSystem>::empty()) =~= Seq::<FsV>::empty());
                    assert(fs_view(node) == FsV::Dir(name@, Seq::<FsV>::empty()));
                }
                let cwd = &self.cwd;
                self.fs.insert(cwd, node)
            },
            InputLine::File(size, name) => {
                let node = FileSystem::File(name.clone(), *size);
                proof {
                    assert(fs_view(node) == FsV::File(name@, *size));
                }
                let cwd = &self.cwd;
                self.fs.insert(cwd, node)
            },
        }
    }

    /// The change-directory step of a replayed line.
    fn cd_from_run(&mut self, dir: &str) -> (r: Result<(), FsError>)
        ensures
            final(self).fs == old(self).fs,
            dir@ == ".."@ ==> ({
                if old(self).cwd@.len() > 0 {
                    r is Ok && final(self).cwd@ == old(self).cwd@.drop_last()
                } else {
                    r == Err::<(), FsError>(FsError::NoParent) && final(self).cwd@ == old(self).cwd@
                }
            }),
            dir@ != ".."@ ==> ({
                match get_path_spec(old(self).fs, path_parts(cwd_view(old(self).cwd@))) {
                    Some(_) => r is Ok && cwd_view(final(self).cwd@) == cwd_view(
                        old(self).cwd@,
                    ).push(dir@),
                    None => r == Err::<(), FsError>(FsError::NoSuchPath) && final(self).cwd@
                        == old(self).cwd@,
                }
            }),
    {
        self.cd(dir)
    }

    /// The current path as text: a slash before each part, and a single
    /// slash at the root.
    pub fn pwd(&self) -> (r: Vec<char>)
        ensures
            r@ == pwd_spec(cwd_view(self.cwd@)),
    {
        let ghost pv = cwd_view(self.cwd@);
        if self.cwd.len() == 0 {
            let mut out: Vec<char> = Vec::new();
            out.push('/');
            proof {
                assert(out@ =~= seq!['/']);
            }
            return out;
        }
        let mut out: Vec<char> = Vec::new();
        let mut i: usize = 0;
        proof {
            assert(pv.skip(0) =~= pv);
            assert(out@ + pwd_rec(pv) =~= pwd_rec(pv));
        }
        while i < self.cwd.len()
            invariant
                i <= pv.len(),
                pv == cwd_view(self.cwd@),
                pv.len() == self.cwd@.len(),
                pwd_rec(pv) == out@ + pwd_rec(pv.skip(i as int)),
            decreases pv.len() - i,
        {
            let ghost o0 = out@;
            out.push('/');
            let part = &self.cwd[i];
            proof {
                assert(part@ == pv[i as int]);
                assert(pv.skip(i as int)[0] == pv[i as int]);
                assert(pv.skip(i as int).skip(1) =~= pv.skip(i + 1));
            }
            let n = part.as_str().unicode_len();
            let mut k: usize = 0;
            while k < n
                invariant
                    k <= n,
                    n == part@.len(),
                    part@ == pv[i as int],
                    out@ =~= o0 + seq!['/'] + part@.take(k as int),
                decreases n - k,
            {
                let c = part.as_str().get_char(k);
                out.push(c);
                proof {
                    assert(o0 + seq!['/'] + part@.take(k + 1) =~= (o0 + seq!['/'] + part@.take(
                        k as int,
                    )).push(part@[k as int]));
                }
                k += 1;
            }
            proof {
                assert(part@.take(part@.len() as int) =~= part@);
                assert(out@ =~= o0 + (seq!['/'] + part@));
                assert(o0 + (seq!['/'] + part@) + pwd_rec(pv.skip(i + 1)) =~= o0 + ((seq!['/']
                    + part@) + pwd_rec(pv.skip(i + 1))));
            }
            i += 1;
        }
        proof {
            assert(pv.skip(pv.len() as int) =~= Seq::<Seq<char>>::empty());
            assert(pwd_rec(pv) =~= out@);
        }
        out
    }
}

/// The summed size of every directory subtree weighing under the limit;
/// nested directories count separately, as the puzzle asks.
pub open spec fn small_total_spec(fs: FileSystem, limit: int) -> int
    decreases fs,
{
    match fs {
        FileSystem::File(_, _) => 0,
        FileSystem::Dir(_, cs) => (if du_spec(fs) < limit {
            du_spec(fs)
        } else {
            0
        }) + small_total_seq(cs@, limit),
    }
}

/// The same sum over a list of subtrees.
pub open spec fn small_total_seq(cs: Seq<FileSystem>, limit: int) -> int
    decreases cs,
{
    if cs.len() == 0 {
        0
    } else {
        small_total_spec(cs.last(), limit) + small_total_seq(cs.drop_last(), limit)
    }
}

/// The size of the smallest directory subtree of at least `need`, if any.
pub open spec fn smallest_big_dir_spec(fs: FileSystem, need: int) -> Option<int>
    decreases fs,
{
    match fs {
        FileSystem::File(_, _) => None,
        FileSystem::Dir(_, cs) => {
            let below = smallest_big_dir_seq(cs@, need);
            if du_spec(fs) >= need {
                match below {
                    Some(b) => if b <= du_spec(fs) {
                        Some(b)
                    } else {
                        Some(du_spec(fs))
                    },
                    None => Some(du_spec(fs)),
                }
            } else {
                below
            }
        },
    }
}

/// The same minimum over a list of subtrees.
pub open spec fn smallest_big_dir_seq(cs: Seq<FileSystem>, need: int) -> Option<int>
    decreases cs,
{
    if cs.len() == 0 {
        None
    } else {
        let here = smallest_big_dir_spec(cs.last(), need);
        let rest = smallest_big_dir_seq(cs.drop_last(), need);
        match (here, rest) {
            (Some(a), Some(b)) => if a <= b {
                Some(a)
            } else {
                Some(b)
            },
            (Some(a), None) => Some(a),
            (None, b) => b,
        }
    }
}

impl FileSystem {
    /// The summed size of every directory weighing under the limit.
    pub fn small_dirs_total(&self, limit: usize) -> (r: usize)
        requires
            du_spec(*self) <= usize::MAX,
            0 <= small_total_spec(*self, limit as int) <= usize::MAX,
        ensures
            r == small_total_spec(*self, limit as int),
        decreases *self,
    {
        match self {
            Self::File(_, _) => 0,
            Self::Dir(_, children) => {
                proof {
                    lemma_small_total_bounds(children@, limit as int);
                }
                let own = self.du();
                let mut total: usize = if own < limit {
                    own
                } else {
                    0
                };
                let mut i: usize = 0;
                proof {
                    assert(children@.subrange(0, 0) =~= Seq::<FileSystem>::empty());
                }
                while i < children.len()
                    invariant
                        i <= children@.len(),
                        *self == FileSystem::Dir(
                            ({
                                let n = match *self {
                                    FileSystem::Dir(n, _) => n,
                                    FileSystem::File(n, _) => n,
                                };
                                n
                            }),
                            *children,
                        ),
                        du_spec(*self) <= usize::MAX,
                        0 <= small_total_spec(*self, limit as int) <= usize::MAX,
                        total == (if du_spec(*self) < limit {
                            du_spec(*self)
                        } else {
                            0int
                        }) + small_total_seq(children@.subrange(0, i as int), limit as int),
                    decreases children@.len() - i,
                {
                    proof {
                        lemma_small_step(children@, i as int, limit as int);
                        lemma_du_seq_prefix_general(children@, i as int);
                        lemma_small_seq_bounds(children@, i + 1, limit as int);
                        lemma_small_total_bounds(children@.subrange(0, i as int), limit as int);
                        lemma_small_total_nonneg(children@[i as int], limit as int);
                        lemma_small_total_bounds(children@, limit as int);
                    }
                    let child = &children[i];
                    let c = child.small_dirs_total(limit);
                    total = total + c;
                    i += 1;
                }
                proof {
                    assert(children@.subrange(0, children@.len() as int) =~= children@);
                }
                total
            },
        }
    }

    /// The size of the smallest directory of at least `need`, if any.
    pub fn smallest_big_dir(&self, need: usize) -> (r: Option<usize>)
        requires
            du_spec(*self) <= usize::MAX,
        ensures
            match r {
                Some(v) => smallest_big_dir_spec(*self, need as int) == Some(v as int),
                None => smallest_big_dir_spec(*self, need as int) is None,
            },
        decreases *self,
    {
        match self {
            Self::File(_, _) => None,
            Self::Dir(_, children) => {
                let own = self.du();
                let mut best: Option<usize> = None;
                let mut i: usize = 0;
                proof {
                    assert(children@.subrange(0, 0) =~= Seq::<FileSystem>::empty());
                }
                while i < children.len()
                    invariant
                        i <= children@.len(),
                        *self == FileSystem::Dir(
                            ({
                                let n = match *self {
                                    FileSystem::Dir(n, _) => n,
                                    FileSystem::File(n, _) => n,
                                };
                                n
                            }),
                            *children,
                        ),
                        du_spec(*self) <= usize::MAX,
                        match best {
                            Some(v) => smallest_big_dir_seq(
                                children@.subrange(0, i as int),
                                need as int,
                            ) == Some(v as int),
                            None => smallest_big_dir_seq(
                                children@.subrange(0, i as int),
                                need as int,
                            ) is None,
                        },
                    decreases children@.len() - i,
                {
                    proof {
                        lemma_min_step(children@, i as int, need as int);
                        lemma_du_seq_prefix_general(children@, i as int);
                    }
                    let child = &children[i];
                    let c = child.smallest_big_dir(need);
                    best = match (c, best) {
                        (Some(a), Some(b)) => if a <= b {
                            Some(a)
                        } else {
                            Some(b)
                        },
                        (Some(a), None) => Some(a),
                        (None, b) => b,
                    };
                    i += 1;
                }
                proof {
                    assert(children@.subrange(0, children@.len() as int) =~= children@);
                }
                if own >= need {
                    match best {
                        Some(b) => if b <= own {
                            Some(b)
                        } else {
                            Some(own)
                        },
                        None => Some(own),
                    }
                } else {
                    best
                }
            },
        }
    }
}

/// Unfolding the small-directory sum one child at a time.
proof fn lemma_small_step(cs: Seq<FileSystem>, i: int, limit: int)
    requires
        0 <= i < cs.len(),
    ensures
        small_total_seq(cs.subrange(0, i + 1), limit) == small_total_seq(cs.subrange(0, i), limit)
            + small_total_spec(cs[i], limit),
{
    assert(cs.subrange(0, i + 1).drop_last() =~= cs.subrange(0, i));
    assert(cs.subrange(0, i + 1).last() == cs[i]);
}

/// Small sums are non-negative and never exceed the whole tree's sum.
proof fn lemma_small_total_bounds(cs: Seq<FileSystem>, limit: int)
    ensures
        small_total_seq(cs, limit) >= 0,
        forall|i: int|
            0 <= i < cs.len() ==> #[trigger] small_total_spec(cs[i], limit) >= 0,
    decreases cs, 1int,
{
    if cs.len() > 0 {
        lemma_small_total_bounds(cs.drop_last(), limit);
        lemma_small_total_nonneg(cs.last(), limit);
        assert forall|i: int| 0 <= i < cs.len() implies #[trigger] small_total_spec(cs[i], limit)
            >= 0 by {
            if i < cs.len() - 1 {
                assert(cs.drop_last()[i] == cs[i]);
            }
        }
    }
}

/// A tree's small-directory sum is non-negative.
proof fn lemma_small_total_nonneg(fs: FileSystem, limit: int)
    ensures
        small_total_spec(fs, limit) >= 0,
    decreases fs, 2int,
{
    match fs {
        FileSystem::File(_, _) => {},
        FileSystem::Dir(_, cs) => {
            lemma_small_total_bounds(cs@, limit);
            lemma_du_nonneg(fs);
        },
    }
}

/// A prefix of the small-directory sums weighs no more than the whole.
proof fn lemma_small_seq_bounds(cs: Seq<FileSystem>, i: int, limit: int)
    requires
        0 <= i <= cs.len(),
    ensures
        small_total_seq(cs.subrange(0, i), limit) <= small_total_seq(cs, limit),
    decreases cs.len() - i,
{
    if i == cs.len() {
        assert(cs.subrange(0, i) =~= cs);
    } else {
        lemma_small_step(cs, i, limit);
        lemma_small_total_nonneg(cs[i], limit);
        lemma_small_seq_bounds(cs, i + 1, limit);
    }
}

/// Unfolding the minimum one child at a time.
proof fn lemma_min_step(cs: Seq<FileSystem>, i: int, need: int)
    requires
        0 <= i < cs.len(),
    ensures
        smallest_big_dir_seq(cs.subrange(0, i + 1), need) == ({
            let here = smallest_big_dir_spec(cs[i], need);
            let rest = smallest_big_dir_seq(cs.subrange(0, i), need);
            match (here, rest) {
                (Some(a), Some(b)) => if a <= b {
                    Some(a)
                } else {
                    Some(b)
                },
                (Some(a), None) => Some(a),
                (None, b) => b,
            }
        }),
{
    assert(cs.subrange(0, i + 1).drop_last() =~= cs.subrange(0, i));
    assert(cs.subrange(0, i + 1).last() == cs[i]);
}

/// A prefix's files weigh no more than the whole list's.
proof fn lemma_du_seq_prefix_general(cs: Seq<FileSystem>, i: int)
    requires
        0 <= i < cs.len(),
    ensures
        du_spec(cs[i]) <= du_seq(cs),
        du_spec(cs[i]) >= 0,
    decreases cs,
{
    lemma_du_nonneg(cs[i]);
    lemma_du_seq_nonneg(cs);
    if i == cs.len() - 1 {
        lemma_du_seq_nonneg(cs.drop_last());
    } else {
        lemma_du_seq_prefix_general(cs.drop_last(), i);
        assert(cs.drop_last()[i] == cs[i]);
        lemma_du_nonneg(cs.last());
    }
}

/// A slash before each path part, in order.
pub open spec fn pwd_rec(parts: Seq<Seq<char>>) -> Seq<char>
    decreases parts.len(),
{
    if parts.len() == 0 {
        Seq::empty()
    } else {
        (seq!['/'] + parts[0]) + pwd_rec(parts.skip(1))
    }
}

/// The text of a path: its parts each behind a slash, or a single slash
/// for the empty path.
pub open spec fn pwd_spec(parts: Seq<Seq<char>>) -> Seq<char> {
    if parts.len() == 0 {
        seq!['/']
    } else {
        pwd_rec(parts)
    }
}

} // verus!
