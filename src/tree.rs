use vstd::prelude::*;

verus! {

/// A namespace level: its children are directories or secret groups.
pub struct FsDir {
    pub ino: u64,
    pub parent: u64,
    pub name: String,
    pub children: Vec<u64>,
}

/// One key-value group of the store: its children are secrets.
pub struct FsSecrets {
    pub ino: u64,
    pub parent: u64,
    pub name: String,
    pub children: Vec<u64>,
}

/// A leaf: one key of a group with its value.
pub struct FsSecret {
    pub ino: u64,
    pub parent: u64,
    pub name: String,
    pub content: String,
    pub created_time: String,
    pub updated_time: String,
}

pub enum FsTree {
    Dir(FsDir),
    Secrets(FsSecrets),
    Secret(FsSecret),
}

#[derive(Clone, Copy, Debug, PartialEq, Eq, Structural)]
pub enum FileKind {
    Directory,
    RegularFile,
}

/// One entry of a directory listing.
pub struct DirEntry {
    pub ino: u64,
    pub kind: FileKind,
    pub name: String,
}

pub open spec fn slash() -> char {
    '/'
}

/// The separator that marks a listed name as a sub-namespace.
pub open spec fn ends_with_sep(s: Seq<char>) -> bool {
    s.len() > 0 && s.last() == slash()
}

/// The name under which a listed entry appears in the tree.
pub open spec fn entry_name(s: Seq<char>) -> Seq<char> {
    if ends_with_sep(s) {
        s.drop_last()
    } else {
        s
    }
}

impl FsTree {
    pub open spec fn ino_of(&self) -> u64 {
        match self {
            FsTree::Dir(d) => d.ino,
            FsTree::Secrets(s) => s.ino,
            FsTree::Secret(s) => s.ino,
        }
    }

    pub open spec fn parent_of(&self) -> u64 {
        match self {
            FsTree::Dir(d) => d.parent,
            FsTree::Secrets(s) => s.parent,
            FsTree::Secret(s) => s.parent,
        }
    }

    pub open spec fn name_of(&self) -> Seq<char> {
        match self {
            FsTree::Dir(d) => d.name@,
            FsTree::Secrets(s) => s.name@,
            FsTree::Secret(s) => s.name@,
        }
    }

    /// The inodes of the children, in stored order; a secret has none.
    pub open spec fn children_of(&self) -> Seq<u64> {
        match self {
            FsTree::Dir(d) => d.children@,
            FsTree::Secrets(s) => s.children@,
            FsTree::Secret(_) => Seq::empty(),
        }
    }

    pub open spec fn kind_of(&self) -> FileKind {
        match self {
            FsTree::Secret(_) => FileKind::RegularFile,
            _ => FileKind::Directory,
        }
    }

    pub fn ino(&self) -> (r: u64)
        ensures
            r == self.ino_of(),
    {
        match self {
            FsTree::Dir(d) => d.ino,
            FsTree::Secrets(s) => s.ino,
            FsTree::Secret(s) => s.ino,
        }
    }

    pub fn parent(&self) -> (r: u64)
        ensures
            r == self.parent_of(),
    {
        match self {
            FsTree::Dir(d) => d.parent,
            FsTree::Secrets(s) => s.parent,
            FsTree::Secret(s) => s.parent,
        }
    }

    pub fn name(&self) -> (r: &String)
        ensures
            r@ == self.name_of(),
    {
        match self {
            FsTree::Dir(d) => &d.name,
            FsTree::Secrets(s) => &s.name,
            FsTree::Secret(s) => &s.name,
        }
    }

    pub fn kind(&self) -> (r: FileKind)
        ensures
            r == self.kind_of(),
    {
        match self {
            FsTree::Secret(_) => FileKind::RegularFile,
            _ => FileKind::Directory,
        }
    }
}

/// Whether `nodes` is an arena of a tree rooted at inode 1: node `i` has inode
/// `i + 1`, every child has a larger inode than its parent and names that
/// parent, children are listed in increasing inode order, a directory holds directories
/// and groups and a group holds secrets.
pub open spec fn arena_wf(nodes: Seq<FsTree>) -> bool {
    &&& 1 <= nodes.len() < u64::MAX
    &&& nodes[0] is Dir
    &&& nodes[0].parent_of() == 1
    &&& nodes[0].name_of() == seq![slash()]
    &&& forall|i: int| 0 <= i < nodes.len() ==> #[trigger] nodes[i].ino_of() == i + 1
    &&& forall|i: int|
        0 < i < nodes.len() ==> 1 <= #[trigger] nodes[i].parent_of() <= i && nodes[
            nodes[i].parent_of() - 1
        ].children_of().contains((i + 1) as u64)
    &&& forall|i: int, j: int|
        0 <= i < nodes.len() && 0 <= j < nodes[i].children_of().len() ==> child_ok(
            nodes,
            i,
            #[trigger] nodes[i].children_of()[j],
        )
    &&& forall|i: int, j: int, k: int|
        0 <= i < nodes.len() && 0 <= j < k < nodes[i].children_of().len()
            ==> #[trigger] nodes[i].children_of()[j] < #[trigger] nodes[i].children_of()[k]
}

/// Child inode `c` of node `i`: it lies after `i`, names `i` as parent, and is
/// of the kind that `i` may hold.
pub open spec fn child_ok(nodes: Seq<FsTree>, i: int, c: u64) -> bool {
    &&& i + 1 < c <= nodes.len()
    &&& nodes[c - 1].parent_of() == i + 1
    &&& (nodes[i] is Dir ==> !(nodes[c - 1] is Secret))
    &&& (nodes[i] is Secrets ==> nodes[c - 1] is Secret)
}

/// The node of inode `ino`, if the arena holds it.
pub open spec fn node_at(nodes: Seq<FsTree>, ino: u64) -> Option<FsTree> {
    if 1 <= ino <= nodes.len() {
        Some(nodes[ino - 1])
    } else {
        None
    }
}

/// The listing of a node: each child's inode, kind and name, in stored order.
pub open spec fn entries_of(nodes: Seq<FsTree>, n: FsTree) -> Seq<(u64, FileKind, Seq<char>)> {
    n.children_of().map_values(
        |c: u64| (c, nodes[c - 1].kind_of(), nodes[c - 1].name_of()),
    )
}

/// Position of the first child of `n` named `name`, if any.
pub open spec fn first_named(nodes: Seq<FsTree>, n: FsTree, name: Seq<char>, k: int) -> bool {
    &&& 0 <= k < n.children_of().len()
    &&& nodes[n.children_of()[k] - 1].name_of() == name
    &&& forall|m: int| 0 <= m < k ==> nodes[#[trigger] n.children_of()[m] - 1].name_of() != name
}

/// Every inode of a built tree belongs to exactly one node, inode 1 is the
/// root directory, and no inode is the child of two places.
pub proof fn lemma_inodes_unique(nodes: Seq<FsTree>)
    requires
        arena_wf(nodes),
    ensures
        forall|i: int, j: int|
            0 <= i < nodes.len() && 0 <= j < nodes.len() && #[trigger] nodes[i].ino_of()
                == #[trigger] nodes[j].ino_of() ==> i == j,
        forall|i: int| 0 <= i < nodes.len() && #[trigger] nodes[i].ino_of() == 1 ==> i == 0,
        nodes[0] is Dir && nodes[0].ino_of() == 1 && nodes[0].name_of() == seq!['/'],
        forall|i1: int, j1: int, i2: int, j2: int|
            0 <= i1 < nodes.len() && 0 <= i2 < nodes.len() && 0 <= j1 < nodes[i1].children_of().len()
                && 0 <= j2 < nodes[i2].children_of().len() && #[trigger] nodes[i1].children_of()[j1]
                == #[trigger] nodes[i2].children_of()[j2] ==> i1 == i2 && j1 == j2,
        forall|i: int, j: int|
            0 <= i < nodes.len() && 0 <= j < nodes[i].children_of().len()
                ==> #[trigger] nodes[i].children_of()[j] != 1,
{
    assert forall|i1: int, j1: int, i2: int, j2: int|
        0 <= i1 < nodes.len() && 0 <= i2 < nodes.len() && 0 <= j1 < nodes[i1].children_of().len()
            && 0 <= j2 < nodes[i2].children_of().len() && #[trigger] nodes[i1].children_of()[j1]
            == #[trigger] nodes[i2].children_of()[j2] implies i1 == i2 && j1 == j2 by {
        assert(child_ok(nodes, i1, nodes[i1].children_of()[j1]));
        assert(child_ok(nodes, i2, nodes[i2].children_of()[j2]));
        if j1 < j2 || j2 < j1 {
            assert(i1 == i2);
        }
    }
    assert forall|i: int, j: int|
        0 <= i < nodes.len() && 0 <= j < nodes[i].children_of().len()
            implies #[trigger] nodes[i].children_of()[j] != 1 by {
        assert(child_ok(nodes, i, nodes[i].children_of()[j]));
    }
}

/// The in-memory snapshot of the store, indexed by inode.
pub struct VaultFsTree {
    nodes: Vec<FsTree>,
}

impl View for VaultFsTree {
    type V = Seq<FsTree>;

    closed spec fn view(&self) -> Seq<FsTree> {
        self.nodes@
    }
}

impl VaultFsTree {
    #[verifier::type_invariant]
    spec fn inv(self) -> bool {
        arena_wf(self.nodes@)
    }

    pub(crate) fn from_arena(nodes: Vec<FsTree>) -> (r: VaultFsTree)
        requires
            arena_wf(nodes@),
        ensures
            r@ == nodes@,
    {
        VaultFsTree { nodes }
    }

    /// The node of inode `ino`, found by index.
    pub fn find_by_ino(&self, ino: u64) -> (r: Option<&FsTree>)
        ensures
            r is Some <==> node_at(self@, ino) is Some,
            r matches Some(n) ==> *n == self@[ino - 1] && n.ino_of() == ino,
    {
        proof {
            use_type_invariant(self);
        }
        if ino >= 1 && ino <= self.nodes.len() as u64 {
            Some(&self.nodes[(ino - 1) as usize])
        } else {
            None
        }
    }

    /// The child named exactly `name` of the directory or group `ino`.
    pub fn find_by_ino_and_name(&self, ino: u64, name: String) -> (r: Option<&FsTree>)
        ensures
            r is None <==> (node_at(self@, ino) is None || forall|k: int|
                0 <= k < self@[ino - 1].children_of().len() ==> self@[#[trigger] self@[ino
                    - 1].children_of()[k] - 1].name_of() != name@),
            r matches Some(n) ==> exists|k: int|
                #[trigger] first_named(self@, self@[ino - 1], name@, k) && *n == self@[self@[ino
                    - 1].children_of()[k] - 1],
    {
        proof {
            use_type_invariant(self);
        }
        let node = match self.find_by_ino(ino) {
            Some(n) => n,
            None => return None,
        };
        let children: &Vec<u64> = match node {
            FsTree::Dir(d) => &d.children,
            FsTree::Secrets(s) => &s.children,
            FsTree::Secret(_) => return None,
        };
        let ghost cs = node.children_of();
        proof {
            assert(self.nodes@.len() == self.nodes.len());
        }
        let mut k: usize = 0;
        while k < children.len()
            invariant
                arena_wf(self.nodes@),
                node == self.nodes@[ino - 1],
                1 <= ino <= self.nodes@.len(),
                self.nodes@.len() <= usize::MAX,
                children@ == cs,
                cs == node.children_of(),
                k <= cs.len(),
                forall|m: int| 0 <= m < k ==> self.nodes@[#[trigger] cs[m] - 1].name_of() != name@,
            decreases children.len() - k,
        {
            let c = children[k];
            proof {
                assert(child_ok(self.nodes@, ino - 1, cs[k as int]));
            }
            let child = &self.nodes[(c - 1) as usize];
            if *child.name() == name {
                proof {
                    assert(first_named(self.nodes@, *node, name@, k as int));
                }
                return Some(child);
            }
            k = k + 1;
        }
        None
    }

    /// The entries of directory or group `ino`, in stored order; `None` for
    /// an absent inode or a secret.
    pub fn list_children(&self, ino: u64) -> (r: Option<Vec<DirEntry>>)
        ensures
            r is None <==> (node_at(self@, ino) is None || self@[ino - 1] is Secret),
            r matches Some(v) ==> v@.map_values(|e: DirEntry| (e.ino, e.kind, e.name@))
                =~= entries_of(self@, self@[ino - 1]),
    {
        proof {
            use_type_invariant(self);
        }
        let node = match self.find_by_ino(ino) {
            Some(n) => n,
            None => return None,
        };
        let children: &Vec<u64> = match node {
            FsTree::Dir(d) => &d.children,
            FsTree::Secrets(s) => &s.children,
            FsTree::Secret(_) => return None,
        };
        let ghost cs = node.children_of();
        proof {
            assert(self.nodes@.len() == self.nodes.len());
        }
        let mut out: Vec<DirEntry> = Vec::new();
        let mut k: usize = 0;
        while k < children.len()
            invariant
                arena_wf(self.nodes@),
                node == self.nodes@[ino - 1],
                1 <= ino <= self.nodes@.len(),
                self.nodes@.len() <= usize::MAX,
                children@ == cs,
                cs == node.children_of(),
                k <= cs.len(),
                out@.len() == k,
                forall|m: int|
                    0 <= m < k ==> (#[trigger] out@[m]).ino == cs[m] && out@[m].kind
                        == self.nodes@[cs[m] - 1].kind_of() && out@[m].name@ == self.nodes@[cs[m]
                        - 1].name_of(),
            decreases children.len() - k,
        {
            let c = children[k];
            proof {
                assert(child_ok(self.nodes@, ino - 1, cs[k as int]));
            }
            let child = &self.nodes[(c - 1) as usize];
            out.push(DirEntry { ino: c, kind: child.kind(), name: child.name().clone() });
            k = k + 1;
        }
        Some(out)
    }
}

} // verus!
