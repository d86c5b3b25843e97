use vstd::prelude::*;
use vstd::string::*;
use vstd::utf8::encode_utf8;
use crate::tree::{
    entries_of, first_named, node_at, DirEntry, FileKind, FsSecret, FsTree, VaultFsTree,
};

verus! {

/// Permission bits of directories and groups.
pub const DIR_PERM: u16 = 0o755;

/// Permission bits of secrets: read-only for everyone.
pub const FILE_PERM: u16 = 0o444;

/// What a filesystem query reports of a node.
pub struct FileAttributes {
    pub ino: u64,
    pub kind: FileKind,
    pub size: u64,
    pub blocks: u64,
    pub perm: u16,
    pub nlink: u32,
    pub created_time: String,
    pub updated_time: String,
}

/// The inode or name asked for is not in the tree.
pub struct NotFoundError {
    pub ino: u64,
}

/// The bytes of a secret's content.
pub open spec fn content_bytes(s: FsSecret) -> Seq<u8> {
    encode_utf8(s.content@)
}

/// What `attributes_of` reports of node `n`.
pub open spec fn attrs_match(n: FsTree, a: FileAttributes) -> bool {
    &&& a.ino == n.ino_of()
    &&& a.kind == n.kind_of()
    &&& match n {
        FsTree::Secret(s) => {
            &&& a.size == content_bytes(s).len()
            &&& a.blocks == (a.size + 511) / 512
            &&& a.perm == FILE_PERM
            &&& a.nlink == 1
            &&& a.created_time@ == s.created_time@
            &&& a.updated_time@ == s.updated_time@
        },
        _ => {
            &&& a.size == 0
            &&& a.blocks == 0
            &&& a.perm == DIR_PERM
            &&& a.nlink == 2
            &&& a.created_time@.len() == 0
            &&& a.updated_time@.len() == 0
        },
    }
}

/// The part of `b` that starts at `offset` and holds at most `max` bytes.
pub open spec fn byte_window(b: Seq<u8>, offset: int, max: int) -> Seq<u8> {
    if offset >= b.len() {
        Seq::empty()
    } else if offset + max >= b.len() {
        b.subrange(offset, b.len() as int)
    } else {
        b.subrange(offset, offset + max)
    }
}

/// The full listing of a directory or group: itself as `.`, its parent as
/// `..`, then its children in stored order.
pub open spec fn listing_of(nodes: Seq<FsTree>, n: FsTree) -> Seq<(u64, FileKind, Seq<char>)> {
    seq![
        (n.ino_of(), FileKind::Directory, seq!['.']),
        (n.parent_of(), FileKind::Directory, seq!['.', '.']),
    ] + entries_of(nodes, n)
}

pub open spec fn entry_view(e: DirEntry) -> (u64, FileKind, Seq<char>) {
    (e.ino, e.kind, e.name@)
}

/// The attributes of a node: a directory or group is a directory of size 0;
/// a secret is a read-only file as long as its content's bytes, in blocks
/// of 512 bytes.
pub fn attributes_of(n: &FsTree) -> (r: FileAttributes)
    ensures
        attrs_match(*n, r),
{
    match n {
        FsTree::Secret(s) => {
            let size = s.content.as_str().as_bytes().len() as u64;
            FileAttributes {
            ino: s.ino,
            kind: FileKind::RegularFile,
            size,
            blocks: size / 512 + if size % 512 == 0 { 0 } else { 1 },
            perm: FILE_PERM,
            nlink: 1,
            created_time: s.created_time.clone(),
            updated_time: s.updated_time.clone(),
        }
        },
        _ => FileAttributes {
            ino: n.ino(),
            kind: FileKind::Directory,
            size: 0,
            blocks: 0,
            perm: DIR_PERM,
            nlink: 2,
            created_time: String::new(),
            updated_time: String::new(),
        },
    }
}

/// The bytes of a secret's content from `offset` on, at most `max_len` of
/// them; empty when `offset` is at or past the end.
pub fn read_content(secret: &FsSecret, offset: u64, max_len: u64) -> (r: Vec<u8>)
    ensures
        r@ == byte_window(content_bytes(*secret), offset as int, max_len as int),
{
    let bytes = secret.content.as_str().as_bytes();
    let len = bytes.len();
    let mut out: Vec<u8> = Vec::new();
    if offset >= len as u64 {
        return out;
    }
    let start = offset as usize;
    let end: usize = if max_len >= (len - start) as u64 {
        len
    } else {
        start + max_len as usize
    };
    let mut i: usize = start;
    while i < end
        invariant
            start <= i <= end <= len,
            len == bytes@.len(),
            out@ == bytes@.subrange(start as int, i as int),
        decreases end - i,
    {
        out.push(bytes[i]);
        i = i + 1;
        proof {
            assert(out@ =~= bytes@.subrange(start as int, i as int));
        }
    }
    proof {
        assert(out@ =~= byte_window(content_bytes(*secret), offset as int, max_len as int));
    }
    out
}

/// Answers the host driver's queries from a built tree.
pub struct VaultFilesystem {
    fs_tree: VaultFsTree,
}

impl View for VaultFilesystem {
    type V = Seq<FsTree>;

    closed spec fn view(&self) -> Seq<FsTree> {
        self.fs_tree@
    }
}

impl VaultFilesystem {
    pub fn new(tree: VaultFsTree) -> (r: VaultFilesystem)
        ensures
            r@ == tree@,
    {
        VaultFilesystem { fs_tree: tree }
    }

    /// The attributes of inode `ino`.
    pub fn getattr(&self, ino: u64) -> (r: Result<FileAttributes, NotFoundError>)
        ensures
            r is Err <==> node_at(self@, ino) is None,
            r matches Ok(a) ==> attrs_match(self@[ino - 1], a) && a.ino == ino,
            r matches Err(e) ==> e.ino == ino,
    {
        match self.fs_tree.find_by_ino(ino) {
            Some(n) => Ok(attributes_of(n)),
            None => Err(NotFoundError { ino }),
        }
    }

    /// The attributes of the child named exactly `name` of `parent`.
    pub fn lookup(&self, parent: u64, name: String) -> (r: Result<FileAttributes, NotFoundError>)
        ensures
            r is Err <==> (node_at(self@, parent) is None || forall|k: int|
                0 <= k < self@[parent - 1].children_of().len() ==> self@[#[trigger] self@[parent
                    - 1].children_of()[k] - 1].name_of() != name@),
            r matches Ok(a) ==> exists|k: int|
                #[trigger] first_named(self@, self@[parent - 1], name@, k) && attrs_match(
                    self@[self@[parent - 1].children_of()[k] - 1],
                    a,
                ),
            r matches Err(e) ==> e.ino == parent,
    {
        match self.fs_tree.find_by_ino_and_name(parent, name) {
            Some(n) => Ok(attributes_of(n)),
            None => Err(NotFoundError { ino: parent }),
        }
    }

    /// The listing of a directory or group, `.` and `..` first, without its
    /// first `offset` entries; not found for an absent inode or a secret.
    pub fn readdir(&self, ino: u64, offset: u64) -> (r: Result<Vec<DirEntry>, NotFoundError>)
        ensures
            r is Ok <==> (node_at(self@, ino) is Some && !(self@[ino - 1] is Secret)),
            r matches Err(e) ==> e.ino == ino,
            r matches Ok(v) ==> if offset < listing_of(self@, self@[ino - 1]).len() {
                v@.map_values(|e: DirEntry| entry_view(e)) == listing_of(self@, self@[ino - 1]).skip(
                    offset as int,
                )
            } else {
                v@.len() == 0
            },
    {
        proof {
            reveal_strlit(".");
            reveal_strlit("..");
        }
        let node = match self.fs_tree.find_by_ino(ino) {
            Some(n) => n,
            None => return Err(NotFoundError { ino }),
        };
        let children = match self.fs_tree.list_children(ino) {
            Some(c) => c,
            None => return Err(NotFoundError { ino }),
        };
        let ghost listing = listing_of(self@, self@[ino - 1]);
        let mut all: Vec<DirEntry> = Vec::new();
        all.push(DirEntry { ino: node.ino(), kind: FileKind::Directory, name: ".".to_owned() });
        all.push(DirEntry { ino: node.parent(), kind: FileKind::Directory, name: "..".to_owned() });
        let mut k: usize = 0;
        while k < children.len()
            invariant
                all@.len() == k + 2,
                k <= children@.len(),
                children@.map_values(|e: DirEntry| (e.ino, e.kind, e.name@)) =~= entries_of(
                    self@,
                    self@[ino - 1],
                ),
                listing == listing_of(self@, self@[ino - 1]),
                forall|m: int| 0 <= m < k + 2 ==> entry_view(#[trigger] all@[m]) == listing[m],
            decreases children.len() - k,
        {
            let c = &children[k];
            all.push(DirEntry { ino: c.ino, kind: c.kind, name: c.name.clone() });
            proof {
                assert(children@.map_values(|e: DirEntry| (e.ino, e.kind, e.name@))[k as int]
                    == listing[k + 2]);
            }
            k = k + 1;
        }
        let total = all.len();
        let mut out: Vec<DirEntry> = Vec::new();
        if offset >= total as u64 {
            return Ok(out);
        }
        let mut i: usize = offset as usize;
        while i < total
            invariant
                offset <= i <= total,
                total == all@.len(),
                total == listing.len(),
                forall|m: int| 0 <= m < total ==> entry_view(#[trigger] all@[m]) == listing[m],
                out@.len() == i - offset,
                forall|m: int| 0 <= m < out@.len() ==> entry_view(#[trigger] out@[m]) == listing[offset + m],
            decreases total - i,
        {
            let e = &all[i];
            out.push(DirEntry { ino: e.ino, kind: e.kind, name: e.name.clone() });
            i = i + 1;
        }
        proof {
            assert(out@.map_values(|e: DirEntry| entry_view(e)) =~= listing.skip(offset as int));
        }
        Ok(out)
    }

    /// Up to `size` bytes of secret `ino`'s content, from `offset` on; not
    /// found for an absent inode, a directory or a group.
    pub fn read(&self, ino: u64, offset: u64, size: u32) -> (r: Result<Vec<u8>, NotFoundError>)
        ensures
            r is Ok <==> (node_at(self@, ino) is Some && self@[ino - 1] is Secret),
            r matches Err(e) ==> e.ino == ino,
            r matches Ok(b) ==> self@[ino - 1] matches FsTree::Secret(s) && b@ == byte_window(
                content_bytes(s),
                offset as int,
                size as int,
            ),
    {
        match self.fs_tree.find_by_ino(ino) {
            Some(FsTree::Secret(s)) => Ok(read_content(s, offset, size as u64)),
            _ => Err(NotFoundError { ino }),
        }
    }
}

} // verus!
