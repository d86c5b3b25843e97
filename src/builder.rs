use vstd::prelude::*;
use vstd::string::*;
use crate::tree::{arena_wf, child_ok, ends_with_sep, entries_of, entry_name, FileKind, FsDir, FsSecret, FsSecrets, FsTree, VaultFsTree};

verus! {

/// A failed call to the store: transport, status or malformed response.
pub struct StoreError {
    pub message: String,
}

/// Group-level metadata, copied onto every secret of the group.
pub struct GroupMetadata {
    pub created_time: String,
    pub updated_time: String,
}

/// A subtree that could not be fetched and was left empty.
pub struct PartialBuildError {
    pub path: String,
}

/// The root listing failed: no usable tree exists.
pub struct FatalStartupError {
    pub path: String,
}

/// The kind of store call awaited.
#[derive(Clone, Copy, Debug, PartialEq, Eq, Structural)]
pub enum Step {
    List,
    Metadata,
    Data,
}

/// The call that the builder waits for, with the store path it concerns.
pub struct StoreRequest {
    pub step: Step,
    pub path: String,
}

struct Pending {
    ino: u64,
    path: String,
    step: Step,
}

/// A directory whose listing is being expanded, name by name.
struct Frame {
    ino: u64,
    path: String,
    names: Vec<String>,
    next: usize,
}

/// Builds the tree depth-first, in pre-order, one store reply at a time: the
/// caller asks `next_request`, performs that call, and hands the reply back.
pub struct TreeBuilder {
    nodes: Vec<FsTree>,
    frames: Vec<Frame>,
    pending: Option<Pending>,
    metadata: Option<GroupMetadata>,
    errors: Vec<PartialBuildError>,
    root_failed: bool,
    listed: Ghost<Map<u64, Seq<Seq<char>>>>,
    emptied: Ghost<Set<u64>>,
    filled: Ghost<Map<u64, GroupReply>>,
}

/// The pairs a group's data call returned and the group's creation and
/// update times.
pub type GroupReply = (Seq<(String, String)>, (Seq<char>, Seq<char>));

/// Fields that never change once a node is allocated.
pub open spec fn same_shape(a: FsTree, b: FsTree) -> bool {
    &&& a.ino_of() == b.ino_of()
    &&& a.parent_of() == b.parent_of()
    &&& a.name_of() == b.name_of()
    &&& (a is Dir <==> b is Dir)
    &&& (a is Secrets <==> b is Secrets)
    &&& (a is Secret <==> b is Secret)
    &&& (a is Secret ==> a == b)
}

/// `b` keeps every node of `a` and its shape.
pub open spec fn grows(a: Seq<FsTree>, b: Seq<FsTree>) -> bool {
    &&& a.len() <= b.len()
    &&& forall|i: int| 0 <= i < a.len() ==> same_shape(#[trigger] a[i], b[i])
}

/// Child `j` of `n` was made from listed name `raw`.
pub open spec fn made_from(nodes: Seq<FsTree>, n: FsTree, j: int, raw: Seq<char>) -> bool {
    &&& nodes[n.children_of()[j] - 1].name_of() == entry_name(raw)
    &&& (nodes[n.children_of()[j] - 1] is Dir <==> ends_with_sep(raw))
}

/// Directory `d` holds one child for each listed name, in the order listed.
pub open spec fn listing_done(nodes: Seq<FsTree>, d: u64, names: Seq<Seq<char>>) -> bool {
    &&& 1 <= d <= nodes.len()
    &&& nodes[d - 1].children_of().len() == names.len()
    &&& forall|j: int| 0 <= j < names.len() ==> #[trigger] made_from(nodes, nodes[d - 1], j, names[j])
}

pub open spec fn names_view(v: Seq<String>) -> Seq<Seq<char>> {
    v.map_values(|s: String| s@)
}

spec fn off_frames(frames: Seq<Frame>, d: u64) -> bool {
    forall|k: int| 0 <= k < frames.len() ==> #[trigger] frames[k].ino != d
}

/// Every successful listing names a directory; those being expanded are the
/// frames; all others are complete unless the inodes ran out.
spec fn listed_ok(nodes: Seq<FsTree>, frames: Seq<Frame>, listed: Map<u64, Seq<Seq<char>>>) -> bool {
    &&& forall|d: u64| #[trigger] listed.dom().contains(d) ==> 1 <= d <= nodes.len() && nodes[d - 1] is Dir
    &&& forall|k: int|
        0 <= k < frames.len() ==> listed.dom().contains(#[trigger] frames[k].ino) && listed[frames[k].ino]
            == names_view(frames[k].names@)
    &&& nodes.len() + 2 < u64::MAX ==> forall|d: u64|
        #[trigger] listed.dom().contains(d) && off_frames(frames, d) ==> listing_done(nodes, d, listed[d])
}

proof fn lemma_listed_kept(
    a: Seq<FsTree>,
    b: Seq<FsTree>,
    frames: Seq<Frame>,
    listed: Map<u64, Seq<Seq<char>>>,
    g: u64,
)
    requires
        arena_wf(a),
        listed_ok(a, frames, listed),
        grows(a, b),
        !off_frames(frames, g) || !(a[g - 1] is Dir),
        1 <= g <= a.len(),
        forall|i: int| 0 <= i < a.len() && i + 1 != g ==> #[trigger] b[i] == a[i],
    ensures
        listed_ok(b, frames, listed),
{
    assert forall|d: u64| #[trigger] listed.dom().contains(d) implies 1 <= d <= b.len() && b[d - 1] is Dir by {
        assert(same_shape(a[d - 1], b[d - 1]));
    }
    if b.len() + 2 < u64::MAX {
        assert forall|d: u64|
            #[trigger] listed.dom().contains(d) && off_frames(frames, d) implies listing_done(b, d, listed[d]) by {
            assert(listing_done(a, d, listed[d]));
            assert(d != g);
            assert(b[d - 1] == a[d - 1]);
            assert forall|j: int| 0 <= j < listed[d].len() implies #[trigger] made_from(
                b,
                b[d - 1],
                j,
                listed[d][j],
            ) by {
                assert(made_from(a, a[d - 1], j, listed[d][j]));
                let c = a[d - 1].children_of()[j];
                assert(child_ok(a, d - 1, c));
                assert(same_shape(a[c - 1], b[c - 1]));
            }
        }
    }
}

/// A directory being expanded, as seen from outside: its inode, its store
/// path, the names its listing gave, and how many of them are done.
pub type FrameView = (u64, Seq<char>, Seq<Seq<char>>, int);

spec fn frame_view(f: Frame) -> FrameView {
    (f.ino, f.path@, names_view(f.names@), f.next as int)
}

/// The call that follows once the arena holds `len` nodes: the first name
/// not yet done, in the innermost directory that has one, is allocated the
/// next inode and asked for under its parent's path followed by the name.
pub open spec fn next_call(stack: Seq<FrameView>, len: int) -> Option<(Step, u64, Seq<char>)>
    decreases stack.len(),
{
    if stack.len() == 0 {
        None
    } else {
        let top = stack.last();
        if top.3 < top.2.len() {
            let raw = top.2[top.3];
            Some(
                (
                    if ends_with_sep(raw) {
                        Step::List
                    } else {
                        Step::Metadata
                    },
                    (len + 1) as u64,
                    top.1 + raw,
                ),
            )
        } else {
            next_call(stack.drop_last(), len)
        }
    }
}

/// The stack once `next_call` is taken: finished directories are dropped
/// and the one that gave the name counts it as done.
pub open spec fn stack_after(stack: Seq<FrameView>) -> Seq<FrameView>
    decreases stack.len(),
{
    if stack.len() == 0 {
        stack
    } else {
        let top = stack.last();
        if top.3 < top.2.len() {
            stack.drop_last().push((top.0, top.1, top.2, top.3 + 1))
        } else {
            stack_after(stack.drop_last())
        }
    }
}

/// The directory and the listed name that `next_call` concerns.
pub open spec fn next_entry(stack: Seq<FrameView>) -> Option<(u64, Seq<char>)>
    decreases stack.len(),
{
    if stack.len() == 0 {
        None
    } else {
        let top = stack.last();
        if top.3 < top.2.len() {
            Some((top.0, top.2[top.3]))
        } else {
            next_entry(stack.drop_last())
        }
    }
}

/// The builder has moved on from `stack` with `len` nodes: it awaits
/// `next_call`, its stack is `stack_after`, and the node of that call, if
/// any, is the one just appended, made from the listed name under its
/// directory and still empty.
pub open spec fn moved_on(b: TreeBuilder, stack: Seq<FrameView>, len: int) -> bool {
    &&& b.awaiting() == next_call(stack, len)
    &&& b.stack() == stack_after(stack)
    &&& match next_entry(stack) {
        Some((p, raw)) => {
            &&& b.arena().len() == len + 1
            &&& b.arena()[len].parent_of() == p
            &&& b.arena()[len].name_of() == entry_name(raw)
            &&& (b.arena()[len] is Dir <==> ends_with_sep(raw))
            &&& !(b.arena()[len] is Secret)
            &&& b.arena()[len].children_of().len() == 0
        },
        None => b.arena().len() == len,
    }
}

/// Nodes whose call failed hold no children and are no longer expanded.
spec fn emptied_ok(nodes: Seq<FsTree>, frames: Seq<Frame>, emptied: Set<u64>) -> bool {
    forall|d: u64|
        #[trigger] emptied.contains(d) ==> 1 <= d <= nodes.len() && nodes[d - 1].children_of().len()
            == 0 && off_frames(frames, d)
}

proof fn lemma_emptied_kept(a: Seq<FsTree>, b: Seq<FsTree>, frames: Seq<Frame>, emptied: Set<u64>, g: u64)
    requires
        emptied_ok(a, frames, emptied),
        a.len() <= b.len(),
        !emptied.contains(g),
        forall|i: int| 0 <= i < a.len() && i + 1 != g ==> #[trigger] b[i] == a[i],
    ensures
        emptied_ok(b, frames, emptied),
{
    assert forall|d: u64| #[trigger] emptied.contains(d) implies 1 <= d <= b.len() && b[d
        - 1].children_of().len() == 0 && off_frames(frames, d) by {
        assert(b[d - 1] == a[d - 1]);
    }
}

/// Each filled group holds the secrets made from its reply.
spec fn groups_ok(nodes: Seq<FsTree>, filled: Map<u64, GroupReply>) -> bool {
    forall|g: u64|
        #[trigger] filled.dom().contains(g) ==> 1 <= g <= nodes.len() && nodes[g - 1] is Secrets
            && group_holds(nodes, g, filled[g].0, filled[g].1)
}

proof fn lemma_groups_kept(a: Seq<FsTree>, b: Seq<FsTree>, filled: Map<u64, GroupReply>, x: u64)
    requires
        arena_wf(a),
        groups_ok(a, filled),
        grows(a, b),
        !filled.dom().contains(x),
        forall|i: int| 0 <= i < a.len() && i + 1 != x ==> #[trigger] b[i] == a[i],
    ensures
        groups_ok(b, filled),
{
    assert forall|g: u64| #[trigger] filled.dom().contains(g) implies 1 <= g <= b.len() && b[g
        - 1] is Secrets && group_holds(b, g, filled[g].0, filled[g].1) by {
        assert(b[g - 1] == a[g - 1]);
        let pairs = filled[g].0;
        assert forall|j: int| 0 <= j < pairs.len() implies #[trigger] secret_at(
            b,
            b[g - 1].children_of()[j],
            pairs[j],
            filled[g].1,
        ) by {
            let c = a[g - 1].children_of()[j];
            assert(secret_at(a, c, pairs[j], filled[g].1));
            assert(same_shape(a[c - 1], b[c - 1]));
        }
    }
}

spec fn frame_ok(nodes: Seq<FsTree>, f: Frame) -> bool {
    &&& 1 <= f.ino <= nodes.len()
    &&& nodes[f.ino - 1] is Dir
    &&& f.next <= f.names@.len()
    &&& nodes[f.ino - 1].children_of().len() == f.next
    &&& forall|j: int|
        0 <= j < f.next ==> #[trigger] made_from(nodes, nodes[f.ino - 1], j, f.names@[j]@)
}

spec fn frames_ok(nodes: Seq<FsTree>, frames: Seq<Frame>) -> bool {
    &&& forall|k: int| 0 <= k < frames.len() ==> frame_ok(nodes, #[trigger] frames[k])
    &&& forall|k1: int, k2: int|
        0 <= k1 < k2 < frames.len() ==> #[trigger] frames[k1].ino < #[trigger] frames[k2].ino
}

/// Node `g` may be changed without disturbing any frame.
spec fn below_frames(frames: Seq<Frame>, g: u64) -> bool {
    forall|k: int| 0 <= k < frames.len() ==> #[trigger] frames[k].ino < g
}

proof fn lemma_frames_kept(a: Seq<FsTree>, b: Seq<FsTree>, frames: Seq<Frame>, g: u64)
    requires
        arena_wf(a),
        frames_ok(a, frames),
        grows(a, b),
        below_frames(frames, g),
        forall|i: int| 0 <= i < a.len() && i + 1 != g ==> #[trigger] b[i] == a[i],
    ensures
        frames_ok(b, frames),
{
    assert forall|k: int| 0 <= k < frames.len() implies frame_ok(b, #[trigger] frames[k]) by {
        let f = frames[k];
        assert(frame_ok(a, f));
        assert(b[f.ino - 1] == a[f.ino - 1]);
        assert forall|j: int| 0 <= j < f.next implies #[trigger] made_from(
            b,
            b[f.ino - 1],
            j,
            f.names@[j]@,
        ) by {
            assert(made_from(a, a[f.ino - 1], j, f.names@[j]@));
            let c = a[f.ino - 1].children_of()[j];
            assert(child_ok(a, f.ino - 1, c));
            assert(same_shape(a[c - 1], b[c - 1]));
        }
    }
}

/// Adds `node` as the last child of `p` and as the last node of the arena.
fn attach(nodes: &mut Vec<FsTree>, p: u64, node: FsTree)
    requires
        arena_wf(old(nodes)@),
        1 <= p <= old(nodes)@.len(),
        old(nodes)@.len() + 2 < u64::MAX,
        node.ino_of() == old(nodes)@.len() + 1,
        node.parent_of() == p,
        node.children_of().len() == 0,
        old(nodes)@[p - 1] is Dir ==> !(node is Secret),
        old(nodes)@[p - 1] is Secrets ==> node is Secret,
        !(old(nodes)@[p - 1] is Secret),
    ensures
        arena_wf(final(nodes)@),
        grows(old(nodes)@, final(nodes)@),
        final(nodes)@.len() == old(nodes)@.len() + 1,
        final(nodes)@.last() == node,
        final(nodes)@[p - 1].children_of() == old(nodes)@[p - 1].children_of().push(
            node.ino_of(),
        ),
        forall|i: int|
            0 <= i < old(nodes)@.len() && i + 1 != p ==> #[trigger] final(nodes)@[i] == old(nodes)@[i],
{
    let ghost a = nodes@;
    let c = nodes.len() as u64 + 1;
    let idx = (p - 1) as usize;
    match &mut nodes[idx] {
        FsTree::Dir(d) => d.children.push(c),
        FsTree::Secrets(s) => s.children.push(c),
        FsTree::Secret(_) => {},
    }
    let ghost b = nodes@;
    nodes.push(node);
    proof {
        let n = nodes@;
        assert(same_shape(a[p - 1], n[p - 1]));
        assert forall|i: int| 0 <= i < a.len() implies same_shape(#[trigger] a[i], n[i]) by {
            if i + 1 != p {
                assert(n[i] == a[i]);
            }
        }
        assert forall|i: int| 0 <= i < n.len() implies #[trigger] n[i].ino_of() == i + 1 by {
            if i < a.len() {
                assert(same_shape(a[i], n[i]));
            }
        }
        assert forall|i: int| 0 < i < n.len() implies 1 <= #[trigger] n[i].parent_of() <= i
            && n[n[i].parent_of() - 1].children_of().contains((i + 1) as u64) by {
            if i < a.len() {
                assert(same_shape(a[i], n[i]));
                let q = a[i].parent_of();
                assert(a[q - 1].children_of().contains((i + 1) as u64));
                if q == p {
                    let k = choose|k: int|
                        0 <= k < a[q - 1].children_of().len() && #[trigger] a[q - 1].children_of()[k]
                            == (i + 1) as u64;
                    assert(n[q - 1].children_of()[k] == (i + 1) as u64);
                } else {
                    assert(n[q - 1] == a[q - 1]);
                }
            } else {
                assert(n[p - 1].children_of().last() == c);
            }
        }
        assert forall|i: int, j: int|
            0 <= i < n.len() && 0 <= j < n[i].children_of().len() implies child_ok(
            n,
            i,
            #[trigger] n[i].children_of()[j],
        ) by {
            if i + 1 == p {
                if j < a[i].children_of().len() {
                    assert(child_ok(a, i, a[i].children_of()[j]));
                    let x = a[i].children_of()[j];
                    assert(same_shape(a[x - 1], n[x - 1]));
                }
            } else if i < a.len() {
                assert(n[i] == a[i]);
                assert(child_ok(a, i, a[i].children_of()[j]));
                let x = a[i].children_of()[j];
                assert(same_shape(a[x - 1], n[x - 1]));
            }
        }
        assert forall|i: int, j: int, k: int|
            0 <= i < n.len() && 0 <= j < k < n[i].children_of().len() implies #[trigger] n[i].children_of()[j]
            < #[trigger] n[i].children_of()[k] by {
            if i + 1 == p {
                if k == a[i].children_of().len() {
                    assert(child_ok(a, i, a[i].children_of()[j]));
                }
            } else if i < a.len() {
                assert(n[i] == a[i]);
            }
        }
        assert(same_shape(a[0], n[0]));
    }
}

/// Whether `raw` names a sub-namespace.
fn is_dir_name(raw: &String) -> (r: bool)
    ensures
        r == ends_with_sep(raw@),
{
    let s = raw.as_str();
    let n = s.unicode_len();
    n > 0 && s.get_char(n - 1) == '/'
}

/// `raw` without its trailing separator.
fn strip_name(raw: &String) -> (r: String)
    ensures
        r@ == entry_name(raw@),
{
    let s = raw.as_str();
    let n = s.unicode_len();
    if n > 0 && s.get_char(n - 1) == '/' {
        s.substring_char(0, n - 1).to_owned()
    } else {
        raw.clone()
    }
}

/// `a` followed by `b`.
fn join(a: &String, b: &String) -> (r: String)
    ensures
        r@ == a@ + b@,
{
    let mut r = a.clone();
    r.append(b.as_str());
    r
}

/// Node `c` is a secret made from the key-value pair `kv`, with the group's
/// creation and update times.
pub open spec fn secret_at(
    nodes: Seq<FsTree>,
    c: u64,
    kv: (String, String),
    times: (Seq<char>, Seq<char>),
) -> bool {
    &&& 1 <= c <= nodes.len()
    &&& nodes[c - 1] matches FsTree::Secret(s) && s.name@ == kv.0@ && s.content@ == kv.1@
        && s.created_time@ == times.0 && s.updated_time@ == times.1
}

/// The children of group `g` are the secrets made from `pairs`, one for each
/// pair, in the order given.
pub open spec fn group_holds(
    nodes: Seq<FsTree>,
    g: u64,
    pairs: Seq<(String, String)>,
    times: (Seq<char>, Seq<char>),
) -> bool {
    &&& 1 <= g <= nodes.len()
    &&& nodes[g - 1].children_of().len() == pairs.len()
    &&& forall|j: int|
        0 <= j < pairs.len() ==> #[trigger] secret_at(
            nodes,
            nodes[g - 1].children_of()[j],
            pairs[j],
            times,
        )
}

/// The listing of a group filled from `pairs` holds one secret per pair,
/// named by its key, in the order of the pairs, and no inode twice.
pub proof fn lemma_group_listing(
    nodes: Seq<FsTree>,
    g: u64,
    pairs: Seq<(String, String)>,
    times: (Seq<char>, Seq<char>),
)
    requires
        arena_wf(nodes),
        group_holds(nodes, g, pairs, times),
    ensures
        entries_of(nodes, nodes[g - 1]).len() == pairs.len(),
        forall|j: int|
            0 <= j < pairs.len() ==> (#[trigger] entries_of(nodes, nodes[g - 1])[j]).1
                == FileKind::RegularFile && entries_of(nodes, nodes[g - 1])[j].2 == pairs[j].0@,
        forall|j: int, k: int|
            0 <= j < k < pairs.len() ==> (#[trigger] entries_of(nodes, nodes[g - 1])[j]).0
                != (#[trigger] entries_of(nodes, nodes[g - 1])[k]).0,
{
    let e = entries_of(nodes, nodes[g - 1]);
    assert forall|j: int| 0 <= j < pairs.len() implies (#[trigger] e[j]).1 == FileKind::RegularFile
        && e[j].2 == pairs[j].0@ by {
        assert(secret_at(nodes, nodes[g - 1].children_of()[j], pairs[j], times));
    }
    assert forall|j: int, k: int| 0 <= j < k < pairs.len() implies (#[trigger] e[j]).0
        != (#[trigger] e[k]).0 by {
        assert(nodes[g - 1].children_of()[j] != nodes[g - 1].children_of()[k]);
    }
}

spec fn pending_ok(nodes: Seq<FsTree>, frames: Seq<Frame>, p: Pending, meta: Option<GroupMetadata>) -> bool {
    &&& p.ino == nodes.len()
    &&& nodes[p.ino - 1].children_of().len() == 0
    &&& below_frames(frames, p.ino)
    &&& !(nodes[p.ino - 1] is Secret)
    &&& (p.step == Step::List <==> nodes[p.ino - 1] is Dir)
    &&& (p.step == Step::Data ==> meta is Some)
    &&& (frames.len() == 0 ==> p.ino == 1)
}

/// What taking the reply to a listing does: the builder stays consistent,
/// nodes keep their shape, only a failure of the root is fatal, a failure
/// is recorded under the path asked for, and a success is kept as the
/// listing of the directory asked for.
pub open spec fn list_reply_taken(b0: TreeBuilder, b1: TreeBuilder, reply: Result<Vec<String>, StoreError>) -> bool {
    &&& b1.wf()
    &&& b1.arena().len() <= b0.arena().len() + 1
    &&& grows(b0.arena(), b1.arena())
    &&& forall|i: int|
        0 <= i < b0.arena().len() && !(b0.arena()[i] is Dir) ==> #[trigger] b1.arena()[i]
            == b0.arena()[i]
    &&& b1.fatal() == (b0.fatal() || (reply is Err && b0.awaited_ino() == 1))
    &&& (reply is Err && !b1.at_limit() ==> b1.error_paths() == b0.error_paths().push(b0.awaited_path()))
    &&& (reply is Ok && !b1.at_limit() ==> b1.error_paths() == b0.error_paths())
    &&& (reply matches Ok(names) ==> b1.listings() == b0.listings().insert(
        b0.awaited_ino(),
        names_view(names@),
    ))
    &&& (reply is Err ==> b1.listings() == b0.listings())
    &&& (reply is Err ==> b1.emptied() == b0.emptied().insert(b0.awaited_ino()))
    &&& (reply is Ok ==> b1.emptied() == b0.emptied())
    &&& b1.groups() == b0.groups()
    &&& (reply matches Ok(names) ==> (!b1.at_limit() ==> moved_on(
        b1,
        b0.stack().push((b0.awaited_ino(), b0.awaited_path(), names_view(names@), 0)),
        b0.arena().len() as int,
    )))
    &&& (reply is Err ==> (!b1.at_limit() ==> moved_on(b1, b0.stack(), b0.arena().len() as int)))
}

/// A failed listing below the root is recorded under its path and leaves
/// the build non-fatal, with the root still in place.
pub proof fn lemma_nested_failure_not_fatal(
    b0: TreeBuilder,
    b1: TreeBuilder,
    reply: Result<Vec<String>, StoreError>,
)
    requires
        b0.wf(),
        b0.awaiting() matches Some((step, ino, _)) && step == Step::List && ino != 1,
        !b0.fatal(),
        reply is Err,
        list_reply_taken(b0, b1, reply),
    ensures
        !b1.fatal(),
        !b1.at_limit() ==> b1.error_paths() == b0.error_paths().push(b0.awaited_path()),
        b1.arena()[0] is Dir && b1.arena()[0].ino_of() == 1,
{
}

/// The awaited call concerns the last node of the arena, still empty: a
/// directory for a listing, a group for its metadata or data.
pub proof fn lemma_awaited_node(b: TreeBuilder)
    requires
        b.wf(),
    ensures
        b.awaiting() matches Some((step, ino, _)) ==> ino == b.arena().len() && b.arena()[ino
            - 1].children_of().len() == 0 && (step == Step::List <==> b.arena()[ino - 1] is Dir)
            && (step != Step::List <==> b.arena()[ino - 1] is Secrets),
{
}

impl TreeBuilder {
    /// The builder's internal consistency: a well-formed arena, a chain of
    /// directories being expanded, and the call it waits for.
    pub closed spec fn wf(&self) -> bool {
        &&& arena_wf(self.nodes@)
        &&& frames_ok(self.nodes@, self.frames@)
        &&& listed_ok(self.nodes@, self.frames@, self.listed@)
        &&& emptied_ok(self.nodes@, self.frames@, self.emptied@)
        &&& groups_ok(self.nodes@, self.filled@)
        &&& match self.pending {
            Some(p) => pending_ok(self.nodes@, self.frames@, p, self.metadata) && !self.listed@.dom().contains(p.ino)
                && !self.emptied@.contains(p.ino) && !self.filled@.dom().contains(p.ino),
            None => self.frames@.len() == 0,
        }
    }

    /// The nodes built so far, indexed by inode minus one.
    pub closed spec fn arena(&self) -> Seq<FsTree> {
        self.nodes@
    }

    /// The directories being expanded, outermost first.
    pub closed spec fn stack(&self) -> Seq<FrameView> {
        self.frames@.map_values(|f: Frame| frame_view(f))
    }

    /// Each directory whose listing succeeded, with the names listed.
    pub closed spec fn listings(&self) -> Map<u64, Seq<Seq<char>>> {
        self.listed@
    }

    /// Each group whose metadata and data calls succeeded, with its reply.
    pub closed spec fn groups(&self) -> Map<u64, GroupReply> {
        self.filled@
    }

    /// The directories and groups whose call failed, left without children.
    pub closed spec fn emptied(&self) -> Set<u64> {
        self.emptied@
    }

    /// The paths recorded as partial-build failures, in order.
    pub closed spec fn error_paths(&self) -> Seq<Seq<char>> {
        self.errors@.map_values(|e: PartialBuildError| e.path@)
    }

    /// The call awaited: its step, the inode it fills and its store path.
    pub closed spec fn awaiting(&self) -> Option<(Step, u64, Seq<char>)> {
        match self.pending {
            Some(p) => Some((p.step, p.ino, p.path@)),
            None => None,
        }
    }

    pub open spec fn awaited_ino(&self) -> u64 {
        self.awaiting().unwrap().1
    }

    pub open spec fn awaited_path(&self) -> Seq<char> {
        self.awaiting().unwrap().2
    }

    /// The metadata of the group whose data is awaited.
    pub closed spec fn group_times(&self) -> Option<(Seq<char>, Seq<char>)> {
        match self.metadata {
            Some(m) => Some((m.created_time@, m.updated_time@)),
            None => None,
        }
    }

    /// Whether the root listing failed.
    pub closed spec fn fatal(&self) -> bool {
        self.root_failed
    }

    /// Whether no further inode fits in a `u64`.
    pub open spec fn at_limit(&self) -> bool {
        self.arena().len() + 2 >= u64::MAX
    }

    /// A builder holding only the root directory, waiting for its listing.
    pub fn new() -> (r: TreeBuilder)
        ensures
            r.wf(),
            r.arena().len() == 1,
            r.awaiting() == Some((Step::List, 1u64, seq!['/'])),
            r.error_paths().len() == 0,
            r.listings().dom().len() == 0,
            r.stack().len() == 0,
            r.emptied().len() == 0,
            r.groups().dom().len() == 0,
            !r.fatal(),
    {
        proof {
            reveal_strlit("/");
        }
        let root = FsTree::Dir(
            FsDir { ino: 1, parent: 1, name: "/".to_owned(), children: Vec::new() },
        );
        let mut nodes: Vec<FsTree> = Vec::new();
        nodes.push(root);
        let b = TreeBuilder {
            nodes,
            frames: Vec::new(),
            pending: Some(Pending { ino: 1, path: "/".to_owned(), step: Step::List }),
            metadata: None,
            errors: Vec::new(),
            root_failed: false,
            listed: Ghost(Map::empty()),
            emptied: Ghost(Set::empty()),
            filled: Ghost(Map::empty()),
        };
        proof {
            assert(b.error_paths() =~= Seq::<Seq<char>>::empty());
            assert(b.nodes@[0].name_of() == seq!['/']);
            assert(arena_wf(b.nodes@));
            assert(frames_ok(b.nodes@, b.frames@));
            assert(b.listed@.dom() =~= Set::empty());
            assert(b.emptied@ =~= Set::empty());
            assert(b.filled@.dom() =~= Set::empty());
        }
        b
    }

    /// The call to make next, or `None` once the build is complete.
    pub fn next_request(&self) -> (r: Option<StoreRequest>)
        ensures
            r is None <==> self.awaiting() is None,
            r matches Some(q) ==> self.awaiting() matches Some((step, _, path)) && q.step == step
                && q.path@ == path,
    {
        match &self.pending {
            Some(p) => Some(StoreRequest { step: p.step, path: p.path.clone() }),
            None => None,
        }
    }

    pub fn is_done(&self) -> (r: bool)
        ensures
            r == (self.awaiting() is None),
    {
        self.pending.is_none()
    }

    /// Records the failure of the awaited call and drops it.
    fn fail_pending(&mut self)
        requires
            old(self).wf(),
            old(self).pending is Some,
        ensures
            arena_wf(final(self).nodes@),
            frames_ok(final(self).nodes@, final(self).frames@),
            final(self).pending is None,
            final(self).nodes@ == old(self).nodes@,
            final(self).frames@ == old(self).frames@,
            final(self).listed == old(self).listed,
            listed_ok(final(self).nodes@, final(self).frames@, final(self).listed@),
            emptied_ok(final(self).nodes@, final(self).frames@, final(self).emptied@),
            final(self).emptied@ == old(self).emptied@.insert(old(self).awaited_ino()),
            final(self).filled == old(self).filled,
            groups_ok(final(self).nodes@, final(self).filled@),
            final(self).metadata == old(self).metadata,
            final(self).error_paths() == old(self).error_paths().push(old(self).awaited_path()),
            final(self).root_failed == (old(self).root_failed || old(self).awaited_ino() == 1),
    {
        let ghost before = self.error_paths();
        let p = match self.pending.take() {
            Some(p) => p,
            None => return ,
        };
        if p.ino == 1 {
            self.root_failed = true;
        }
        proof {
            assert forall|k: int| 0 <= k < self.frames@.len() implies #[trigger] self.frames@[k].ino
                != p.ino by {}
        }
        self.emptied = Ghost(self.emptied@.insert(p.ino));
        self.errors.push(PartialBuildError { path: p.path });
        proof {
            assert(self.error_paths() =~= before.push(p.path@));
        }
    }

    /// Takes the reply to the awaited listing: a successful one starts the
    /// expansion of its names in order; a failed one leaves the directory
    /// empty and is recorded.
    pub fn on_list(&mut self, reply: Result<Vec<String>, StoreError>)
        requires
            old(self).wf(),
            old(self).awaiting() matches Some((step, _, _)) && step == Step::List,
        ensures
            list_reply_taken(*old(self), *final(self), reply),
    {
        let ghost before = self.error_paths();
        match reply {
            Ok(names) => {
                let p = match self.pending.take() {
                    Some(p) => p,
                    None => return ,
                };
                let ghost fs = self.frames@;
                let ghost lst = self.listed@;
                let ghost st = self.stack();
                self.listed = Ghost(self.listed@.insert(p.ino, names_view(names@)));
                self.frames.push(Frame { ino: p.ino, path: p.path, names, next: 0 });
                proof {
                    assert(self.stack() =~= st.push((p.ino, p.path@, self.listed@[p.ino], 0)));
                    let nodes = self.nodes@;
                    assert forall|k: int| 0 <= k < fs.len() implies #[trigger] fs[k].ino != p.ino by {
                        assert(lst.dom().contains(fs[k].ino));
                    }
                    assert forall|k: int| 0 <= k < self.frames@.len() implies self.listed@.dom().contains(
                        #[trigger] self.frames@[k].ino,
                    ) && self.listed@[self.frames@[k].ino] == names_view(self.frames@[k].names@) by {
                        if k < fs.len() {
                            assert(fs[k] == self.frames@[k]);
                        }
                    }
                    if nodes.len() + 2 < u64::MAX {
                        assert forall|d: u64|
                            #[trigger] self.listed@.dom().contains(d) && off_frames(self.frames@, d) implies listing_done(
                            nodes,
                            d,
                            self.listed@[d],
                        ) by {
                            assert(self.frames@[fs.len() as int].ino == p.ino);
                            assert(d != p.ino);
                            assert forall|k: int| 0 <= k < fs.len() implies #[trigger] fs[k].ino != d by {
                                assert(fs[k] == self.frames@[k]);
                            }
                            assert(off_frames(fs, d));
                        }
                    }
                    assert(frame_ok(nodes, self.frames@.last()));
                    assert forall|k: int| 0 <= k < self.frames@.len() implies frame_ok(
                        nodes,
                        #[trigger] self.frames@[k],
                    ) by {
                        if k < fs.len() {
                            assert(self.frames@[k] == fs[k]);
                        }
                    }
                    assert forall|k1: int, k2: int|
                        0 <= k1 < k2 < self.frames@.len() implies #[trigger] self.frames@[k1].ino
                        < #[trigger] self.frames@[k2].ino by {
                        assert(self.frames@[k1] == fs[k1]);
                        if k2 < fs.len() {
                            assert(self.frames@[k2] == fs[k2]);
                        }
                    }
                }
            },
            Err(_) => {
                self.fail_pending();
            },
        }
        let ghost mid = self.errors@;
        self.advance();
        proof {
            if !self.at_limit() {
                assert(self.errors@ == mid);
            }
        }
    }

    /// Takes the reply to the awaited group metadata: on success the group's
    /// data is asked for next; a failure leaves the group empty and is recorded.
    pub fn on_metadata(&mut self, reply: Result<GroupMetadata, StoreError>)
        requires
            old(self).wf(),
            old(self).awaiting() matches Some((step, _, _)) && step == Step::Metadata,
        ensures
            final(self).wf(),
            final(self).arena().len() <= old(self).arena().len() + 1,
            grows(old(self).arena(), final(self).arena()),
            forall|i: int|
                0 <= i < old(self).arena().len() && !(old(self).arena()[i] is Dir)
                    ==> #[trigger] final(self).arena()[i] == old(self).arena()[i],
            final(self).fatal() == old(self).fatal(),
            final(self).listings() == old(self).listings(),
            reply is Ok ==> final(self).emptied() == old(self).emptied(),
            reply is Err ==> final(self).emptied() == old(self).emptied().insert(old(self).awaited_ino()),
            final(self).groups() == old(self).groups(),
            reply is Ok ==> final(self).stack() == old(self).stack(),
            reply is Err ==> (!final(self).at_limit() ==> moved_on(
                *final(self),
                old(self).stack(),
                old(self).arena().len() as int,
            )),
            reply matches Ok(m) ==> final(self).arena() == old(self).arena() && final(self).error_paths() == old(self).error_paths() && final(self).awaiting() == Some(
                (Step::Data, old(self).awaited_ino(), old(self).awaited_path()),
            ) && final(self).group_times() == Some((m.created_time@, m.updated_time@)),
            reply is Err && !final(self).at_limit() ==> final(self).error_paths() == old(self).error_paths().push(old(self).awaited_path()),
    {
        match reply {
            Ok(m) => {
                self.metadata = Some(m);
                match &mut self.pending {
                    Some(p) => {
                        p.step = Step::Data;
                    },
                    None => {},
                }
            },
            Err(_) => {
                self.fail_pending();
                let ghost mid = self.errors@;
                self.advance();
                proof {
                    if !self.at_limit() {
                        assert(self.errors@ == mid);
                    }
                }
            },
        }
    }

    /// Takes the reply to the awaited group data: each key-value pair becomes
    /// a secret of the group, in the order given, carrying the group's times;
    /// a failure leaves the group empty and is recorded.
    pub fn on_data(&mut self, reply: Result<Vec<(String, String)>, StoreError>)
        requires
            old(self).wf(),
            old(self).awaiting() matches Some((step, _, _)) && step == Step::Data,
        ensures
            final(self).wf(),
            final(self).arena().len() <= old(self).arena().len() + 1 + match reply {
                Ok(pairs) => pairs@.len(),
                Err(_) => 0nat,
            },
            grows(old(self).arena(), final(self).arena()),
            forall|i: int|
                0 <= i < old(self).arena().len() && !(old(self).arena()[i] is Dir) && i + 1
                    != old(self).awaited_ino() ==> #[trigger] final(self).arena()[i] == old(self).arena()[i],
            final(self).fatal() == old(self).fatal(),
            final(self).listings() == old(self).listings(),
            reply is Ok ==> final(self).emptied() == old(self).emptied(),
            reply is Err ==> final(self).emptied() == old(self).emptied().insert(old(self).awaited_ino()),
            reply is Err ==> final(self).groups() == old(self).groups(),
            reply matches Ok(pairs) ==> (!final(self).at_limit() ==> final(self).groups()
                == old(self).groups().insert(
                old(self).awaited_ino(),
                (pairs@, old(self).group_times().unwrap()),
            )),
            reply matches Ok(pairs) ==> (!final(self).at_limit() ==> moved_on(
                *final(self),
                old(self).stack(),
                (old(self).arena().len() + pairs@.len()) as int,
            )),
            reply matches Ok(pairs) ==> (!final(self).at_limit() ==> forall|j: int|
                0 <= j < pairs@.len() ==> #[trigger] final(self).arena()[old(self).awaited_ino()
                    - 1].children_of()[j] == old(self).arena().len() + 1 + j),
            reply is Err ==> (!final(self).at_limit() ==> moved_on(
                *final(self),
                old(self).stack(),
                old(self).arena().len() as int,
            )),
            reply matches Ok(pairs) ==> (!final(self).at_limit() ==> final(self).error_paths()
                == old(self).error_paths() && group_holds(
                final(self).arena(),
                old(self).awaited_ino(),
                pairs@,
                old(self).group_times().unwrap(),
            )),
            reply is Err && !final(self).at_limit() ==> final(self).error_paths() == old(self).error_paths().push(old(self).awaited_path()),
    {
        match reply {
            Ok(pairs) => {
                let ghost before = self.errors@;
                let p = match self.pending.take() {
                    Some(p) => p,
                    None => return ,
                };
                let m = match &self.metadata {
                    Some(m) => m,
                    None => return ,
                };
                let g = p.ino;
                let ghost orig = self.nodes@;
                let ghost times = (m.created_time@, m.updated_time@);
                let mut k: usize = 0;
                let mut full = false;
                while k < pairs.len() && !full
                    invariant
                        orig == old(self).nodes@,
                        before == old(self).errors@,
                        times == old(self).group_times().unwrap(),
                        self.metadata == old(self).metadata,
                        self.metadata matches Some(mm) && mm == *m,
                        self.pending is None,
                        self.root_failed == old(self).root_failed,
                        g == old(self).awaited_ino(),
                        p.path@ == old(self).awaited_path(),
                        1 <= g <= orig.len(),
                        orig[g - 1] is Secrets,
                        orig[g - 1].children_of().len() == 0,
                        below_frames(self.frames@, g),
                        arena_wf(self.nodes@),
                        frames_ok(self.nodes@, self.frames@),
                        listed_ok(self.nodes@, self.frames@, self.listed@),
                        self.listed == old(self).listed,
                        emptied_ok(self.nodes@, self.frames@, self.emptied@),
                        self.emptied == old(self).emptied,
                        !self.emptied@.contains(g),
                        groups_ok(self.nodes@, self.filled@),
                        self.filled == old(self).filled,
                        !self.filled@.dom().contains(g),
                        self.frames@ == old(self).frames@,
                        !full ==> self.nodes@.len() == orig.len() + k,
                        self.nodes@.len() <= orig.len() + k,
                        !full ==> forall|j: int|
                            0 <= j < k ==> #[trigger] self.nodes@[g - 1].children_of()[j] == orig.len()
                                + 1 + j,
                        grows(orig, self.nodes@),
                        forall|i: int|
                            0 <= i < orig.len() && i + 1 != g ==> #[trigger] self.nodes@[i]
                                == orig[i],
                        k <= pairs@.len(),
                        !full ==> self.errors@ == before && group_holds(
                            self.nodes@,
                            g,
                            pairs@.take(k as int),
                            times,
                        ),
                        full ==> self.errors@ == before.push(
                            PartialBuildError { path: p.path },
                        ) || self.nodes@.len() + 2 >= u64::MAX,
                        full ==> self.nodes@.len() + 2 >= u64::MAX,
                    decreases pairs.len() - k,
                {
                    if self.nodes.len() as u64 >= u64::MAX - 2 {
                        self.errors.push(PartialBuildError { path: p.path.clone() });
                        full = true;
                        k = pairs.len();
                    } else {
                        let ino = self.nodes.len() as u64 + 1;
                        let secret = FsTree::Secret(
                            FsSecret {
                                ino,
                                parent: g,
                                name: pairs[k].0.clone(),
                                content: pairs[k].1.clone(),
                                created_time: m.created_time.clone(),
                                updated_time: m.updated_time.clone(),
                            },
                        );
                        let ghost a = self.nodes@;
                        attach(&mut self.nodes, g, secret);
                        proof {
                            lemma_frames_kept(a, self.nodes@, self.frames@, g);
                            assert(same_shape(orig[g - 1], a[g - 1]));
                            lemma_listed_kept(a, self.nodes@, self.frames@, self.listed@, g);
                            lemma_emptied_kept(a, self.nodes@, self.frames@, self.emptied@, g);
                            lemma_groups_kept(a, self.nodes@, self.filled@, g);
                            let b = self.nodes@;
                            assert forall|i: int| 0 <= i < orig.len() implies same_shape(
                                #[trigger] orig[i],
                                b[i],
                            ) by {
                                assert(same_shape(orig[i], a[i]));
                                assert(same_shape(a[i], b[i]));
                            }
                            assert(pairs@.take(k + 1) =~= pairs@.take(k as int).push(pairs@[k as int]));
                            assert forall|j: int| 0 <= j < k + 1 implies #[trigger] secret_at(
                                b,
                                b[g - 1].children_of()[j],
                                pairs@.take(k + 1)[j],
                                times,
                            ) by {
                                if j < k {
                                    let c = a[g - 1].children_of()[j];
                                    assert(secret_at(a, c, pairs@.take(k as int)[j], times));
                                    assert(child_ok(a, g - 1, c));
                                    assert(same_shape(a[c - 1], b[c - 1]));
                                }
                            }
                        }
                        k = k + 1;
                    }
                }
                proof {
                    if !full {
                        assert(pairs@.take(k as int) =~= pairs@);
                        assert(same_shape(orig[g - 1], self.nodes@[g - 1]));
                    }
                }
                if !full {
                    self.filled = Ghost(self.filled@.insert(g, (pairs@, times)));
                }
                let ghost mid = self.nodes@;
                self.advance();
                proof {
                    let n = self.nodes@;
                    assert forall|i: int| 0 <= i < orig.len() implies same_shape(
                        #[trigger] orig[i],
                        n[i],
                    ) by {
                        assert(same_shape(orig[i], mid[i]));
                        assert(same_shape(mid[i], n[i]));
                    }
                    if !self.at_limit() {
                        assert(!full);
                        assert forall|j: int| 0 <= j < pairs@.len() implies #[trigger] secret_at(
                            n,
                            n[g - 1].children_of()[j],
                            pairs@[j],
                            times,
                        ) by {
                            let c = mid[g - 1].children_of()[j];
                            assert(secret_at(mid, c, pairs@[j], times));
                            assert(child_ok(mid, g - 1, c));
                        }
                    }
                }
            },
            Err(_) => {
                self.fail_pending();
                let ghost mid = self.errors@;
                self.advance();
                proof {
                    if !self.at_limit() {
                        assert(self.errors@ == mid);
                    }
                }
            },
        }
    }

    /// Moves to the next listed name of the innermost directory being
    /// expanded, allocating its node, or finishes when none is left.
    #[verifier::rlimit(60)]
    fn advance(&mut self)
        requires
            arena_wf(old(self).nodes@),
            frames_ok(old(self).nodes@, old(self).frames@),
            listed_ok(old(self).nodes@, old(self).frames@, old(self).listed@),
            emptied_ok(old(self).nodes@, old(self).frames@, old(self).emptied@),
            groups_ok(old(self).nodes@, old(self).filled@),
            old(self).pending is None,
        ensures
            final(self).listed == old(self).listed,
            final(self).emptied == old(self).emptied,
            final(self).filled == old(self).filled,
            !final(self).at_limit() ==> moved_on(
                *final(self),
                old(self).stack(),
                old(self).nodes@.len() as int,
            ),
            final(self).wf(),
            final(self).nodes@.len() <= old(self).nodes@.len() + 1,
            grows(old(self).nodes@, final(self).nodes@),
            forall|i: int|
                0 <= i < old(self).nodes@.len() && !(old(self).nodes@[i] is Dir)
                    ==> #[trigger] final(self).nodes@[i] == old(self).nodes@[i],
            final(self).errors@.len() >= old(self).errors@.len(),
            final(self).errors@.subrange(0, old(self).errors@.len() as int) == old(self).errors@,
            !final(self).at_limit() ==> final(self).errors@ == old(self).errors@,
            final(self).root_failed == old(self).root_failed,
            final(self).metadata == old(self).metadata,
    {
        let ghost orig = self.nodes@;
        let ghost errs = self.errors@;
        while self.frames.len() > 0
            invariant
                orig == old(self).nodes@,
                errs == old(self).errors@,
                self.nodes@ == orig,
                self.nodes@.len() + 2 < u64::MAX ==> next_call(self.stack(), orig.len() as int)
                    == next_call(old(self).stack(), orig.len() as int),
                self.nodes@.len() + 2 < u64::MAX ==> stack_after(self.stack()) == stack_after(
                    old(self).stack(),
                ),
                self.nodes@.len() + 2 < u64::MAX ==> next_entry(self.stack()) == next_entry(
                    old(self).stack(),
                ),
                arena_wf(self.nodes@),
                frames_ok(self.nodes@, self.frames@),
                listed_ok(self.nodes@, self.frames@, self.listed@),
                self.listed == old(self).listed,
                emptied_ok(self.nodes@, self.frames@, self.emptied@),
                self.emptied == old(self).emptied,
                groups_ok(self.nodes@, self.filled@),
                self.filled == old(self).filled,
                self.pending is None,
                grows(orig, self.nodes@),
                forall|i: int|
                    0 <= i < orig.len() && !(orig[i] is Dir) ==> #[trigger] self.nodes@[i]
                        == orig[i],
                self.errors@.len() >= errs.len(),
                self.errors@.subrange(0, errs.len() as int) == errs,
                self.nodes@.len() + 2 < u64::MAX ==> self.errors@ == errs,
                self.root_failed == old(self).root_failed,
                self.metadata == old(self).metadata,
            decreases self.frames@.len(),
        {
            let ghost fs = self.frames@;
            let ghost st = self.stack();
            let mut f = match self.frames.pop() {
                Some(f) => f,
                None => return ,
            };
            proof {
                assert(self.stack() =~= st.drop_last());
                assert(st.last() == frame_view(f));
                assert(names_view(f.names@).len() == f.names@.len());
                assert forall|d: u64| #[trigger] self.emptied@.contains(d) implies 1 <= d <= self.nodes@.len()
                    && self.nodes@[d - 1].children_of().len() == 0 && off_frames(self.frames@, d) && d != f.ino by {
                    assert(off_frames(fs, d));
                    assert forall|k: int| 0 <= k < self.frames@.len() implies #[trigger] self.frames@[k].ino != d by {
                        assert(fs[k] == self.frames@[k]);
                    }
                    assert(fs[fs.len() - 1].ino != d);
                }
                assert(frames_ok(self.nodes@, self.frames@)) by {
                    assert forall|k: int| 0 <= k < self.frames@.len() implies frame_ok(
                        self.nodes@,
                        #[trigger] self.frames@[k],
                    ) by {
                        assert(self.frames@[k] == fs[k]);
                    }
                    assert forall|k1: int, k2: int|
                        0 <= k1 < k2 < self.frames@.len() implies #[trigger] self.frames@[k1].ino
                        < #[trigger] self.frames@[k2].ino by {
                        assert(self.frames@[k1] == fs[k1]);
                        assert(self.frames@[k2] == fs[k2]);
                    }
                }
                assert(frame_ok(self.nodes@, fs[fs.len() - 1]));
                assert forall|d: u64| #[trigger] self.listed@.dom().contains(d) && off_frames(self.frames@, d)
                    && d != f.ino implies off_frames(fs, d) by {
                    assert forall|k: int| 0 <= k < fs.len() implies #[trigger] fs[k].ino != d by {
                        if k < fs.len() - 1 {
                            assert(fs[k] == self.frames@[k]);
                        }
                    }
                }
                assert forall|k: int| 0 <= k < self.frames@.len() implies self.listed@.dom().contains(
                    #[trigger] self.frames@[k].ino,
                ) && self.listed@[self.frames@[k].ino] == names_view(self.frames@[k].names@) by {
                    assert(fs[k] == self.frames@[k]);
                }
                assert forall|k: int| 0 <= k < self.frames@.len() implies #[trigger] self.frames@[k].ino
                    != f.ino by {
                    assert(fs[k] == self.frames@[k]);
                }
                if self.nodes@.len() + 2 < u64::MAX && f.next >= f.names@.len() {
                    assert(listing_done(self.nodes@, f.ino, self.listed@[f.ino])) by {
                        assert(names_view(f.names@).len() == f.names@.len());
                        assert forall|j: int| 0 <= j < f.names@.len() implies #[trigger] made_from(
                            self.nodes@,
                            self.nodes@[f.ino - 1],
                            j,
                            self.listed@[f.ino][j],
                        ) by {
                            assert(made_from(self.nodes@, self.nodes@[f.ino - 1], j, f.names@[j]@));
                        }
                    }
                }
            }
            if f.next < f.names.len() {
                let raw = &f.names[f.next];
                let path = join(&f.path, raw);
                if self.nodes.len() as u64 >= u64::MAX - 2 {
                    self.errors.push(PartialBuildError { path });
                    proof {
                        assert(self.errors@.subrange(0, errs.len() as int) =~= errs);
                    }
                } else {
                    let ino = self.nodes.len() as u64 + 1;
                    let name = strip_name(raw);
                    let dir = is_dir_name(raw);
                    let node = if dir {
                        FsTree::Dir(FsDir { ino, parent: f.ino, name, children: Vec::new() })
                    } else {
                        FsTree::Secrets(
                            FsSecrets { ino, parent: f.ino, name, children: Vec::new() },
                        )
                    };
                    let ghost a = self.nodes@;
                    proof {
                        assert(below_frames(self.frames@, f.ino)) by {
                            assert forall|k: int| 0 <= k < self.frames@.len() implies #[trigger] self.frames@[k].ino
                                < f.ino by {
                                assert(fs[k] == self.frames@[k]);
                            }
                        }
                    }
                    proof {
                        assert(listed_ok(a, self.frames@.push(f), self.listed@)) by {
                            assert forall|k: int| 0 <= k < self.frames@.push(f).len() implies self.listed@.dom().contains(
                                #[trigger] self.frames@.push(f)[k].ino,
                            ) && self.listed@[self.frames@.push(f)[k].ino] == names_view(self.frames@.push(f)[k].names@) by {
                                assert(fs[k] == self.frames@.push(f)[k]);
                            }
                            assert(self.frames@.push(f) =~= fs);
                        }
                    }
                    let ghost before_frames = self.frames@.push(f);
                    attach(&mut self.nodes, f.ino, node);
                    proof {
                        lemma_frames_kept(a, self.nodes@, self.frames@, f.ino);
                        lemma_listed_kept(a, self.nodes@, self.frames@.push(f), self.listed@, f.ino);
                        lemma_emptied_kept(a, self.nodes@, self.frames@, self.emptied@, f.ino);
                        assert(!self.filled@.dom().contains(f.ino)) by {
                            if self.filled@.dom().contains(f.ino) {
                                assert(a[f.ino - 1] is Secrets);
                            }
                        }
                        lemma_groups_kept(a, self.nodes@, self.filled@, f.ino);
                        let b = self.nodes@;
                        assert(b[f.ino - 1].children_of()[f.next as int] == ino);
                        assert forall|j: int| 0 <= j < f.next + 1 implies #[trigger] made_from(
                            b,
                            b[f.ino - 1],
                            j,
                            f.names@[j]@,
                        ) by {
                            if j < f.next {
                                assert(made_from(a, a[f.ino - 1], j, f.names@[j]@));
                                let c = a[f.ino - 1].children_of()[j];
                                assert(child_ok(a, f.ino - 1, c));
                                assert(same_shape(a[c - 1], b[c - 1]));
                            }
                        }
                    }
                    let step = if dir {
                        Step::List
                    } else {
                        Step::Metadata
                    };
                    let ghost fold = f;
                    f.next = f.next + 1;
                    let ghost fino = f.ino;
                    self.frames.push(f);
                    self.pending = Some(Pending { ino, path, step });
                    proof {
                        let b = self.nodes@;
                        assert(frame_ok(b, self.frames@.last()));
                        let old_frames = self.frames@.drop_last().push(fold);
                        assert(old_frames =~= before_frames);
                        assert(listed_ok(b, old_frames, self.listed@));
                        assert forall|k: int| 0 <= k < self.frames@.len() implies self.listed@.dom().contains(
                            #[trigger] self.frames@[k].ino,
                        ) && self.listed@[self.frames@[k].ino] == names_view(self.frames@[k].names@) by {
                            assert(old_frames[k].ino == self.frames@[k].ino);
                            assert(old_frames[k].names == self.frames@[k].names);
                        }
                        if b.len() + 2 < u64::MAX {
                            assert forall|d: u64|
                                #[trigger] self.listed@.dom().contains(d) && off_frames(self.frames@, d) implies listing_done(
                                b,
                                d,
                                self.listed@[d],
                            ) by {
                                assert forall|k: int| 0 <= k < old_frames.len() implies #[trigger] old_frames[k].ino != d by {
                                    assert(old_frames[k].ino == self.frames@[k].ino);
                                }
                            }
                        }
                        assert(listed_ok(b, self.frames@, self.listed@));
                        if self.listed@.dom().contains(ino) {
                            assert(ino <= a.len());
                        }
                        if self.emptied@.contains(ino) {
                            assert(ino <= a.len());
                        }
                        if self.filled@.dom().contains(ino) {
                            assert(ino <= a.len());
                        }
                        assert forall|d: u64| #[trigger] self.emptied@.contains(d) implies off_frames(
                            self.frames@,
                            d,
                        ) by {
                            assert forall|k: int| 0 <= k < self.frames@.len() implies #[trigger] self.frames@[k].ino
                                != d by {
                                assert(self.frames@[k].ino == before_frames[k].ino);
                                if k < self.frames@.len() - 1 {
                                    assert(before_frames[k] == fs[k]);
                                }
                            }
                        }
                        if b.len() + 2 < u64::MAX {
                            assert(st.last() == frame_view(fold));
                            assert(names_view(fold.names@)[fold.next as int] == fold.names@[fold.next as int]@);
                            assert(next_entry(st) == Some((fold.ino, fold.names@[fold.next as int]@)));
                            assert(a == orig);
                            assert(b[a.len() as int] == node);
                            let len = a.len() as int;
                            assert(b.len() == len + 1);
                            assert(b[len].parent_of() == fold.ino);
                            assert(b[len].name_of() == entry_name(fold.names@[fold.next as int]@));
                            assert(b[len] is Dir <==> ends_with_sep(fold.names@[fold.next as int]@));
                            assert(b[len].children_of().len() == 0);
                            assert(next_entry(old(self).stack()) == next_entry(st));
                        }
                        assert forall|k: int| 0 <= k < self.frames@.len() implies frame_ok(
                            b,
                            #[trigger] self.frames@[k],
                        ) by {
                            if k < self.frames@.len() - 1 {
                                assert(self.frames@[k] == fs[k]);
                            }
                        }
                        assert forall|k1: int, k2: int|
                            0 <= k1 < k2 < self.frames@.len() implies #[trigger] self.frames@[k1].ino
                            < #[trigger] self.frames@[k2].ino by {
                            assert(self.frames@[k1].ino == fs[k1].ino);
                            assert(self.frames@[k2].ino == fs[k2].ino);
                        }
                        assert forall|k: int| 0 <= k < self.frames@.len() implies #[trigger] self.frames@[k].ino
                            < ino by {
                            assert(self.frames@[k].ino == fs[k].ino);
                        }
                        assert forall|i: int| 0 <= i < orig.len() implies same_shape(
                            #[trigger] orig[i],
                            b[i],
                        ) by {
                            assert(same_shape(orig[i], a[i]));
                            assert(same_shape(a[i], b[i]));
                        }
                        assert forall|i: int| 0 <= i < orig.len() && !(orig[i] is Dir) implies #[trigger] b[i]
                            == orig[i] by {
                            assert(a[i] == orig[i]);
                            assert(i + 1 != fino);
                        }
                        if !self.at_limit() {
                            assert(self.awaiting() == next_call(old(self).stack(), orig.len() as int));
                            assert(self.stack() == stack_after(old(self).stack()));
                            assert(moved_on(*self, old(self).stack(), orig.len() as int));
                        }
                    }
                    return ;
                }
            }
        }
    }
}

impl VaultFsTree {
    /// The tree of a finished build, with the paths it could not fetch;
    /// fails when the root listing itself failed.
    pub fn new(builder: TreeBuilder) -> (r: Result<
        (VaultFsTree, Vec<PartialBuildError>),
        FatalStartupError,
    >)
        requires
            builder.wf(),
            builder.awaiting() is None,
        ensures
            r is Err <==> builder.fatal(),
            r matches Ok((t, errs)) ==> t@ == builder.arena() && arena_wf(t@) && errs@.map_values(
                |e: PartialBuildError| e.path@,
            ) == builder.error_paths(),
            r matches Err(e) ==> e.path@ == seq!['/'],
            r matches Ok((t, _)) ==> forall|g: u64|
                #[trigger] builder.groups().dom().contains(g) ==> group_holds(
                    t@,
                    g,
                    builder.groups()[g].0,
                    builder.groups()[g].1,
                ),
            r matches Ok((t, _)) ==> forall|d: u64|
                #[trigger] builder.emptied().contains(d) ==> 1 <= d <= t@.len() && t@[d
                    - 1].children_of().len() == 0,
            r matches Ok((t, _)) ==> (!builder.at_limit() ==> forall|d: u64|
                #[trigger] builder.listings().dom().contains(d) ==> listing_done(
                    t@,
                    d,
                    builder.listings()[d],
                )),
    {
        if builder.root_failed {
            proof {
                reveal_strlit("/");
            }
            Err(FatalStartupError { path: "/".to_owned() })
        } else {
            proof {
                assert forall|d: u64| #[trigger] builder.listed@.dom().contains(d) implies off_frames(
                    builder.frames@,
                    d,
                ) by {}
            }
            Ok((VaultFsTree::from_arena(builder.nodes), builder.errors))
        }
    }
}

} // verus!
