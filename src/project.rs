//! The project browser's tree: nodes for files and directories, listed in
//! display order.
use vstd::prelude::*;
use std::collections::HashMap;
use std::path::PathBuf;

verus! {

broadcast use vstd::std_specs::hash::group_hash_axioms;

#[verifier::external_type_specification]
#[verifier::external_body]
pub struct ExPathBuf(PathBuf);

#[verifier::external_type_specification]
#[verifier::external_body]
pub struct ExIoError(std::io::Error);

/// Relies on `PathBuf::clone`, which nodes and projects use when they are
/// copied; nothing is claimed of the copy.
pub assume_specification[ <PathBuf as Clone>::clone ](p: &PathBuf) -> PathBuf;

/// Relies on `Path::file_name`: the final component of the path, as text,
/// if it has one that is valid Unicode. What counts as a component depends
/// on the platform, so nothing more is stated.
#[verifier::external_body]
pub(crate) fn file_name_of(p: &PathBuf) -> (r: Option<String>) {
    p.file_name().and_then(|n| n.to_str()).map(|s| s.to_string())
}

/// The error of a project operation.
pub enum Error {
    Io(std::io::Error),
}

impl From<std::io::Error> for Error {
    fn from(value: std::io::Error) -> (r: Error)
        ensures
            r == Error::Io(value),
    {
        Error::Io(value)
    }
}

impl vstd::std_specs::convert::FromSpecImpl<std::io::Error> for Error {
    open spec fn obeys_from_spec() -> bool {
        true
    }

    open spec fn from_spec(v: std::io::Error) -> Error {
        Error::Io(v)
    }
}

/// Relies on the `Display` of `std::io::Error`: the error's own description.
#[verifier::external_body]
fn io_error_text(e: &std::io::Error) -> (r: String) {
    e.to_string()
}

/// What every message of an input or output error starts with.
pub open spec fn io_error_prefix() -> Seq<char> {
    "io error: "@
}

impl Error {
    /// A description of the error: `io error: ` followed by the description
    /// of the underlying input or output error.
    pub fn message(&self) -> (r: String)
        ensures
            r@.len() >= io_error_prefix().len(),
            r@.take(io_error_prefix().len() as int) == io_error_prefix(),
    {
        match self {
            Error::Io(e) => {
                let detail = io_error_text(e);
                let mut r = String::from_str("io error: ");
                r.append(detail.as_str());
                proof {
                    assert(r@.take(io_error_prefix().len() as int) =~= io_error_prefix());
                }
                r
            },
        }
    }
}

/// An open project: a directory and the name shown for it.
#[derive(Clone)]
pub struct Project {
    pub name: String,
    pub path: PathBuf,
}

impl Project {
    /// The project at `path`, named after its final component (empty when
    /// the path has none).
    pub fn new(path: PathBuf) -> (r: Project)
        ensures
            r.path == path,
    {
        let name = match file_name_of(&path) {
            Some(n) => n,
            None => String::new(),
        };
        Project { name, path }
    }
}

/// Whether a node is a file or a directory, and if a directory whether it is
/// expanded.
#[derive(Clone, Copy, Debug, PartialEq, Eq, Structural)]
pub enum NodeKind {
    File,
    Directory { open: bool },
}

/// The kind after opening or closing: directories flip, files stay.
pub open spec fn toggled(k: NodeKind) -> NodeKind {
    match k {
        NodeKind::Directory { open } => NodeKind::Directory { open: !open },
        NodeKind::File => NodeKind::File,
    }
}

/// One entry of the tree.
#[derive(Clone)]
pub struct Node {
    pub id: usize,
    pub name: String,
    pub indent: usize,
    pub path: PathBuf,
    pub kind: NodeKind,
}

impl Node {
    /// A closed directory node or a file node for `path`, named after its
    /// final component.
    pub fn new(path: PathBuf, id: usize, indent: usize, is_dir: bool) -> (r: Node)
        ensures
            r.id == id,
            r.indent == indent,
            r.path == path,
            r.kind == if is_dir {
                NodeKind::Directory { open: false }
            } else {
                NodeKind::File
            },
    {
        let name = match file_name_of(&path) {
            Some(n) => n,
            None => String::new(),
        };
        let kind = if is_dir {
            NodeKind::Directory { open: false }
        } else {
            NodeKind::File
        };
        Node { id, name, indent, path, kind }
    }
}

/// Relies on `HashMap::get_mut`: a mutable reference to the value of `k`,
/// if there is one; what is written through it becomes the value of `k`.
#[verifier::external_body]
fn map_get_mut(m: &mut HashMap<usize, Node>, k: usize) -> (r: Option<&mut Node>)
    ensures
        match r {
            Some(v) => {
                &&& old(m)@.contains_key(k)
                &&& *v == old(m)@[k]
                &&& final(m)@ == old(m)@.insert(k, *final(v))
            },
            None => !old(m)@.contains_key(k) && final(m)@ == old(m)@,
        },
{
    m.get_mut(&k)
}

/// `after` is `o` without the `k` nodes that follow position `pos`, which
/// are all indented deeper than `indent`, while the node after them (if any)
/// is not; `after_items` is `items` without those nodes, the others keeping
/// their contents.
pub open spec fn collapsed(
    o: Seq<usize>,
    items: Map<usize, Node>,
    pos: int,
    indent: usize,
    k: int,
    after: Seq<usize>,
    after_items: Map<usize, Node>,
) -> bool {
    &&& 0 <= k && pos + 1 + k <= o.len()
    &&& after == o.take(pos + 1) + o.skip(pos + 1 + k)
    &&& forall|id: usize| #[trigger]
        after_items.contains_key(id) <==> (items.contains_key(id) && !o.subrange(
            pos + 1,
            pos + 1 + k,
        ).contains(id))
    &&& forall|id: usize| #[trigger]
        after_items.contains_key(id) ==> after_items[id] == items[id]
    &&& forall|j: int| pos + 1 <= j < pos + 1 + k ==> items[#[trigger] o[j]].indent > indent
    &&& (pos + 1 + k == o.len() || items[o[pos + 1 + k]].indent <= indent)
}

/// The indices `i` of `k` with `k[i] == b`, in increasing order.
pub open spec fn positions(k: Seq<bool>, b: bool) -> Seq<usize>
    decreases k.len(),
{
    if k.len() == 0 {
        Seq::empty()
    } else if k.last() == b {
        positions(k.drop_last(), b).push((k.len() - 1) as usize)
    } else {
        positions(k.drop_last(), b)
    }
}

/// The order in which directory entries are listed: first the directories,
/// then the files, each group keeping the order it has in `is_dir`.
pub fn dirs_first(is_dir: &Vec<bool>) -> (r: Vec<usize>)
    ensures
        r@ == positions(is_dir@, true) + positions(is_dir@, false),
{
    let mut dirs: Vec<usize> = Vec::new();
    let mut files: Vec<usize> = Vec::new();
    let mut i: usize = 0;
    proof {
        assert(is_dir@.take(0) =~= Seq::<bool>::empty());
    }
    while i < is_dir.len()
        invariant
            i <= is_dir.len(),
            dirs@ == positions(is_dir@.take(i as int), true),
            files@ == positions(is_dir@.take(i as int), false),
        decreases is_dir.len() - i,
    {
        proof {
            let t = is_dir@.take(i + 1);
            assert(t.drop_last() =~= is_dir@.take(i as int));
            assert(t.last() == is_dir@[i as int]);
        }
        if is_dir[i] {
            dirs.push(i);
        } else {
            files.push(i);
        }
        i = i + 1;
    }
    proof {
        assert(is_dir@.take(i as int) =~= is_dir@);
    }
    let mut r = dirs;
    let ghost d = r@;
    let mut j: usize = 0;
    while j < files.len()
        invariant
            j <= files.len(),
            r@ == d + files@.take(j as int),
        decreases files.len() - j,
    {
        r.push(files[j]);
        j = j + 1;
        proof {
            assert(files@.take(j as int) =~= files@.take(j - 1).push(files@[j - 1]));
        }
    }
    proof {
        assert(files@.take(j as int) =~= files@);
    }
    r
}

/// The nodes of the tree in display order, each stored under its id.
pub struct ProjectTree {
    order: Vec<usize>,
    items: HashMap<usize, Node>,
    next_id: usize,
}

impl ProjectTree {
    /// The ids in display order.
    pub closed spec fn order_view(&self) -> Seq<usize> {
        self.order@
    }

    /// The node stored under each id.
    pub closed spec fn items_view(&self) -> Map<usize, Node> {
        self.items@
    }

    /// The id the next inserted node gets.
    pub closed spec fn next_id_view(&self) -> nat {
        self.next_id as nat
    }

    /// Every listed id is stored, once, under an id below the next one, and
    /// nothing else is stored.
    pub open spec fn wf(&self) -> bool {
        &&& forall|i: int, j: int|
            0 <= i < j < self.order_view().len() ==> self.order_view()[i]
                != self.order_view()[j]
        &&& forall|i: int|
            0 <= i < self.order_view().len() ==> self.items_view().contains_key(
                #[trigger] self.order_view()[i],
            ) && self.order_view()[i] < self.next_id_view()
        &&& forall|k: usize| #[trigger]
            self.items_view().contains_key(k) ==> self.order_view().contains(k)
        &&& forall|k: usize| #[trigger]
            self.items_view().contains_key(k) ==> self.items_view()[k].id == k
    }

    /// The nodes in display order.
    pub open spec fn nodes(&self) -> Seq<Node> {
        self.order_view().map_values(|id: usize| self.items_view()[id])
    }

    /// The id the next inserted node gets.
    pub fn next_id(&self) -> (r: usize)
        ensures
            r == self.next_id_view(),
    {
        self.next_id
    }

    pub fn new() -> (r: ProjectTree)
        ensures
            r.wf(),
            r.order_view().len() == 0,
            r.next_id_view() == 0,
    {
        let r = ProjectTree { order: Vec::new(), items: HashMap::new(), next_id: 0 };
        assert(r.items_view() =~= Map::<usize, Node>::empty());
        r
    }

    /// Removes every node; ids start again from zero.
    pub fn clear(&mut self)
        ensures
            final(self).wf(),
            final(self).order_view().len() == 0,
            final(self).next_id_view() == 0,
    {
        self.order.clear();
        self.items.clear();
        self.next_id = 0;
        assert(self.items_view() =~= Map::<usize, Node>::empty());
    }

    /// Inserts a node for `path` at display position `pos` (the end if `pos`
    /// is past it), under a new id.
    pub fn insert(&mut self, path: PathBuf, is_dir: bool, pos: usize, indent: usize)
        requires
            old(self).wf(),
            old(self).next_id_view() < usize::MAX,
        ensures
            final(self).wf(),
            ({
                let p = if pos <= old(self).order_view().len() {
                    pos as int
                } else {
                    old(self).order_view().len() as int
                };
                let id = old(self).next_id_view() as usize;
                &&& final(self).order_view() == old(self).order_view().insert(p, id)
                &&& final(self).next_id_view() == old(self).next_id_view() + 1
                &&& final(self).items_view().dom() == old(self).items_view().dom().insert(id)
                &&& forall|k: usize|
                    k != id && #[trigger] old(self).items_view().contains_key(k)
                        ==> final(self).items_view()[k] == old(self).items_view()[k]
                &&& final(self).items_view()[id].id == id
                &&& final(self).items_view()[id].indent == indent
                &&& final(self).items_view()[id].path == path
                &&& final(self).items_view()[id].kind == if is_dir {
                    NodeKind::Directory { open: false }
                } else {
                    NodeKind::File
                }
            }),
    {
        let ghost old_order = self.order@;
        let ghost old_items = self.items@;
        let p = if pos <= self.order.len() {
            pos
        } else {
            self.order.len()
        };
        let id = self.next_id;
        self.order.insert(p, id);
        let node = Node::new(path, id, indent, is_dir);
        self.items.insert(id, node);
        self.next_id = id + 1;
        proof {
            assert(!old_items.contains_key(id)) by {
                if old_items.contains_key(id) {
                    let i = choose|i: int| 0 <= i < old_order.len() && old_order[i] == id;
                    assert(old_order[i] < id);
                }
            }
            assert forall|k: usize| #[trigger]
                self.items_view().contains_key(k) implies self.order_view().contains(k) by {
                if k != id {
                    let i = choose|i: int| 0 <= i < old_order.len() && old_order[i] == k;
                    if i < p {
                        assert(self.order@[i] == k);
                    } else {
                        assert(self.order@[i + 1] == k);
                    }
                } else {
                    assert(self.order@[p as int] == id);
                }
            }
            assert(self.items_view().dom() =~= old_items.dom().insert(id));
        }
    }

    /// Removes the node with id `id`, if there is one.
    pub fn remove(&mut self, id: usize)
        requires
            old(self).wf(),
        ensures
            final(self).wf(),
            final(self).items_view() == old(self).items_view().remove(id),
            forall|p: int|
                0 <= p < old(self).order_view().len() && old(self).order_view()[p] == id
                    ==> final(self).order_view() == old(self).order_view().remove(p),
            !old(self).order_view().contains(id) ==> final(self).order_view() == old(
                self,
            ).order_view(),
            final(self).next_id_view() == old(self).next_id_view(),
    {
        let ghost old_order = self.order@;
        let ghost old_items = self.items@;
        self.items.remove(&id);
        match self.position(id) {
            Some(p) => {
                self.order.remove(p);
                proof {
                    assert forall|i: int, j: int|
                        0 <= i < j < self.order@.len() implies self.order@[i] != self.order@[j] by {
                        let oi = if i < p { i } else { i + 1 };
                        let oj = if j < p { j } else { j + 1 };
                        assert(self.order@[i] == old_order[oi]);
                        assert(self.order@[j] == old_order[oj]);
                    }
                    assert forall|i: int| 0 <= i < self.order@.len() implies self.items_view().contains_key(
                        #[trigger] self.order_view()[i],
                    ) && self.order_view()[i] < self.next_id_view() by {
                        let oi = if i < p { i } else { i + 1 };
                        assert(self.order@[i] == old_order[oi]);
                        assert(old_order[oi] != old_order[p as int]);
                    }
                    assert forall|k: usize| #[trigger]
                        self.items_view().contains_key(k) implies self.order_view().contains(k) by {
                        let i = choose|i: int| 0 <= i < old_order.len() && old_order[i] == k;
                        assert(i != p);
                        if i < p {
                            assert(self.order@[i] == k);
                        } else {
                            assert(self.order@[i - 1] == k);
                        }
                    }
                    assert forall|q: int|
                        0 <= q < old_order.len() && old_order[q] == id implies self.order@
                        == old_order.remove(q) by {
                        assert(q == p);
                    }
                }
            },
            None => {
                proof {
                    assert forall|k: usize| #[trigger]
                        self.items_view().contains_key(k) implies self.order_view().contains(k) by {
                        assert(old_items.contains_key(k));
                    }
                    assert(!old_items.contains_key(id));
                    assert(self.items@ =~= old_items.remove(id));
                }
            },
        }
    }

    /// The display position of the node with id `id`, if it is listed.
    pub fn position(&self, id: usize) -> (r: Option<usize>)
        ensures
            match r {
                Some(p) => p < self.order_view().len() && self.order_view()[p as int] == id
                    && forall|i: int| 0 <= i < p ==> self.order_view()[i] != id,
                None => !self.order_view().contains(id),
            },
    {
        let mut i: usize = 0;
        while i < self.order.len()
            invariant
                i <= self.order@.len(),
                forall|j: int| 0 <= j < i ==> self.order@[j] != id,
            decreases self.order.len() - i,
        {
            if self.order[i] == id {
                return Some(i);
            }
            i = i + 1;
        }
        None
    }

    /// The node at display position `pos`, if there is one.
    pub fn node_at(&self, pos: usize) -> (r: Option<&Node>)
        requires
            self.wf(),
        ensures
            match r {
                Some(n) => pos < self.order_view().len() && *n == self.items_view()[self.order_view()[pos as int]],
                None => pos >= self.order_view().len(),
            },
    {
        if pos < self.order.len() {
            let id = self.order[pos];
            assert(self.items_view().contains_key(self.order_view()[pos as int]));
            match self.items.get(&id) {
                Some(n) => Some(n),
                None => None,
            }
        } else {
            None
        }
    }

    /// The node with id `id`, for changing it in place.
    pub fn node_mut(&mut self, id: usize) -> (r: Option<&mut Node>)
        requires
            old(self).wf(),
        ensures
            match r {
                Some(n) => {
                    &&& old(self).items_view().contains_key(id)
                    &&& *n == old(self).items_view()[id]
                    &&& final(self).items_view() == old(self).items_view().insert(id, *final(n))
                },
                None => !old(self).items_view().contains_key(id) && final(self).items_view()
                    == old(self).items_view(),
            },
            final(self).order_view() == old(self).order_view(),
            final(self).next_id_view() == old(self).next_id_view(),
    {
        map_get_mut(&mut self.items, id)
    }

    /// Removes the nodes listed right after display position `pos` that are
    /// indented deeper than `indent`: the contents shown under a directory
    /// that is being closed.
    pub fn collapse_after(&mut self, pos: usize, indent: usize)
        requires
            old(self).wf(),
        ensures
            final(self).wf(),
            final(self).next_id_view() == old(self).next_id_view(),
            pos >= old(self).order_view().len() ==> final(self).order_view() == old(
                self,
            ).order_view() && final(self).items_view() == old(self).items_view(),
            pos < old(self).order_view().len() ==> exists|k: int|
                #[trigger] collapsed(
                    old(self).order_view(),
                    old(self).items_view(),
                    pos as int,
                    indent,
                    k,
                    final(self).order_view(),
                    final(self).items_view(),
                ),
    {
        let ghost o = self.order@;
        let ghost items = self.items@;
        if pos >= self.order.len() {
            return;
        }
        let mut r: usize = 0;
        proof {
            assert(o.len() == self.order.len());
            assert(o =~= o.take(pos + 1) + o.skip(pos + 1 + 0));
            assert(o.subrange(pos + 1, pos + 1 + 0) =~= Seq::<usize>::empty());
        }
        loop
            invariant
                self.wf(),
                pos < o.len(),
                o.len() <= usize::MAX,
                pos + 1 + r <= o.len(),
                self.next_id_view() == old(self).next_id_view(),
                o == old(self).order_view(),
                items == old(self).items_view(),
                self.order_view() == o.take(pos + 1) + o.skip(pos + 1 + r),
                forall|j: int| pos + 1 <= j < pos + 1 + r ==> items[#[trigger] o[j]].indent > indent,
                forall|k: usize| #[trigger]
                    self.items_view().contains_key(k) ==> self.items_view()[k] == items[k],
                forall|id: usize| #[trigger]
                    self.items_view().contains_key(id) <==> (items.contains_key(id) && !o.subrange(
                        pos + 1,
                        pos + 1 + r,
                    ).contains(id)),
            ensures
                self.wf(),
                self.next_id_view() == old(self).next_id_view(),
                pos + 1 + r <= o.len(),
                self.order_view() == o.take(pos + 1) + o.skip(pos + 1 + r),
                forall|j: int| pos + 1 <= j < pos + 1 + r ==> items[#[trigger] o[j]].indent > indent,
                pos + 1 + r == o.len() || items[o[pos + 1 + r]].indent <= indent,
                forall|k: usize| #[trigger]
                    self.items_view().contains_key(k) ==> self.items_view()[k] == items[k],
                forall|id: usize| #[trigger]
                    self.items_view().contains_key(id) <==> (items.contains_key(id) && !o.subrange(
                        pos + 1,
                        pos + 1 + r,
                    ).contains(id)),
            decreases o.len() - r,
        {
            let next = pos + 1;
            if next >= self.order.len() {
                proof {
                    assert(self.order_view().len() == pos + 1 + (o.len() - pos - 1 - r));
                }
                break;
            }
            let id = self.order[next];
            proof {
                assert(id == o[pos + 1 + r]);
                assert(self.items_view().contains_key(self.order_view()[next as int]));
            }
            let deeper = match self.items.get(&id) {
                Some(n) => n.indent > indent,
                None => false,
            };
            if !deeper {
                break;
            }
            let ghost before = self.order_view();
            let ghost before_items = self.items_view();
            self.remove(id);
            proof {
                let gone = o.subrange(pos + 1, pos + 1 + r);
                assert(o.subrange(pos + 1, pos + 1 + r + 1) =~= gone.push(id));
                assert forall|x: usize| #[trigger]
                    self.items_view().contains_key(x) <==> (items.contains_key(x) && !o.subrange(
                        pos + 1,
                        pos + 1 + r + 1,
                    ).contains(x)) by {
                    assert(gone.push(id).contains(x) <==> (gone.contains(x) || x == id)) by {
                        if gone.push(id).contains(x) {
                            let i = choose|i: int| 0 <= i < gone.len() + 1 && gone.push(id)[i] == x;
                            if i < gone.len() {
                                assert(gone[i] == x);
                            }
                        }
                        if gone.contains(x) {
                            let i = choose|i: int| 0 <= i < gone.len() && gone[i] == x;
                            assert(gone.push(id)[i] == x);
                        }
                        if x == id {
                            assert(gone.push(id)[gone.len() as int] == x);
                        }
                    }
                }
                assert(before[next as int] == id);
                assert(self.order_view() == before.remove(next as int));
                assert(self.order_view() =~= o.take(pos + 1) + o.skip(pos + 1 + r + 1));
            }
            r = r + 1;
        }
        proof {
            assert(collapsed(
                o,
                items,
                pos as int,
                indent,
                r as int,
                self.order_view(),
                self.items_view(),
            ));
        }
    }

    /// Opens the directory node `id` if it is closed, closes it if it is
    /// open; a file node stays as it is. Returns the node's new kind, or
    /// `None` if there is no such node.
    pub fn toggle_directory(&mut self, id: usize) -> (r: Option<NodeKind>)
        requires
            old(self).wf(),
        ensures
            final(self).wf(),
            final(self).order_view() == old(self).order_view(),
            final(self).next_id_view() == old(self).next_id_view(),
            match r {
                Some(k) => {
                    &&& old(self).items_view().contains_key(id)
                    &&& k == toggled(old(self).items_view()[id].kind)
                    &&& final(self).items_view() == old(self).items_view().insert(
                        id,
                        Node { kind: k, ..old(self).items_view()[id] },
                    )
                },
                None => !old(self).items_view().contains_key(id) && final(self).items_view()
                    == old(self).items_view(),
            },
    {
        let ghost old_items = self.items@;
        let r = match self.items.remove(&id) {
            Some(n) => {
                let k = match n.kind {
                    NodeKind::Directory { open } => NodeKind::Directory { open: !open },
                    NodeKind::File => NodeKind::File,
                };
                let node = Node { kind: k, ..n };
                self.items.insert(id, node);
                proof {
                    assert(self.items@ =~= old_items.insert(id, Node { kind: k, ..old_items[id] }));
                }
                Some(k)
            },
            None => {
                proof {
                    assert(self.items@ =~= old_items);
                }
                None
            },
        };
        proof {
            assert forall|k: usize| #[trigger]
                self.items_view().contains_key(k) implies self.order_view().contains(k) by {
                assert(old_items.contains_key(k));
            }
            assert forall|k: usize| #[trigger]
                self.items_view().contains_key(k) implies self.items_view()[k].id == k by {
                assert(old_items.contains_key(k));
            }
            assert forall|i: int|
                0 <= i < self.order_view().len() implies self.items_view().contains_key(
                    #[trigger] self.order_view()[i],
                ) && self.order_view()[i] < self.next_id_view() by {
                assert(old(self).order_view()[i] == self.order_view()[i]);
                assert(old_items.contains_key(old(self).order_view()[i]));
            }
            assert forall|i: int, j: int|
                0 <= i < j < self.order_view().len() implies self.order_view()[i]
                != self.order_view()[j] by {
                assert(old(self).order_view()[i] != old(self).order_view()[j]);
            }
        }
        r
    }
}

} // verus!
