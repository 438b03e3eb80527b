use vstd::prelude::*;

use crate::keyed::{keyed_map, lemma_keyed_dom, lemma_keyed_get, lemma_keyed_update, lemma_unique_drop_last, unique_keys};
use crate::ring::string_views;
use crate::docinfo::{analyze_code, code_functions, count_words, word_count};
use crate::routing_index::lines_of;
use crate::vpath::{has_root, path_file_name, path_parent, path_parts, split_parts, split_path};

verus! {

/// What a node of the virtual filesystem stands for.
#[derive(Clone, Debug)]
pub enum VfsNodeType {
    VirtualFolder,
    BlobReference { blob_key: String, size: u64, mime_type: String },
    TextDocument { document_id: String, chunk_count: usize, word_count: usize, language: String },
    JsonDocument { document_id: String, fingerprint: String, schema_version: String, size_bytes: usize },
    CodeDocument { blob_key: String, language: String, lines: usize, functions: Vec<String>, imports: Vec<String> },
}

/// A node of the virtual filesystem. Times are in nanoseconds since the
/// Unix epoch; `children` maps child names to node ids.
#[derive(Clone, Debug)]
pub struct VfsNode {
    pub id: String,
    pub name: String,
    pub node_type: VfsNodeType,
    pub parent_id: Option<String>,
    pub created_at: i64,
    pub modified_at: i64,
    pub metadata: Vec<(String, String)>,
    pub children: Vec<(String, String)>,
    pub target_id: Option<String>,
}

/// The abstract content of a node type.
pub enum KindView {
    Folder,
    Blob { blob_key: Seq<char>, size: u64, mime_type: Seq<char> },
    Text { document_id: Seq<char>, chunk_count: usize, word_count: usize, language: Seq<char> },
    Json { document_id: Seq<char>, fingerprint: Seq<char>, schema_version: Seq<char>, size_bytes: usize },
    Code { blob_key: Seq<char>, language: Seq<char>, lines: usize, functions: Seq<Seq<char>>, imports: Seq<Seq<char>> },
}

/// The abstract content of a node.
pub struct NodeView {
    pub name: Seq<char>,
    pub kind: KindView,
    pub parent: Option<Seq<char>>,
    pub created_at: i64,
    pub modified_at: i64,
    pub metadata: Map<Seq<char>, Seq<char>>,
    pub children: Map<Seq<char>, Seq<char>>,
    pub target: Option<Seq<char>>,
}

/// Why a filesystem operation failed.
#[derive(Clone, Debug)]
pub enum VfsError {
    NotAbsolute,
    TrailingSlash,
    NodeNotFound(String),
    AlreadyExists,
    InvalidPath,
    ParentDoesNotExist(String),
    InsideFile,
    InvalidName,
    InvalidPathStructure,
    MissingFilename,
    SegmentIsFile(String),
    CannotRemoveRoot,
    PathNotFound,
    DirectoryNotEmpty,
    NotFound,
    ParentNotFound,
}

/// The abstract content of an error.
pub enum VfsFail {
    NotAbsolute,
    TrailingSlash,
    NodeNotFound(Seq<char>),
    AlreadyExists,
    InvalidPath,
    ParentDoesNotExist(Seq<char>),
    InsideFile,
    InvalidName,
    InvalidPathStructure,
    MissingFilename,
    SegmentIsFile(Seq<char>),
    CannotRemoveRoot,
    PathNotFound,
    DirectoryNotEmpty,
    NotFound,
    ParentNotFound,
}

pub open spec fn fail_view(e: VfsError) -> VfsFail {
    match e {
        VfsError::NotAbsolute => VfsFail::NotAbsolute,
        VfsError::TrailingSlash => VfsFail::TrailingSlash,
        VfsError::NodeNotFound(s) => VfsFail::NodeNotFound(s@),
        VfsError::AlreadyExists => VfsFail::AlreadyExists,
        VfsError::InvalidPath => VfsFail::InvalidPath,
        VfsError::ParentDoesNotExist(s) => VfsFail::ParentDoesNotExist(s@),
        VfsError::InsideFile => VfsFail::InsideFile,
        VfsError::InvalidName => VfsFail::InvalidName,
        VfsError::InvalidPathStructure => VfsFail::InvalidPathStructure,
        VfsError::MissingFilename => VfsFail::MissingFilename,
        VfsError::SegmentIsFile(s) => VfsFail::SegmentIsFile(s@),
        VfsError::CannotRemoveRoot => VfsFail::CannotRemoveRoot,
        VfsError::PathNotFound => VfsFail::PathNotFound,
        VfsError::DirectoryNotEmpty => VfsFail::DirectoryNotEmpty,
        VfsError::NotFound => VfsFail::NotFound,
        VfsError::ParentNotFound => VfsFail::ParentNotFound,
    }
}

pub open spec fn opt_view(o: Option<String>) -> Option<Seq<char>> {
    match o {
        Some(s) => Some(s@),
        None => None,
    }
}

/// String pairs as pairs of their characters.
pub open spec fn str_pairs(v: Seq<(String, String)>) -> Seq<(Seq<char>, Seq<char>)> {
    v.map_values(|p: (String, String)| (p.0@, p.1@))
}

pub open spec fn kind_view(t: VfsNodeType) -> KindView {
    match t {
        VfsNodeType::VirtualFolder => KindView::Folder,
        VfsNodeType::BlobReference { blob_key, size, mime_type } => KindView::Blob { blob_key: blob_key@, size, mime_type: mime_type@ },
        VfsNodeType::TextDocument { document_id, chunk_count, word_count, language } =>
            KindView::Text { document_id: document_id@, chunk_count, word_count, language: language@ },
        VfsNodeType::JsonDocument { document_id, fingerprint, schema_version, size_bytes } =>
            KindView::Json { document_id: document_id@, fingerprint: fingerprint@, schema_version: schema_version@, size_bytes },
        VfsNodeType::CodeDocument { blob_key, language, lines, functions, imports } => KindView::Code {
            blob_key: blob_key@,
            language: language@,
            lines,
            functions: string_views(functions@),
            imports: string_views(imports@),
        },
    }
}

pub open spec fn node_view(n: VfsNode) -> NodeView {
    NodeView {
        name: n.name@,
        kind: kind_view(n.node_type),
        parent: opt_view(n.parent_id),
        created_at: n.created_at,
        modified_at: n.modified_at,
        metadata: keyed_map(str_pairs(n.metadata@)),
        children: keyed_map(str_pairs(n.children@)),
        target: opt_view(n.target_id),
    }
}

/// The nodes as (id, node) pairs.
pub open spec fn node_pairs(ns: Seq<VfsNode>) -> Seq<(Seq<char>, NodeView)> {
    ns.map_values(|n: VfsNode| (n.id@, node_view(n)))
}

/// The id of the root folder.
pub open spec fn root_id() -> Seq<char> {
    seq!['r', 'o', 'o', 't']
}

/// A new folder named `name` under `parent`, created at `now`.
pub open spec fn folder_view(name: Seq<char>, parent: Option<Seq<char>>, now: i64) -> NodeView {
    NodeView {
        name,
        kind: KindView::Folder,
        parent,
        created_at: now,
        modified_at: now,
        metadata: Map::empty(),
        children: Map::empty(),
        target: None,
    }
}

/// The filesystem after `child` is entered under `name` in the children of
/// node `parent`, whose modification time becomes `now`; an error when
/// there is no such node.
pub open spec fn add_child_spec(
    m: Map<Seq<char>, NodeView>,
    parent: Seq<char>,
    name: Seq<char>,
    child: Seq<char>,
    now: i64,
) -> Result<Map<Seq<char>, NodeView>, VfsFail> {
    if !m.contains_key(parent) {
        Err(VfsFail::NodeNotFound(parent))
    } else {
        let p = m[parent];
        Ok(m.insert(parent, NodeView {
            name: p.name,
            kind: p.kind,
            parent: p.parent,
            created_at: p.created_at,
            modified_at: now,
            metadata: p.metadata,
            children: p.children.insert(name, child),
            target: p.target,
        }))
    }
}

/// Walking the path parts `parts` from node `cur`: the node reached, none
/// when a part has no child of that name, an error when a node on the way
/// is missing.
pub open spec fn resolve_walk(m: Map<Seq<char>, NodeView>, parts: Seq<Seq<char>>, cur: Seq<char>) -> Result<Option<Seq<char>>, VfsFail>
    decreases parts.len(),
{
    if parts.len() == 0 {
        Ok(Some(cur))
    } else if !m.contains_key(cur) {
        Err(VfsFail::NodeNotFound(cur))
    } else if !m[cur].children.contains_key(parts[0]) {
        Ok(None)
    } else {
        resolve_walk(m, parts.drop_first(), m[cur].children[parts[0]])
    }
}

/// The node id that an absolute path without a trailing `/` leads to from
/// the root, if any.
pub open spec fn resolve_spec(m: Map<Seq<char>, NodeView>, path: Seq<char>) -> Result<Option<Seq<char>>, VfsFail> {
    if !has_root(path) {
        Err(VfsFail::NotAbsolute)
    } else if path.len() > 1 && path.last() == '/' {
        Err(VfsFail::TrailingSlash)
    } else {
        resolve_walk(m, path_parts(path), root_id())
    }
}

pub open spec fn res_opt_view(r: Result<Option<String>, VfsError>) -> Result<Option<Seq<char>>, VfsFail> {
    match r {
        Ok(o) => Ok(opt_view(o)),
        Err(e) => Err(fail_view(e)),
    }
}

/// No child entry of the node is the root's id.
pub open spec fn children_avoid_root(n: NodeView) -> bool {
    forall|k: Seq<char>| #[trigger] n.children.contains_key(k) ==> n.children[k] != root_id()
}

/// No child entry of any node is the root's id.
pub open spec fn no_root_child(m: Map<Seq<char>, NodeView>) -> bool {
    forall|id: Seq<char>, k: Seq<char>| #[trigger] m.contains_key(id) && #[trigger] m[id].children.contains_key(k)
        ==> m[id].children[k] != root_id()
}

/// A walk of at least one part never ends at the root when no child entry
/// is the root.
pub proof fn lemma_walk_not_root(m: Map<Seq<char>, NodeView>, parts: Seq<Seq<char>>, cur: Seq<char>)
    requires
        no_root_child(m),
    ensures
        parts.len() > 0 ==> (resolve_walk(m, parts, cur) matches Ok(Some(id)) ==> id != root_id()),
    decreases parts.len(),
{
    if parts.len() > 0 && m.contains_key(cur) && m[cur].children.contains_key(parts[0]) {
        let next = m[cur].children[parts[0]];
        lemma_walk_not_root(m, parts.drop_first(), next);
        if parts.drop_first().len() == 0 {
            assert(next != root_id());
        }
    }
}

/// An absolute path without a trailing `/` that has no parts is `/`.
pub proof fn lemma_nonroot_path_has_parts(p: Seq<char>)
    ensures
        has_root(p) && !(p.len() > 1 && p.last() == '/') && p != seq!['/'] ==> path_parts(p).len() > 0,
{
    if has_root(p) && !(p.len() > 1 && p.last() == '/') && p != seq!['/'] {
        if p.len() == 1 {
            assert(p =~= seq!['/']);
        } else {
            let r = crate::vpath::scan_parts(p);
            assert(r.1.len() > 0);
        }
    }
}

/// A hierarchy of folders and documents kept as nodes by id, with the root
/// folder under the id `root`.
pub struct VirtualFilesystem {
    nodes: Vec<VfsNode>,
}

impl VirtualFilesystem {
    /// The nodes by id.
    pub closed spec fn view(&self) -> Map<Seq<char>, NodeView> {
        keyed_map(node_pairs(self.nodes@))
    }

    /// The representation invariant: ids are unique, child names are
    /// unique within a node, and the root is there.
    pub closed spec fn wf(&self) -> bool {
        &&& unique_keys(node_pairs(self.nodes@))
        &&& forall|i: int| 0 <= i < self.nodes@.len() ==> #[trigger] unique_keys(str_pairs(self.nodes@[i].children@))
        &&& self.view().contains_key(root_id())
        &&& no_root_child(self.view())
    }

    /// A filesystem with only the root folder, created at `now`.
    pub fn new(now: i64) -> (r: Self)
        ensures
            r.wf(),
            r.view() == Map::<Seq<char>, NodeView>::empty().insert(root_id(), folder_view(seq!['/'], None, now)),
    {
        let root = VfsNode {
            id: "root".to_owned(),
            name: "/".to_owned(),
            node_type: VfsNodeType::VirtualFolder,
            parent_id: None,
            created_at: now,
            modified_at: now,
            metadata: Vec::new(),
            children: Vec::new(),
            target_id: None,
        };
        proof {
            reveal_strlit("root");
            reveal_strlit("/");
        }
        let ghost rv = root;
        let mut nodes: Vec<VfsNode> = Vec::new();
        nodes.push(root);
        let r = VirtualFilesystem { nodes };
        proof {
            assert(rv.id@ =~= root_id());
            assert(str_pairs(rv.children@) =~= Seq::<(Seq<char>, Seq<char>)>::empty());
            assert(str_pairs(rv.metadata@) =~= Seq::<(Seq<char>, Seq<char>)>::empty());
            assert(keyed_map(Seq::<(Seq<char>, Seq<char>)>::empty()) == Map::<Seq<char>, Seq<char>>::empty());
            assert(node_view(rv).name =~= seq!['/']);
            assert(node_view(rv).children =~= Map::<Seq<char>, Seq<char>>::empty());
            assert(node_view(rv).metadata =~= Map::<Seq<char>, Seq<char>>::empty());
            assert(node_view(rv) == folder_view(seq!['/'], None, now));
            assert(node_pairs(r.nodes@) =~= seq![(root_id(), node_view(rv))]);
            assert(node_pairs(r.nodes@).drop_last() =~= Seq::<(Seq<char>, NodeView)>::empty());
            assert(keyed_map(Seq::<(Seq<char>, NodeView)>::empty()) == Map::<Seq<char>, NodeView>::empty());
            assert(r.view() =~= Map::<Seq<char>, NodeView>::empty().insert(root_id(), folder_view(seq!['/'], None, now)));
            assert(unique_keys(str_pairs(r.nodes@[0].children@)));
        }
        r
    }

    /// All nodes, whose (id, node) pairs make up the abstract filesystem.
    pub fn nodes(&self) -> (r: &Vec<VfsNode>)
        ensures
            keyed_map(node_pairs(r@)) == self.view(),
    {
        &self.nodes
    }

    /// The position of the node with id `id`, if any.
    fn find_node(&self, id: &String) -> (r: Option<usize>)
        requires
            self.wf(),
        ensures
            match r {
                Some(i) => i < self.nodes@.len() && self.nodes@[i as int].id@ == id@ && self.view().contains_key(id@)
                    && self.view()[id@] == node_view(self.nodes@[i as int]),
                None => !self.view().contains_key(id@),
            },
    {
        let mut i: usize = 0;
        while i < self.nodes.len()
            invariant
                i <= self.nodes@.len(),
                unique_keys(node_pairs(self.nodes@)),
                forall|k: int| 0 <= k < i ==> self.nodes@[k].id@ != id@,
            decreases self.nodes.len() - i,
        {
            if self.nodes[i].id == *id {
                proof {
                    lemma_keyed_get(node_pairs(self.nodes@), i as int);
                }
                return Some(i);
            }
            i += 1;
        }
        proof {
            lemma_keyed_dom(node_pairs(self.nodes@), id@);
            if self.view().contains_key(id@) {
                let k = choose|k: int| 0 <= k < node_pairs(self.nodes@).len() && node_pairs(self.nodes@)[k].0 == id@;
                assert(self.nodes@[k].id@ == id@);
            }
        }
        None
    }

    /// The node with id `id`.
    pub fn get_node(&self, id: &str) -> (r: Result<&VfsNode, VfsError>)
        requires
            self.wf(),
        ensures
            match r {
                Ok(n) => self.view().contains_key(id@) && node_view(*n) == self.view()[id@] && n.id@ == id@,
                Err(e) => !self.view().contains_key(id@) && fail_view(e) == VfsFail::NodeNotFound(id@),
            },
    {
        let ids = id.to_owned();
        match self.find_node(&ids) {
            Some(i) => Ok(&self.nodes[i]),
            None => Err(VfsError::NodeNotFound(ids)),
        }
    }

    /// Stores `node` under its id, replacing a node with the same id.
    pub fn save_node(&mut self, node: VfsNode)
        requires
            old(self).wf(),
            unique_keys(str_pairs(node.children@)),
            children_avoid_root(node_view(node)),
        ensures
            final(self).wf(),
            final(self).view() == old(self).view().insert(node.id@, node_view(node)),
    {
        let ghost ns = self.nodes@;
        let ghost nv = node;
        match self.find_node(&node.id) {
            Some(i) => {
                self.nodes.set(i, node);
                proof {
                    assert(node_pairs(self.nodes@) =~= node_pairs(ns).update(i as int, (ns[i as int].id@, node_view(nv))));
                    lemma_keyed_update(node_pairs(ns), i as int, node_view(nv));
                    assert forall|a: int, b: int| 0 <= a < b < node_pairs(self.nodes@).len() implies node_pairs(self.nodes@)[a].0 != node_pairs(self.nodes@)[b].0 by {
                        assert(node_pairs(ns)[a].0 != node_pairs(ns)[b].0);
                    }
                    assert forall|k: int| 0 <= k < self.nodes@.len() implies #[trigger] unique_keys(str_pairs(self.nodes@[k].children@)) by {
                        if k != i {
                            assert(self.nodes@[k] == ns[k]);
                        }
                    }
                }
            },
            None => {
                self.nodes.push(node);
                proof {
                    assert(node_pairs(self.nodes@) =~= node_pairs(ns).push((nv.id@, node_view(nv))));
                    assert(node_pairs(self.nodes@).drop_last() =~= node_pairs(ns));
                    lemma_keyed_dom(node_pairs(ns), nv.id@);
                    assert forall|a: int, b: int| 0 <= a < b < node_pairs(self.nodes@).len() implies node_pairs(self.nodes@)[a].0 != node_pairs(self.nodes@)[b].0 by {
                        if b < ns.len() {
                            assert(node_pairs(ns)[a].0 != node_pairs(ns)[b].0);
                        } else {
                            assert(node_pairs(ns)[a].0 == ns[a].id@);
                        }
                    }
                    assert forall|k: int| 0 <= k < self.nodes@.len() implies #[trigger] unique_keys(str_pairs(self.nodes@[k].children@)) by {
                        if k < ns.len() {
                            assert(self.nodes@[k] == ns[k]);
                        }
                    }
                }
            },
        }
        proof {
            let m0 = keyed_map(node_pairs(ns));
            assert(self.view() == m0.insert(nv.id@, node_view(nv)));
            assert forall|id: Seq<char>, k: Seq<char>| #[trigger] self.view().contains_key(id) && #[trigger] self.view()[id].children.contains_key(k)
                implies self.view()[id].children[k] != root_id() by {
                if id != nv.id@ {
                    assert(m0.contains_key(id) && m0[id].children.contains_key(k));
                }
            }
        }
    }
}

/// The children after entering `child` under `name`.
fn set_child(children: &mut Vec<(String, String)>, name: &String, child: &String)
    requires
        unique_keys(str_pairs(old(children)@)),
    ensures
        unique_keys(str_pairs(final(children)@)),
        keyed_map(str_pairs(final(children)@)) == keyed_map(str_pairs(old(children)@)).insert(name@, child@),
{
    let ghost cs = children@;
    let mut i: usize = 0;
    while i < children.len()
        invariant
            i <= children@.len(),
            children@ == cs,
            cs == old(children)@,
            unique_keys(str_pairs(cs)),
            forall|k: int| 0 <= k < i ==> children@[k].0@ != name@,
        decreases children.len() - i,
    {
        if children[i].0 == *name {
            children.set(i, (name.clone(), child.clone()));
            proof {
                assert(str_pairs(children@) =~= str_pairs(cs).update(i as int, (str_pairs(cs)[i as int].0, child@)));
                lemma_keyed_update(str_pairs(cs), i as int, child@);
                assert forall|a: int, b: int| 0 <= a < b < str_pairs(children@).len() implies str_pairs(children@)[a].0 != str_pairs(children@)[b].0 by {
                    assert(str_pairs(cs)[a].0 != str_pairs(cs)[b].0);
                }
            }
            return;
        }
        i += 1;
    }
    children.push((name.clone(), child.clone()));
    proof {
        assert(str_pairs(children@) =~= str_pairs(cs).push((name@, child@)));
        assert(str_pairs(children@).drop_last() =~= str_pairs(cs));
        assert forall|a: int, b: int| 0 <= a < b < str_pairs(children@).len() implies str_pairs(children@)[a].0 != str_pairs(children@)[b].0 by {
            if b < cs.len() {
                assert(str_pairs(cs)[a].0 != str_pairs(cs)[b].0);
            } else {
                assert(str_pairs(cs)[a].0 == cs[a].0@);
            }
        }
    }
}

impl VirtualFilesystem {
    /// Enters `child` under `name` in the children of node `parent` and
    /// sets that node's modification time to `now`.
    fn add_child(&mut self, parent: &String, name: &String, child: &String, now: i64) -> (r: Result<(), VfsError>)
        requires
            old(self).wf(),
            child@ != root_id(),
        ensures
            final(self).wf(),
            match add_child_spec(old(self).view(), parent@, name@, child@, now) {
                Ok(m) => r is Ok && final(self).view() == m,
                Err(f) => r is Err && fail_view(r->Err_0) == f && final(self).view() == old(self).view(),
            },
    {
        match self.find_node(parent) {
            None => Err(VfsError::NodeNotFound(parent.clone())),
            Some(i) => {
                let ghost ns = self.nodes@;
                let mut n = self.nodes.remove(i);
                assert(unique_keys(str_pairs(ns[i as int].children@)));
                set_child(&mut n.children, name, child);
                n.modified_at = now;
                let ghost nv = n;
                self.nodes.insert(i, n);
                proof {
                    assert(self.nodes@ =~= ns.update(i as int, nv));
                    assert(node_pairs(self.nodes@) =~= node_pairs(ns).update(i as int, (ns[i as int].id@, node_view(nv))));
                    lemma_keyed_update(node_pairs(ns), i as int, node_view(nv));
                    assert forall|a: int, b: int| 0 <= a < b < node_pairs(self.nodes@).len() implies node_pairs(self.nodes@)[a].0 != node_pairs(self.nodes@)[b].0 by {
                        assert(node_pairs(ns)[a].0 != node_pairs(ns)[b].0);
                    }
                    assert forall|k: int| 0 <= k < self.nodes@.len() implies #[trigger] unique_keys(str_pairs(self.nodes@[k].children@)) by {
                        if k != i {
                            assert(self.nodes@[k] == ns[k]);
                        }
                    }
                    let m = add_child_spec(old(self).view(), parent@, name@, child@, now);
                    assert(self.view() =~= m->Ok_0);
                    let m0 = old(self).view();
                    assert forall|id: Seq<char>, k: Seq<char>| #[trigger] self.view().contains_key(id) && #[trigger] self.view()[id].children.contains_key(k)
                        implies self.view()[id].children[k] != root_id() by {
                        if id != parent@ || k != name@ {
                            assert(m0.contains_key(id) && m0[id].children.contains_key(k));
                        }
                    }
                }
                Ok(())
            },
        }
    }

    /// The node id that `path` leads to: the path must be absolute and
    /// must not end in `/` (the root aside); its parts are followed from
    /// the root through the children of each node.
    pub fn resolve_path(&self, path: &str) -> (r: Result<Option<String>, VfsError>)
        requires
            self.wf(),
        ensures
            res_opt_view(r) == resolve_spec(self.view(), path@),
    {
            let cs = crate::text::chars_of(path);
        if cs.len() == 0 || cs[0] != '/' {
            return Err(VfsError::NotAbsolute);
        }
        if cs.len() > 1 && cs[cs.len() - 1] == '/' {
            return Err(VfsError::TrailingSlash);
        }
        let parts = split_parts(path);
        let ghost ps = path_parts(path@);
        let ghost m = self.view();
        let mut cur: String = "root".to_owned();
        proof {
            reveal_strlit("root");
            assert(cur@ =~= root_id());
        }
        let mut i: usize = 0;
        assert(ps.skip(0) =~= ps);
        assert(has_root(path@));
        assert(!(path@.len() > 1 && path@.last() == '/'));
        assert(resolve_spec(m, path@) == resolve_walk(m, ps, root_id()));
        while i < parts.len()
            invariant
                resolve_spec(m, path@) == resolve_walk(m, ps, root_id()),
                i <= parts@.len(),
                parts@.len() == ps.len(),
                forall|k: int| 0 <= k < parts@.len() ==> #[trigger] parts@[k]@ == ps[k],
                self.wf(),
                m == self.view(),
                resolve_walk(m, ps, root_id()) == resolve_walk(m, ps.skip(i as int), cur@),
            decreases parts.len() - i,
        {
            let ghost rest = ps.skip(i as int);
            assert(rest[0] == ps[i as int]);
            assert(rest.drop_first() =~= ps.skip(i + 1));
            match self.find_node(&cur) {
                None => {
                    return Err(VfsError::NodeNotFound(cur));
                },
                Some(k) => {
                    let node = &self.nodes[k];
                    assert(unique_keys(str_pairs(node.children@)));
                    match find_child(&node.children, &parts[i]) {
                        None => {
                            return Ok(None);
                        },
                        Some(c) => {
                            cur = node.children[c].1.clone();
                        },
                    }
                },
            }
            i += 1;
        }
        Ok(Some(cur))
    }
}

/// The position of the child named `name`, if any.
pub(crate) fn find_child(children: &Vec<(String, String)>, name: &String) -> (r: Option<usize>)
    requires
        unique_keys(str_pairs(children@)),
    ensures
        match r {
            Some(c) => c < children@.len() && children@[c as int].0@ == name@
                && keyed_map(str_pairs(children@)).contains_key(name@)
                && keyed_map(str_pairs(children@))[name@] == children@[c as int].1@,
            None => !keyed_map(str_pairs(children@)).contains_key(name@),
        },
{
    let mut c: usize = 0;
    while c < children.len()
        invariant
            c <= children@.len(),
            unique_keys(str_pairs(children@)),
            forall|k: int| 0 <= k < c ==> children@[k].0@ != name@,
        decreases children.len() - c,
    {
        if children[c].0 == *name {
            proof {
                lemma_keyed_get(str_pairs(children@), c as int);
            }
            return Some(c);
        }
        c += 1;
    }
    proof {
        lemma_keyed_dom(str_pairs(children@), name@);
        if keyed_map(str_pairs(children@)).contains_key(name@) {
            let k = choose|k: int| 0 <= k < str_pairs(children@).len() && str_pairs(children@)[k].0 == name@;
            assert(children@[k].0@ == name@);
        }
    }
    None
}

/// The id of a folder named `name` made at time stamp `stamp`:
/// `folder_<name>_<stamp>`.
pub open spec fn folder_id(name: Seq<char>, stamp: Seq<char>) -> Seq<char> {
    "folder_"@ + name + seq!['_'] + stamp
}

/// Walking the path parts from `parts[i]` on, from node `cur`, creating
/// every missing folder (the one for part `k` gets the id made of the part
/// and `stamps[k]`, and time `now`): the filesystem afterwards and the last
/// folder's id, or the error that stopped the walk, with the folders made
/// before it left in place. The walk ends only at a folder: a node that is
/// not one, last or not, stops it.
pub open spec fn mkdirp_spec(
    m: Map<Seq<char>, NodeView>,
    parts: Seq<Seq<char>>,
    i: int,
    cur: Seq<char>,
    stamps: Seq<Seq<char>>,
    now: i64,
) -> (Map<Seq<char>, NodeView>, Result<Seq<char>, VfsFail>)
    decreases parts.len() - i,
{
    if !m.contains_key(cur) {
        (m, Err(VfsFail::NodeNotFound(cur)))
    } else if !(m[cur].kind is Folder) {
        (m, Err(VfsFail::SegmentIsFile(m[cur].name)))
    } else if i < 0 || i >= parts.len() {
        (m, Ok(cur))
    } else if !m.contains_key(cur) {
        (m, Err(VfsFail::NodeNotFound(cur)))
    } else if !(m[cur].kind is Folder) {
        (m, Err(VfsFail::SegmentIsFile(m[cur].name)))
    } else if m[cur].children.contains_key(parts[i]) {
        mkdirp_spec(m, parts, i + 1, m[cur].children[parts[i]], stamps, now)
    } else {
        let nid = folder_id(parts[i], stamps[i]);
        let m1 = m.insert(nid, folder_view(parts[i], Some(cur), now));
        match add_child_spec(m1, cur, parts[i], nid, now) {
            Ok(m2) => mkdirp_spec(m2, parts, i + 1, nid, stamps, now),
            Err(f) => (m1, Err(f)),
        }
    }
}

pub open spec fn res_string_view(r: Result<String, VfsError>) -> Result<Seq<char>, VfsFail> {
    match r {
        Ok(s) => Ok(s@),
        Err(e) => Err(fail_view(e)),
    }
}

pub open spec fn res_unit_view(r: Result<(), VfsError>) -> Result<(), VfsFail> {
    match r {
        Ok(_) => Ok(()),
        Err(e) => Err(fail_view(e)),
    }
}

/// A folder id is never the root's.
proof fn lemma_folder_id_not_root(name: Seq<char>, stamp: Seq<char>)
    ensures
        folder_id(name, stamp) != root_id(),
{
    reveal_strlit("folder_");
    assert(folder_id(name, stamp)[0] == 'f');
}

/// Builds the id of a folder: `folder_<name>_<stamp>`.
fn make_folder_id(name: &String, stamp: &String) -> (r: String)
    ensures
        r@ == folder_id(name@, stamp@),
{
    let mut r = String::new();
    crate::text::push_str(&mut r, "folder_");
    crate::text::push_str(&mut r, name.as_str());
    crate::text::push_char(&mut r, '_');
    crate::text::push_str(&mut r, stamp.as_str());
    assert(r@ =~= folder_id(name@, stamp@));
    r
}

/// A new folder node.
fn new_folder_node(id: String, name: String, parent: String, now: i64) -> (n: VfsNode)
    ensures
        n.id@ == id@,
        node_view(n) == folder_view(name@, Some(parent@), now),
        unique_keys(str_pairs(n.children@)),
{
    let n = VfsNode {
        id,
        name,
        node_type: VfsNodeType::VirtualFolder,
        parent_id: Some(parent),
        created_at: now,
        modified_at: now,
        metadata: Vec::new(),
        children: Vec::new(),
        target_id: None,
    };
    proof {
        assert(str_pairs(n.children@) =~= Seq::<(Seq<char>, Seq<char>)>::empty());
        assert(str_pairs(n.metadata@) =~= Seq::<(Seq<char>, Seq<char>)>::empty());
        assert(keyed_map(Seq::<(Seq<char>, Seq<char>)>::empty()) == Map::<Seq<char>, Seq<char>>::empty());
        assert(node_view(n) == folder_view(name@, Some(parent@), now));
    }
    n
}

impl VirtualFilesystem {
    /// Follows the parts of `path` from the root, creating the folders that
    /// are missing; the id of the last folder. A part may not pass through
    /// a node that is not a folder.
    fn mkdir_p(&mut self, path: &str, stamps: &Vec<String>, now: i64) -> (r: Result<String, VfsError>)
        requires
            old(self).wf(),
            stamps@.len() >= path_parts(path@).len(),
        ensures
            final(self).wf(),
            (final(self).view(), res_string_view(r)) == mkdirp_spec(old(self).view(), path_parts(path@), 0, root_id(), string_views(stamps@), now),
    {
        let parts = split_parts(path);
        let ghost ps = path_parts(path@);
        let ghost st = string_views(stamps@);
        let ghost m0 = self.view();
        let mut cur: String = "root".to_owned();
        proof {
            reveal_strlit("root");
            assert(cur@ =~= root_id());
        }
        let mut i: usize = 0;
        while i < parts.len()
            invariant
                i <= parts@.len(),
                parts@.len() == ps.len(),
                ps == path_parts(path@),
                stamps@.len() >= ps.len(),
                st == string_views(stamps@),
                forall|k: int| 0 <= k < parts@.len() ==> #[trigger] parts@[k]@ == ps[k],
                self.wf(),
                mkdirp_spec(m0, ps, 0, root_id(), st, now) == mkdirp_spec(self.view(), ps, i as int, cur@, st, now),
                m0 == old(self).view(),
            decreases parts.len() - i,
        {
            let part = &parts[i];
            assert(part@ == ps[i as int]);
            match self.find_node(&cur) {
                None => {
                    return Err(VfsError::NodeNotFound(cur));
                },
                Some(k) => {
                    let is_folder = match self.nodes[k].node_type {
                        VfsNodeType::VirtualFolder => true,
                        _ => false,
                    };
                    if !is_folder {
                        return Err(VfsError::SegmentIsFile(self.nodes[k].name.clone()));
                    }
                    assert(unique_keys(str_pairs(self.nodes@[k as int].children@)));
                    match find_child(&self.nodes[k].children, part) {
                        Some(c) => {
                            cur = self.nodes[k].children[c].1.clone();
                        },
                        None => {
                            let nid = make_folder_id(part, &stamps[i]);
                            assert(st[i as int] == stamps@[i as int]@);
                            let node = new_folder_node(nid.clone(), part.clone(), cur.clone(), now);
                            self.save_node(node);
                            proof {
                                lemma_folder_id_not_root(part@, stamps@[i as int]@);
                            }
                            let r = self.add_child(&cur, part, &nid, now);
                            match r {
                                Ok(()) => {},
                                Err(e) => {
                                    return Err(e);
                                },
                            }
                            cur = nid;
                        },
                    }
                },
            }
            i += 1;
        }
        match self.find_node(&cur) {
            None => Err(VfsError::NodeNotFound(cur)),
            Some(k) => {
                let is_folder = match self.nodes[k].node_type {
                    VfsNodeType::VirtualFolder => true,
                    _ => false,
                };
                if !is_folder {
                    return Err(VfsError::SegmentIsFile(self.nodes[k].name.clone()));
                }
                Ok(cur)
            },
        }
    }
}

/// A new node of kind `kind` named `name` under `parent`, made at `now`.
pub open spec fn new_node_view(name: Seq<char>, kind: KindView, parent: Option<Seq<char>>, now: i64) -> NodeView {
    NodeView {
        name,
        kind,
        parent,
        created_at: now,
        modified_at: now,
        metadata: Map::empty(),
        children: Map::empty(),
        target: None,
    }
}

/// `mkdir`: fails when the path already leads somewhere, when it has no
/// parent, when the parent does not lead anywhere or is not a folder, or
/// when the path has no final name; otherwise adds a folder under the
/// parent with the id made of its name and `stamp`.
pub open spec fn mkdir_spec(m: Map<Seq<char>, NodeView>, path: Seq<char>, stamp: Seq<char>, now: i64) -> (Map<Seq<char>, NodeView>, Result<(), VfsFail>) {
    match resolve_spec(m, path) {
        Err(f) => (m, Err(f)),
        Ok(Some(_)) => (m, Err(VfsFail::AlreadyExists)),
        Ok(None) => match path_parent(path) {
            None => (m, Err(VfsFail::InvalidPath)),
            Some(pp) => match resolve_spec(m, pp) {
                Err(f) => (m, Err(f)),
                Ok(None) => (m, Err(VfsFail::ParentDoesNotExist(pp))),
                Ok(Some(pid)) => if !m.contains_key(pid) {
                    (m, Err(VfsFail::NodeNotFound(pid)))
                } else if !(m[pid].kind is Folder) {
                    (m, Err(VfsFail::InsideFile))
                } else {
                    match path_file_name(path) {
                        None => (m, Err(VfsFail::InvalidName)),
                        Some(name) => {
                            let nid = folder_id(name, stamp);
                            let m1 = m.insert(nid, folder_view(name, Some(pid), now));
                            match add_child_spec(m1, pid, name, nid, now) {
                                Ok(m2) => (m2, Ok(())),
                                Err(f) => (m1, Err(f)),
                            }
                        },
                    }
                },
            },
        },
    }
}

/// Creating a node of kind `kind` with id `node_id` at `path`: the path
/// must be absolute and have a parent and a final name; the parent's
/// folders are made as `mkdir -p` makes them; then the node is stored and
/// entered (replacing an entry of the same name) in its parent.
pub open spec fn create_spec(
    m: Map<Seq<char>, NodeView>,
    path: Seq<char>,
    kind: KindView,
    node_id: Seq<char>,
    stamps: Seq<Seq<char>>,
    now: i64,
) -> (Map<Seq<char>, NodeView>, Result<(), VfsFail>) {
    if !has_root(path) {
        (m, Err(VfsFail::NotAbsolute))
    } else {
        match path_parent(path) {
            None => (m, Err(VfsFail::InvalidPathStructure)),
            Some(pp) => match path_file_name(path) {
                None => (m, Err(VfsFail::MissingFilename)),
                Some(name) => {
                    let (m1, r) = mkdirp_spec(m, path_parts(pp), 0, root_id(), stamps, now);
                    match r {
                        Err(f) => (m1, Err(f)),
                        Ok(pid) => {
                            let m2 = m1.insert(node_id, new_node_view(name, kind, Some(pid), now));
                            match add_child_spec(m2, pid, name, node_id, now) {
                                Ok(m3) => (m3, Ok(())),
                                Err(f) => (m2, Err(f)),
                            }
                        },
                    }
                },
            },
        }
    }
}

impl VirtualFilesystem {
    /// Creates the folder `path` under its existing parent folder; the new
    /// folder's id is made of its name and `stamp`.
    pub fn mkdir(&mut self, path: &str, stamp: &str, now: i64) -> (r: Result<(), VfsError>)
        requires
            old(self).wf(),
        ensures
            final(self).wf(),
            (final(self).view(), res_unit_view(r)) == mkdir_spec(old(self).view(), path@, stamp@, now),
    {
        match self.resolve_path(path) {
            Err(e) => return Err(e),
            Ok(Some(_)) => return Err(VfsError::AlreadyExists),
            Ok(None) => {},
        }
        let (parent, name) = split_path(path);
        let parent = match parent {
            None => return Err(VfsError::InvalidPath),
            Some(p) => p,
        };
        let pid = match self.resolve_path(parent.as_str()) {
            Err(e) => return Err(e),
            Ok(None) => return Err(VfsError::ParentDoesNotExist(parent)),
            Ok(Some(pid)) => pid,
        };
        let k = match self.find_node(&pid) {
            None => return Err(VfsError::NodeNotFound(pid)),
            Some(k) => k,
        };
        let is_folder = match self.nodes[k].node_type {
            VfsNodeType::VirtualFolder => true,
            _ => false,
        };
        if !is_folder {
            return Err(VfsError::InsideFile);
        }
        let name = match name {
            None => return Err(VfsError::InvalidName),
            Some(n) => n,
        };
        let stamp_s = stamp.to_owned();
        let nid = make_folder_id(&name, &stamp_s);
        let node = new_folder_node(nid.clone(), name.clone(), pid.clone(), now);
        self.save_node(node);
        proof {
            lemma_folder_id_not_root(name@, stamp@);
        }
        self.add_child(&pid, &name, &nid, now)
    }

    /// Creates a node of type `node_type` with id `node_id` at `path`,
    /// making the missing folders of its parent path (the one for part `k`
    /// of the parent path gets the id made of the part and `stamps[k]`).
    pub fn create_node_at_path(
        &mut self,
        path: &str,
        node_type: VfsNodeType,
        node_id: &str,
        stamps: &Vec<String>,
        now: i64,
    ) -> (r: Result<(), VfsError>)
        requires
            old(self).wf(),
            stamps@.len() >= path@.len(),
            node_id@ != root_id(),
        ensures
            final(self).wf(),
            (final(self).view(), res_unit_view(r)) == create_spec(old(self).view(), path@, kind_view(node_type), node_id@, string_views(stamps@), now),
    {
        let cs = crate::text::chars_of(path);
        if cs.len() == 0 || cs[0] != '/' {
            return Err(VfsError::NotAbsolute);
        }
        let (parent, name) = split_path(path);
        let parent = match parent {
            None => return Err(VfsError::InvalidPathStructure),
            Some(p) => p,
        };
        let name = match name {
            None => return Err(VfsError::MissingFilename),
            Some(n) => n,
        };
        proof {
            lemma_parts_len(parent@);
            lemma_parent_shorter(path@);
        }
        let pid = match self.mkdir_p(parent.as_str(), stamps, now) {
            Err(e) => return Err(e),
            Ok(pid) => pid,
        };
        let ghost kv = kind_view(node_type);
        let node = VfsNode {
            id: node_id.to_owned(),
            name: name.clone(),
            node_type,
            parent_id: Some(pid.clone()),
            created_at: now,
            modified_at: now,
            metadata: Vec::new(),
            children: Vec::new(),
            target_id: None,
        };
        proof {
            assert(str_pairs(node.children@) =~= Seq::<(Seq<char>, Seq<char>)>::empty());
            assert(str_pairs(node.metadata@) =~= Seq::<(Seq<char>, Seq<char>)>::empty());
            assert(keyed_map(Seq::<(Seq<char>, Seq<char>)>::empty()) == Map::<Seq<char>, Seq<char>>::empty());
            assert(node_view(node) == new_node_view(name@, kv, Some(pid@), now));
        }
        let nid = node_id.to_owned();
        self.save_node(node);
        self.add_child(&pid, &name, &nid, now)
    }
}

/// A path has at most as many parts as characters.
proof fn lemma_parts_len(p: Seq<char>)
    ensures
        path_parts(p).len() <= p.len(),
{
    lemma_scan_parts_len(p);
}

proof fn lemma_scan_parts_len(p: Seq<char>)
    ensures
        scan_parts_len_ok(p),
    decreases p.len(),
{
    if p.len() > 0 {
        lemma_scan_parts_len(p.drop_last());
    }
}

/// The pieces scanned so far and the characters of the piece in progress
/// are no more than the characters scanned.
pub open spec fn scan_parts_len_ok(p: Seq<char>) -> bool {
    let r = crate::vpath::scan_parts(p);
    r.0.len() + r.1.len() <= p.len()
}

/// The parent of a path is no longer than the path.
proof fn lemma_parent_shorter(p: Seq<char>)
    ensures
        path_parent(p) matches Some(q) ==> q.len() <= p.len(),
{
    lemma_trim_back_shorter(p);
    let q = crate::vpath::trim_back(p);
    if q.len() > crate::vpath::root_len(q) {
        crate::vpath::lemma_last_sep(q);
        lemma_trim_back_shorter(crate::vpath::cut_piece(q));
    }
}

proof fn lemma_trim_back_shorter(p: Seq<char>)
    ensures
        crate::vpath::trim_back(p).len() <= p.len(),
    decreases p.len(),
{
    if p.len() > crate::vpath::root_len(p) && crate::vpath::is_void_piece(crate::vpath::last_piece(p)) {
        crate::vpath::lemma_last_sep(p);
        lemma_trim_back_shorter(crate::vpath::cut_piece(p));
    }
}

/// `mklink`: a folder node named after the final name of `path`, with id
/// `node_id` and target `target`, under the node its parent path leads to.
pub open spec fn mklink_spec(m: Map<Seq<char>, NodeView>, path: Seq<char>, target: Seq<char>, node_id: Seq<char>, now: i64) -> (Map<Seq<char>, NodeView>, Result<(), VfsFail>)
    recommends
        path_file_name(path) is Some,
{
    let name = path_file_name(path)->0;
    let pp = path_parent(path)->0;
    match resolve_spec(m, pp) {
        Err(f) => (m, Err(f)),
        Ok(None) => (m, Err(VfsFail::ParentNotFound)),
        Ok(Some(pid)) => {
            let v = NodeView {
                name,
                kind: KindView::Folder,
                parent: Some(pid),
                created_at: now,
                modified_at: now,
                metadata: Map::empty(),
                children: Map::empty(),
                target: Some(target),
            };
            let m1 = m.insert(node_id, v);
            match add_child_spec(m1, pid, name, node_id, now) {
                Ok(m2) => (m2, Ok(())),
                Err(f) => (m1, Err(f)),
            }
        },
    }
}

/// `v` lists the keys of `keys`, each once.
pub open spec fn lists_keys(v: Seq<String>, keys: Map<Seq<char>, Seq<char>>) -> bool {
    &&& forall|k: Seq<char>| #[trigger] keys.contains_key(k) <==> exists|i: int| 0 <= i < v.len() && v[i]@ == k
    &&& forall|a: int, b: int| 0 <= a < b < v.len() ==> v[a]@ != v[b]@
}

/// The node has at least one child.
pub open spec fn has_children(n: NodeView) -> bool {
    exists|k: Seq<char>| n.children.contains_key(k)
}

/// The cases where removing `path` finds an empty node but cannot name its
/// parent: a path with no parent, or one whose parent leads nowhere.
pub open spec fn rm_unparented(m: Map<Seq<char>, NodeView>, path: Seq<char>) -> bool {
    &&& path != seq!['/']
    &&& resolve_spec(m, path) matches Ok(Some(id))
    &&& m.contains_key(id)
    &&& !has_children(m[id])
    &&& (path_parent(path) is None || resolve_spec(m, path_parent(path)->0) == Ok::<Option<Seq<char>>, VfsFail>(None))
}

/// `rm`: the root cannot go; the path must lead to a node without
/// children; the node's name leaves its parent's children (the parent's
/// modification time stays) and the node is deleted.
pub open spec fn rm_spec(m: Map<Seq<char>, NodeView>, path: Seq<char>) -> (Map<Seq<char>, NodeView>, Result<(), VfsFail>) {
    if path == seq!['/'] {
        (m, Err(VfsFail::CannotRemoveRoot))
    } else {
        match resolve_spec(m, path) {
            Err(f) => (m, Err(f)),
            Ok(None) => (m, Err(VfsFail::PathNotFound)),
            Ok(Some(id)) => if !m.contains_key(id) {
                (m, Err(VfsFail::NodeNotFound(id)))
            } else if has_children(m[id]) {
                (m, Err(VfsFail::DirectoryNotEmpty))
            } else {
                match resolve_spec(m, path_parent(path)->0) {
                    Err(f) => (m, Err(f)),
                    Ok(None) => (m, Err(VfsFail::PathNotFound)),
                    Ok(Some(pid)) => if !m.contains_key(pid) {
                        (m, Err(VfsFail::NodeNotFound(pid)))
                    } else {
                        let p = m[pid];
                        let m1 = m.insert(pid, NodeView {
                            name: p.name,
                            kind: p.kind,
                            parent: p.parent,
                            created_at: p.created_at,
                            modified_at: p.modified_at,
                            metadata: p.metadata,
                            children: p.children.remove(m[id].name),
                            target: p.target,
                        });
                        (m1.remove(id), Ok(()))
                    },
                }
            },
        }
    }
}

/// The children after the entry `name` leaves.
fn remove_child(children: &mut Vec<(String, String)>, name: &String)
    requires
        unique_keys(str_pairs(old(children)@)),
    ensures
        unique_keys(str_pairs(final(children)@)),
        keyed_map(str_pairs(final(children)@)) == keyed_map(str_pairs(old(children)@)).remove(name@),
{
    let ghost cs = children@;
    match find_child(children, name) {
        None => {
            assert(keyed_map(str_pairs(cs)).remove(name@) =~= keyed_map(str_pairs(cs)));
        },
        Some(c) => {
            children.remove(c);
            proof {
                lemma_keyed_remove(str_pairs(cs), c as int);
                assert(str_pairs(children@) =~= str_pairs(cs).remove(c as int));
            }
        },
    }
}

/// Removing a pair removes its key.
proof fn lemma_keyed_remove<A>(s: Seq<(Seq<char>, A)>, i: int)
    requires
        unique_keys(s),
        0 <= i < s.len(),
    ensures
        unique_keys(s.remove(i)),
        keyed_map(s.remove(i)) == keyed_map(s).remove(s[i].0),
    decreases s.len(),
{
    let r = s.remove(i);
    assert forall|a: int, b: int| 0 <= a < b < r.len() implies r[a].0 != r[b].0 by {
        let a0 = if a < i { a } else { a + 1 };
        let b0 = if b < i { b } else { b + 1 };
        assert(r[a] == s[a0] && r[b] == s[b0]);
    }
    if i == s.len() - 1 {
        assert(r =~= s.drop_last());
        lemma_unique_drop_last(s);
        lemma_keyed_dom(s.drop_last(), s[i].0);
        assert(!keyed_map(s.drop_last()).contains_key(s[i].0)) by {
            if keyed_map(s.drop_last()).contains_key(s[i].0) {
                let k = choose|k: int| 0 <= k < s.drop_last().len() && s.drop_last()[k].0 == s[i].0;
                assert(s[k].0 != s[i].0);
            }
        }
        assert(keyed_map(r) =~= keyed_map(s).remove(s[i].0));
    } else {
        lemma_unique_drop_last(s);
        lemma_keyed_remove(s.drop_last(), i);
        assert(r.drop_last() =~= s.drop_last().remove(i));
        assert(r.last() == s.last());
        assert(s.last().0 != s[i].0);
        assert(keyed_map(r) =~= keyed_map(s).remove(s[i].0));
    }
}

impl VirtualFilesystem {
    /// Removes the node with id `id` (there is one).
    fn delete_node(&mut self, k: usize)
        requires
            old(self).wf(),
            k < old(self).nodes@.len(),
            old(self).nodes@[k as int].id@ != root_id(),
        ensures
            final(self).wf(),
            final(self).view() == old(self).view().remove(old(self).nodes@[k as int].id@),
    {
        let ghost ns = self.nodes@;
        self.nodes.remove(k);
        proof {
            assert(node_pairs(self.nodes@) =~= node_pairs(ns).remove(k as int));
            lemma_keyed_remove(node_pairs(ns), k as int);
            assert forall|j: int| 0 <= j < self.nodes@.len() implies #[trigger] unique_keys(str_pairs(self.nodes@[j].children@)) by {
                if j < k {
                    assert(self.nodes@[j] == ns[j]);
                } else {
                    assert(self.nodes@[j] == ns[j + 1]);
                }
            }
        }
    }

    /// Adds a link: a folder node with id `node_id`, named after the final
    /// name of `path` and pointing at `target_id`, under the node that the
    /// parent path leads to.
    pub fn mklink(&mut self, path: &str, target_id: &str, node_id: &str, now: i64) -> (r: Result<(), VfsError>)
        requires
            old(self).wf(),
            path_file_name(path@) is Some,
            node_id@ != root_id(),
        ensures
            final(self).wf(),
            (final(self).view(), res_unit_view(r)) == mklink_spec(old(self).view(), path@, target_id@, node_id@, now),
    {
        let (parent, name) = split_path(path);
        proof {
            let q = crate::vpath::trim_back(path@);
            assert(q.len() > crate::vpath::root_len(q));
        }
        let parent = match parent {
            Some(p) => p,
            None => String::new(),
        };
        let name = match name {
            Some(n) => n,
            None => String::new(),
        };
        let pid = match self.resolve_path(parent.as_str()) {
            Err(e) => return Err(e),
            Ok(None) => return Err(VfsError::ParentNotFound),
            Ok(Some(pid)) => pid,
        };
        let node = VfsNode {
            id: node_id.to_owned(),
            name: name.clone(),
            node_type: VfsNodeType::VirtualFolder,
            parent_id: Some(pid.clone()),
            created_at: now,
            modified_at: now,
            metadata: Vec::new(),
            children: Vec::new(),
            target_id: Some(target_id.to_owned()),
        };
        proof {
            assert(str_pairs(node.children@) =~= Seq::<(Seq<char>, Seq<char>)>::empty());
            assert(str_pairs(node.metadata@) =~= Seq::<(Seq<char>, Seq<char>)>::empty());
            assert(keyed_map(Seq::<(Seq<char>, Seq<char>)>::empty()) == Map::<Seq<char>, Seq<char>>::empty());
        }
        let nid = node_id.to_owned();
        self.save_node(node);
        self.add_child(&pid, &name, &nid, now)
    }

    /// Removes the node that `path` leads to, which must have no children;
    /// the root cannot be removed.
    pub fn rm(&mut self, path: &str) -> (r: Result<(), VfsError>)
        requires
            old(self).wf(),
            !rm_unparented(old(self).view(), path@),
        ensures
            final(self).wf(),
            (final(self).view(), res_unit_view(r)) == rm_spec(old(self).view(), path@),
    {
        let cs = crate::text::chars_of(path);
        if cs.len() == 1 && cs[0] == '/' {
            assert(path@ =~= seq!['/']);
            return Err(VfsError::CannotRemoveRoot);
        }
        assert(path@ != seq!['/']) by {
            if path@ == seq!['/'] {
                assert(cs@.len() == 1 && cs@[0] == '/');
            }
        }
        let id = match self.resolve_path(path) {
            Err(e) => return Err(e),
            Ok(None) => return Err(VfsError::PathNotFound),
            Ok(Some(id)) => id,
        };
        let k = match self.find_node(&id) {
            None => return Err(VfsError::NodeNotFound(id)),
            Some(k) => k,
        };
        if self.nodes[k].children.len() > 0 {
            proof {
                assert(unique_keys(str_pairs(self.nodes@[k as int].children@)));
                lemma_keyed_get(str_pairs(self.nodes@[k as int].children@), 0);
                assert(self.view()[id@].children.contains_key(str_pairs(self.nodes@[k as int].children@)[0].0));
                assert(has_children(self.view()[id@]));
            }
            return Err(VfsError::DirectoryNotEmpty);
        }
        proof {
            assert(str_pairs(self.nodes@[k as int].children@) =~= Seq::<(Seq<char>, Seq<char>)>::empty());
            assert(keyed_map(Seq::<(Seq<char>, Seq<char>)>::empty()) == Map::<Seq<char>, Seq<char>>::empty());
        }
        let node_name = self.nodes[k].name.clone();
        let (parent, _name) = split_path(path);
        let parent = match parent {
            Some(p) => p,
            None => String::new(),
        };
        let pid = match self.resolve_path(parent.as_str()) {
            Err(e) => return Err(e),
            Ok(None) => return Err(VfsError::PathNotFound),
            Ok(Some(pid)) => pid,
        };
        let pk = match self.find_node(&pid) {
            None => return Err(VfsError::NodeNotFound(pid)),
            Some(pk) => pk,
        };
        let ghost m = self.view();
        let ghost ns = self.nodes@;
        let mut pn = self.nodes.remove(pk);
        assert(unique_keys(str_pairs(ns[pk as int].children@)));
        remove_child(&mut pn.children, &node_name);
        let ghost pv = pn;
        self.nodes.insert(pk, pn);
        proof {
            assert(self.nodes@ =~= ns.update(pk as int, pv));
            assert(node_pairs(self.nodes@) =~= node_pairs(ns).update(pk as int, (ns[pk as int].id@, node_view(pv))));
            lemma_keyed_update(node_pairs(ns), pk as int, node_view(pv));
            assert forall|a: int, b: int| 0 <= a < b < node_pairs(self.nodes@).len() implies node_pairs(self.nodes@)[a].0 != node_pairs(self.nodes@)[b].0 by {
                assert(node_pairs(ns)[a].0 != node_pairs(ns)[b].0);
            }
            assert forall|j: int| 0 <= j < self.nodes@.len() implies #[trigger] unique_keys(str_pairs(self.nodes@[j].children@)) by {
                if j != pk {
                    assert(self.nodes@[j] == ns[j]);
                }
            }
        }
        match self.find_node(&id) {
            Some(k2) => {
                proof {
                    lemma_walk_not_root(m, path_parts(path@), root_id());
                    lemma_nonroot_path_has_parts(path@);
                }
                self.delete_node(k2);
            },
            None => {},
        }
        proof {
            let p = m[pid@];
            let m1 = m.insert(pid@, NodeView {
                name: p.name,
                kind: p.kind,
                parent: p.parent,
                created_at: p.created_at,
                modified_at: p.modified_at,
                metadata: p.metadata,
                children: p.children.remove(m[id@].name),
                target: p.target,
            });
            assert(self.view() =~= m1.remove(id@));
        }
        Ok(())
    }

    /// The child names of the node that `path` leads to, each once (in no
    /// particular order).
    pub fn ls(&self, path: &str) -> (r: Result<Vec<String>, VfsError>)
        requires
            self.wf(),
        ensures
            match resolve_spec(self.view(), path@) {
                Err(f) => r is Err && fail_view(r->Err_0) == f,
                Ok(None) => r is Err && fail_view(r->Err_0) == VfsFail::NotFound,
                Ok(Some(id)) => if !self.view().contains_key(id) {
                    r is Err && fail_view(r->Err_0) == VfsFail::NodeNotFound(id)
                } else {
                    &&& r is Ok
                    &&& lists_keys(r->Ok_0@, self.view()[id].children)
                },
            },
    {
        let id = match self.resolve_path(path) {
            Err(e) => return Err(e),
            Ok(None) => return Err(VfsError::NotFound),
            Ok(Some(id)) => id,
        };
        let k = match self.find_node(&id) {
            None => return Err(VfsError::NodeNotFound(id)),
            Some(k) => k,
        };
        let children = &self.nodes[k].children;
        let ghost cp = str_pairs(children@);
        assert(unique_keys(cp));
        let mut out: Vec<String> = Vec::new();
        let mut i: usize = 0;
        while i < children.len()
            invariant
                i <= children@.len(),
                cp == str_pairs(children@),
                unique_keys(cp),
                out@.len() == i,
                forall|j: int| 0 <= j < i ==> #[trigger] out@[j]@ == children@[j].0@,
            decreases children.len() - i,
        {
            out.push(children[i].0.clone());
            i += 1;
        }
        proof {
            assert(self.view()[id@].children == keyed_map(cp));
            assert forall|key: Seq<char>| #[trigger] self.view()[id@].children.contains_key(key)
                <==> exists|j: int| 0 <= j < out@.len() && out@[j]@ == key by {
                lemma_keyed_dom(cp, key);
                if keyed_map(cp).contains_key(key) {
                    let j = choose|j: int| 0 <= j < cp.len() && cp[j].0 == key;
                    assert(out@[j]@ == key);
                }
                if exists|j: int| 0 <= j < out@.len() && out@[j]@ == key {
                    let j = choose|j: int| 0 <= j < out@.len() && out@[j]@ == key;
                    assert(cp[j].0 == key);
                }
            }
            assert forall|a: int, b: int| 0 <= a < b < out@.len() implies out@[a]@ != out@[b]@ by {
                assert(cp[a].0 != cp[b].0);
            }
            assert(lists_keys(out@, self.view()[id@].children));
        }
        Ok(out)
    }

    /// The node that `path` leads to.
    pub fn get_node_by_path(&self, path: &str) -> (r: Result<&VfsNode, VfsError>)
        requires
            self.wf(),
        ensures
            match resolve_spec(self.view(), path@) {
                Err(f) => r is Err && fail_view(r->Err_0) == f,
                Ok(None) => r is Err && fail_view(r->Err_0) == VfsFail::PathNotFound,
                Ok(Some(id)) => match r {
                    Ok(n) => self.view().contains_key(id) && node_view(*n) == self.view()[id],
                    Err(e) => !self.view().contains_key(id) && fail_view(e) == VfsFail::NodeNotFound(id),
                },
            },
    {
        let id = match self.resolve_path(path) {
            Err(e) => return Err(e),
            Ok(None) => return Err(VfsError::PathNotFound),
            Ok(Some(id)) => id,
        };
        self.get_node(id.as_str())
    }
}

impl VirtualFilesystem {
    /// Creates a blob reference node for `content` (its size is recorded;
    /// the bytes themselves are stored apart, under the node id).
    pub fn mkfile(
        &mut self,
        path: &str,
        content: &[u8],
        mime: &str,
        blob_key: &str,
        node_id: &str,
        stamps: &Vec<String>,
        now: i64,
    ) -> (r: Result<(), VfsError>)
        requires
            old(self).wf(),
            stamps@.len() >= path@.len(),
            node_id@ != root_id(),
        ensures
            final(self).wf(),
            (final(self).view(), res_unit_view(r)) == create_spec(
                old(self).view(),
                path@,
                KindView::Blob { blob_key: blob_key@, size: content@.len() as u64, mime_type: mime@ },
                node_id@,
                string_views(stamps@),
                now,
            ),
    {
        let t = VfsNodeType::BlobReference { blob_key: blob_key.to_owned(), size: content.len() as u64, mime_type: mime.to_owned() };
        self.create_node_at_path(path, t, node_id, stamps, now)
    }

    /// Creates a text document node; its word count is that of `content`.
    pub fn mktext(
        &mut self,
        path: &str,
        content: &str,
        lang: &str,
        document_id: &str,
        node_id: &str,
        stamps: &Vec<String>,
        now: i64,
    ) -> (r: Result<(), VfsError>)
        requires
            old(self).wf(),
            stamps@.len() >= path@.len(),
            node_id@ != root_id(),
        ensures
            final(self).wf(),
            (final(self).view(), res_unit_view(r)) == create_spec(
                old(self).view(),
                path@,
                KindView::Text { document_id: document_id@, chunk_count: 0, word_count: word_count(content@) as usize, language: lang@ },
                node_id@,
                string_views(stamps@),
                now,
            ),
    {
        let words = count_words(content);
        let t = VfsNodeType::TextDocument {
            document_id: document_id.to_owned(),
            chunk_count: 0,
            word_count: words,
            language: lang.to_owned(),
        };
        self.create_node_at_path(path, t, node_id, stamps, now)
    }

    /// Creates a JSON document node with the given fingerprint, schema
    /// version and size.
    pub fn mkjson(
        &mut self,
        path: &str,
        doc_id: &str,
        fp: &str,
        ver: &str,
        size: usize,
        node_id: &str,
        stamps: &Vec<String>,
        now: i64,
    ) -> (r: Result<(), VfsError>)
        requires
            old(self).wf(),
            stamps@.len() >= path@.len(),
            node_id@ != root_id(),
        ensures
            final(self).wf(),
            (final(self).view(), res_unit_view(r)) == create_spec(
                old(self).view(),
                path@,
                KindView::Json { document_id: doc_id@, fingerprint: fp@, schema_version: ver@, size_bytes: size },
                node_id@,
                string_views(stamps@),
                now,
            ),
    {
        let t = VfsNodeType::JsonDocument {
            document_id: doc_id.to_owned(),
            fingerprint: fp.to_owned(),
            schema_version: ver.to_owned(),
            size_bytes: size,
        };
        self.create_node_at_path(path, t, node_id, stamps, now)
    }

    /// Creates a code document node: its line count and the names of the
    /// lines that declare functions come from `code`; no imports are
    /// recorded.
    pub fn script(
        &mut self,
        path: &str,
        code: &str,
        lang: &str,
        blob_key: &str,
        node_id: &str,
        stamps: &Vec<String>,
        now: i64,
    ) -> (r: Result<(), VfsError>)
        requires
            old(self).wf(),
            stamps@.len() >= path@.len(),
            node_id@ != root_id(),
        ensures
            final(self).wf(),
            (final(self).view(), res_unit_view(r)) == create_spec(
                old(self).view(),
                path@,
                KindView::Code {
                    blob_key: blob_key@,
                    language: lang@,
                    lines: lines_of(code@).len() as usize,
                    functions: code_functions(lines_of(code@)),
                    imports: Seq::empty(),
                },
                node_id@,
                string_views(stamps@),
                now,
            ),
    {
        let (lines, functions) = analyze_code(code);
        let imports: Vec<String> = Vec::new();
        assert(string_views(imports@) =~= Seq::<Seq<char>>::empty());
        let t = VfsNodeType::CodeDocument {
            blob_key: blob_key.to_owned(),
            language: lang.to_owned(),
            lines,
            functions,
            imports,
        };
        self.create_node_at_path(path, t, node_id, stamps, now)
    }
}

// ---------------------------------------------------------------------
// Paths made of plain names
// ---------------------------------------------------------------------

/// A plain name: not empty, no `/`, not `.` or `..`.
pub open spec fn plain_name(x: Seq<char>) -> bool {
    &&& x.len() > 0
    &&& forall|i: int| 0 <= i < x.len() ==> x[i] != '/'
    &&& x != seq!['.']
    &&& x != seq!['.', '.']
}

/// The absolute path `/s1/s2/.../sn` of the names `segs` (`/` for none).
pub open spec fn abs_path(segs: Seq<Seq<char>>) -> Seq<char>
    decreases segs.len(),
{
    if segs.len() == 0 {
        seq!['/']
    } else if segs.len() == 1 {
        seq!['/'] + segs[0]
    } else {
        abs_path(segs.drop_last()) + seq!['/'] + segs.last()
    }
}

proof fn lemma_scan_after_sep(a: Seq<char>, y: Seq<char>)
    requires
        forall|i: int| 0 <= i < y.len() ==> y[i] != '/',
    ensures
        crate::vpath::scan_parts(a + seq!['/'] + y) == (path_parts(a), y),
    decreases y.len(),
{
    if y.len() == 0 {
        assert(a + seq!['/'] + y =~= a.push('/'));
        assert(a.push('/').drop_last() =~= a);
    } else {
        lemma_scan_after_sep(a, y.drop_last());
        assert((a + seq!['/'] + y).drop_last() =~= a + seq!['/'] + y.drop_last());
        assert(y.drop_last().push(y.last()) =~= y);
    }
}

proof fn lemma_abs_path_facts(segs: Seq<Seq<char>>)
    requires
        forall|i: int| 0 <= i < segs.len() ==> plain_name(#[trigger] segs[i]),
    ensures
        has_root(abs_path(segs)),
        segs.len() > 0 ==> abs_path(segs).len() > 1 && abs_path(segs).last() != '/',
        path_parts(abs_path(segs)) == segs,
        segs.len() > 0 ==> path_file_name(abs_path(segs)) == Some(segs.last()),
        segs.len() > 0 ==> path_parent(abs_path(segs)) == Some(abs_path(segs.drop_last())),
        crate::vpath::trim_back(abs_path(segs)) == abs_path(segs),
    decreases segs.len(),
{
    let p = abs_path(segs);
    if segs.len() == 0 {
        assert(crate::vpath::scan_parts(seq!['/']) == (Seq::<Seq<char>>::empty(), Seq::<char>::empty())) by {
            assert(seq!['/'].drop_last() =~= Seq::<char>::empty());
            assert(crate::vpath::scan_parts(Seq::<char>::empty()) == (Seq::<Seq<char>>::empty(), Seq::<char>::empty()));
            assert(seq!['/'].last() == '/');
        }
        assert(path_parts(p) =~= segs);
    } else {
        let y = segs.last();
        assert(plain_name(segs[segs.len() - 1]));
        let prev = segs.drop_last();
        assert forall|i: int| 0 <= i < prev.len() implies plain_name(#[trigger] prev[i]) by {
            assert(prev[i] == segs[i]);
        }
        lemma_abs_path_facts(prev);
        let a = abs_path(prev);
        let a0: Seq<char> = if segs.len() == 1 { Seq::empty() } else { a };
        assert(p =~= a0 + seq!['/'] + y);
        // the parts
        lemma_scan_after_sep(a0, y);
        if segs.len() == 1 {
            assert(crate::vpath::scan_parts(Seq::<char>::empty()) == (Seq::<Seq<char>>::empty(), Seq::<char>::empty()));
            assert(path_parts(Seq::<char>::empty()) =~= Seq::<Seq<char>>::empty());
        }
        assert(path_parts(p) =~= prev.push(y));
        assert(prev.push(y) =~= segs);
        // the last separator
        crate::vpath::lemma_last_sep(p);
        let ls = crate::vpath::last_sep(p);
        assert(p[a0.len() as int] == '/');
        assert forall|k: int| a0.len() < k < p.len() implies p[k] != '/' by {
            assert(p[k] == y[k - a0.len() - 1]);
        }
        if ls != a0.len() {
            if ls < a0.len() {
                assert(p[a0.len() as int] != '/');
            } else {
                assert(p[ls] != '/');
            }
        }
        assert(crate::vpath::last_piece(p) =~= y);
        assert(p.len() > 1);
        assert(p.last() == y.last());
        assert(!crate::vpath::is_void_piece(y));
        assert(crate::vpath::trim_back(p) == p);
        assert(path_file_name(p) == Some(y));
        let c = crate::vpath::cut_piece(p);
        if segs.len() == 1 {
            assert(c =~= seq!['/']);
            assert(crate::vpath::trim_back(seq!['/']) == seq!['/']);
            assert(abs_path(prev) == seq!['/']);
        } else {
            assert(a.len() > 1);
            assert(c =~= a);
        }
    }
}

/// Walking the same parts through a map that agrees on the nodes the walk
/// visits gives the same result.
proof fn lemma_walk_after_add(
    m: Map<Seq<char>, NodeView>,
    m2: Map<Seq<char>, NodeView>,
    parts: Seq<Seq<char>>,
    cur: Seq<char>,
    pid: Seq<char>,
    name: Seq<char>,
    nid: Seq<char>,
)
    requires
        resolve_walk(m, parts, cur) == Ok::<Option<Seq<char>>, VfsFail>(Some(pid)),
        m.contains_key(pid),
        !m[pid].children.contains_key(name),
        !m.contains_key(nid),
        forall|id: Seq<char>| #[trigger] m2.contains_key(id) <==> (m.contains_key(id) || id == nid),
        forall|id: Seq<char>| m.contains_key(id) && id != pid ==> #[trigger] m2[id] == m[id],
        m2.contains_key(pid) && m2[pid].children == m[pid].children.insert(name, nid),
    ensures
        resolve_walk(m2, parts, cur) == Ok::<Option<Seq<char>>, VfsFail>(Some(pid)),
    decreases parts.len(),
{
    if parts.len() > 0 {
        assert(m.contains_key(cur));
        assert(m[cur].children.contains_key(parts[0]));
        if cur == pid {
            assert(parts[0] != name);
            assert(m2[cur].children[parts[0]] == m[cur].children[parts[0]]);
        } else {
            assert(m2[cur] == m[cur]);
        }
        lemma_walk_after_add(m, m2, parts.drop_first(), m[cur].children[parts[0]], pid, name, nid);
    }
}

/// A walk that ends at a node, extended by one part found among that
/// node's children, ends at that child.
proof fn lemma_walk_extend(m: Map<Seq<char>, NodeView>, parts: Seq<Seq<char>>, cur: Seq<char>, pid: Seq<char>, name: Seq<char>)
    requires
        resolve_walk(m, parts, cur) == Ok::<Option<Seq<char>>, VfsFail>(Some(pid)),
    ensures
        resolve_walk(m, parts.push(name), cur) == (if !m.contains_key(pid) {
            Err::<Option<Seq<char>>, VfsFail>(VfsFail::NodeNotFound(pid))
        } else if !m[pid].children.contains_key(name) {
            Ok(None)
        } else {
            Ok(Some(m[pid].children[name]))
        }),
    decreases parts.len(),
{
    if parts.len() == 0 {
        assert(parts.push(name).drop_first() =~= Seq::<Seq<char>>::empty());
        assert(parts.push(name)[0] == name);
        if m.contains_key(pid) && m[pid].children.contains_key(name) {
            assert(resolve_walk(m, Seq::<Seq<char>>::empty(), m[pid].children[name]) == Ok::<Option<Seq<char>>, VfsFail>(Some(m[pid].children[name])));
        }
    } else {
        assert(parts.push(name).drop_first() =~= parts.drop_first().push(name));
        assert(parts.push(name)[0] == parts[0]);
        lemma_walk_extend(m, parts.drop_first(), m[cur].children[parts[0]], pid, name);
    }
}

/// A folder made by `mkdir` is found at its path afterwards (for a path of
/// plain names, when the new folder's id was not in use): what a read of
/// the path gives back of the write.
pub proof fn lemma_mkdir_then_resolve(m: Map<Seq<char>, NodeView>, segs: Seq<Seq<char>>, stamp: Seq<char>, now: i64)
    requires
        segs.len() > 0,
        forall|i: int| 0 <= i < segs.len() ==> plain_name(#[trigger] segs[i]),
        !m.contains_key(folder_id(segs.last(), stamp)),
        mkdir_spec(m, abs_path(segs), stamp, now).1 is Ok,
    ensures
        resolve_spec(mkdir_spec(m, abs_path(segs), stamp, now).0, abs_path(segs))
            == Ok::<Option<Seq<char>>, VfsFail>(Some(folder_id(segs.last(), stamp))),
{
    let p = abs_path(segs);
    let prev = segs.drop_last();
    let name = segs.last();
    lemma_abs_path_facts(segs);
    assert forall|i: int| 0 <= i < prev.len() implies plain_name(#[trigger] prev[i]) by {
        assert(prev[i] == segs[i]);
    }
    lemma_abs_path_facts(prev);
    let pp = abs_path(prev);
    assert(path_parent(p) == Some(pp));
    assert(path_file_name(p) == Some(name));
    if prev.len() > 0 {
        assert(!(pp.len() > 1 && pp.last() == '/'));
    } else {
        assert(pp == seq!['/']);
    }
    assert(resolve_spec(m, pp) == resolve_walk(m, prev, root_id()));
    let pid = resolve_walk(m, prev, root_id())->Ok_0->0;
    let nid = folder_id(name, stamp);
    let m1 = m.insert(nid, folder_view(name, Some(pid), now));
    lemma_folder_id_not_root(name, stamp);
    let m2 = mkdir_spec(m, p, stamp, now).0;
    assert(m.contains_key(pid));
    assert(nid != pid);
    assert(m2 == add_child_spec(m1, pid, name, nid, now)->Ok_0);
    assert(segs =~= prev.push(name));
    lemma_walk_extend(m, prev, root_id(), pid, name);
    assert(resolve_spec(m, p) == resolve_walk(m, segs, root_id()));
    assert(!m[pid].children.contains_key(name));
    assert forall|id: Seq<char>| #[trigger] m2.contains_key(id) <==> (m.contains_key(id) || id == nid) by {}
    assert forall|id: Seq<char>| m.contains_key(id) && id != pid implies #[trigger] m2[id] == m[id] by {}
    lemma_walk_after_add(m, m2, prev, root_id(), pid, name, nid);
    lemma_walk_extend(m2, prev, root_id(), pid, name);
    assert(resolve_spec(m2, p) == resolve_walk(m2, segs, root_id()));
}

/// Walks depend only on which nodes there are and on their children.
proof fn lemma_walk_same_children(m: Map<Seq<char>, NodeView>, m2: Map<Seq<char>, NodeView>, parts: Seq<Seq<char>>, cur: Seq<char>)
    requires
        m.dom() == m2.dom(),
        forall|id: Seq<char>| #[trigger] m.contains_key(id) ==> m2[id].children == m[id].children,
    ensures
        resolve_walk(m2, parts, cur) == resolve_walk(m, parts, cur),
    decreases parts.len(),
{
    if parts.len() > 0 && m.contains_key(cur) {
        assert(m2.contains_key(cur));
        assert(m2[cur].children == m[cur].children);
        if m[cur].children.contains_key(parts[0]) {
            lemma_walk_same_children(m, m2, parts.drop_first(), m[cur].children[parts[0]]);
        }
    } else if parts.len() > 0 {
        assert(!m2.contains_key(cur));
    }
}

/// `rm` undoes `mkdir` (for a path of plain names, when the new folder's
/// id was not in use): afterwards the path leads nowhere again, and every
/// node is as before but for the parent's modification time.
pub proof fn lemma_mkdir_then_rm(m: Map<Seq<char>, NodeView>, segs: Seq<Seq<char>>, stamp: Seq<char>, now: i64)
    requires
        segs.len() > 0,
        forall|i: int| 0 <= i < segs.len() ==> plain_name(#[trigger] segs[i]),
        !m.contains_key(folder_id(segs.last(), stamp)),
        mkdir_spec(m, abs_path(segs), stamp, now).1 is Ok,
    ensures
        ({
            let m2 = mkdir_spec(m, abs_path(segs), stamp, now).0;
            let r = rm_spec(m2, abs_path(segs));
            let pid = resolve_spec(m, path_parent(abs_path(segs))->0)->Ok_0->0;
            &&& r.1 is Ok
            &&& resolve_spec(r.0, abs_path(segs)) == Ok::<Option<Seq<char>>, VfsFail>(None)
            &&& r.0.dom() == m.dom()
            &&& forall|id: Seq<char>| #[trigger] m.contains_key(id) && id != pid ==> r.0[id] == m[id]
            &&& r.0[pid].children == m[pid].children
            &&& r.0[pid].modified_at == now
        }),
{
    let p = abs_path(segs);
    let prev = segs.drop_last();
    let name = segs.last();
    lemma_mkdir_then_resolve(m, segs, stamp, now);
    lemma_abs_path_facts(segs);
    assert forall|i: int| 0 <= i < prev.len() implies plain_name(#[trigger] prev[i]) by {
        assert(prev[i] == segs[i]);
    }
    lemma_abs_path_facts(prev);
    let pp = abs_path(prev);
    if prev.len() > 0 {
        assert(!(pp.len() > 1 && pp.last() == '/'));
    } else {
        assert(pp == seq!['/']);
    }
    let pid = resolve_walk(m, prev, root_id())->Ok_0->0;
    let nid = folder_id(name, stamp);
    lemma_folder_id_not_root(name, stamp);
    let m1 = m.insert(nid, folder_view(name, Some(pid), now));
    let m2 = mkdir_spec(m, p, stamp, now).0;
    assert(m2 == add_child_spec(m1, pid, name, nid, now)->Ok_0);
    assert(segs =~= prev.push(name));
    lemma_walk_extend(m, prev, root_id(), pid, name);
    assert(!m[pid].children.contains_key(name));
    // the path leads to the new folder, which has no children
    assert(resolve_spec(m2, p) == Ok::<Option<Seq<char>>, VfsFail>(Some(nid)));
    assert(p != seq!['/']);
    assert(m2.contains_key(nid));
    assert(!has_children(m2[nid]));
    // the parent path still leads to the parent
    assert forall|id: Seq<char>| #[trigger] m2.contains_key(id) <==> (m.contains_key(id) || id == nid) by {}
    assert forall|id: Seq<char>| m.contains_key(id) && id != pid implies #[trigger] m2[id] == m[id] by {}
    lemma_walk_after_add(m, m2, prev, root_id(), pid, name, nid);
    assert(resolve_spec(m2, pp) == Ok::<Option<Seq<char>>, VfsFail>(Some(pid)));
    let r = rm_spec(m2, p);
    let p2 = m2[pid];
    let m3a = m2.insert(pid, NodeView {
        name: p2.name,
        kind: p2.kind,
        parent: p2.parent,
        created_at: p2.created_at,
        modified_at: p2.modified_at,
        metadata: p2.metadata,
        children: p2.children.remove(m2[nid].name),
        target: p2.target,
    });
    assert(r.0 == m3a.remove(nid));
    assert(m2[nid].name == name);
    assert(p2.children.remove(name) =~= m[pid].children);
    assert(r.0.dom() =~= m.dom());
    assert forall|id: Seq<char>| #[trigger] m.contains_key(id) implies r.0[id].children == m[id].children by {
        if id != pid {
            assert(r.0[id] == m[id]);
        }
    }
    lemma_walk_same_children(m, r.0, segs, root_id());
    assert(resolve_spec(m, p) == resolve_walk(m, segs, root_id()));
    assert(resolve_spec(r.0, p) == resolve_walk(r.0, segs, root_id()));
}

} // verus!
