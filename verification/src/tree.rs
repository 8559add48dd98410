//! The aggregate: an ordered collection of nodes keyed by their hierarchical
//! identifiers, with creation, linking, navigation, recency listing, and the
//! rebalance cascade that keeps identifiers and cross-references consistent
//! when a sibling group's size crosses a power of ten.
//!
//! Every mutating operation works on the in-memory collection and returns
//! the filesystem effects it asks for; the caller performs them in order, so
//! a cascade is computed whole before anything touches the disk.

use vstd::prelude::*;

use crate::chars::chars_to_string;
use crate::chars::extend_chars;
use crate::chars::extend_str;
use crate::chars::rfind_char;
use crate::chars::rindex_of_char;
use crate::chars::str_chars;
use crate::chars::subvec;
use crate::chars::contains_char;
use crate::link::NodeLink;
use crate::link::NodeLinkV;
use crate::node::FsOp;
use crate::node::FsOpV;
use crate::node::Node;
use crate::node::NodeV;
use crate::node::key_index;
use crate::node::key_index_ok;
use crate::node::key_index_exec;
use crate::node::backlink_pos;
use crate::node::link_pos;
use crate::node::lemma_link_pos;
use crate::node::lemma_backlink_pos;
use crate::node::upsert_link;
use crate::node::upsert_backlink;
use crate::node::ticked_updates;
use crate::node::meta_path_of;
use crate::node::meta_of;
use crate::meta::meta_text;
use vstd::utf8::encode_utf8;
use crate::ident::name_linked;
use crate::ident::pow10_exp;
use crate::ident::lemma_pow10_exp_unique;
use crate::ident::slug_of;
use crate::ident::prepare_path_name;
use crate::ident::join_with;
use crate::ident::lemma_join_with_push;
use crate::ident::split_char;
use crate::ident::split_char_exec;
use crate::ident::views;
use crate::chars::dec_of_pad;
use crate::chars::dec_of;
use crate::chars::find_char;
use crate::chars::fmt_u64_pad;
use crate::chars::index_of_char;
use crate::chars::match_at_exec;
use crate::node::child_key;
use crate::node::root_key;
use crate::node::content_path_of;
use crate::node::node_dir_of;
use crate::node::heading_of;
use crate::node::seg_name_part;
use crate::node::seg_num_part;
use crate::node::tail_seg;
use crate::node::link_views;
use crate::node::op_views;
use crate::stamp::Stamp;

verus! {

// ---------------------------------------------------------------------------
// Errors
// ---------------------------------------------------------------------------

/// What went wrong: a referenced key was absent, the call shape was
/// malformed, a file operation failed, or persisted data did not parse.
#[derive(Debug, Clone, Copy, PartialEq, Eq, Structural)]
pub enum TreeErrorKind {
    NotFound,
    InvalidArgs,
    Io,
    Parse,
}

/// An error from a tree operation, with a human-readable account.
#[derive(Debug)]
pub struct TreeError {
    pub kind: TreeErrorKind,
    pub err_text: String,
}

impl TreeError {
    pub fn new(kind: TreeErrorKind, err_text: String) -> (r: TreeError)
        ensures
            r.kind == kind,
            r.err_text@ == err_text@,
    {
        TreeError { kind, err_text }
    }

    /// The account, for display at the boundary.
    pub fn text(&self) -> (r: String)
        ensures
            r@ == self.err_text@,
    {
        self.err_text.clone()
    }
}

/// A node directory that lacks its content file, its metadata file or both.
#[derive(Debug)]
pub struct NodeFilesMissingError {
    pub content_file_exists: bool,
    pub metadata_file_exists: bool,
    pub node: String,
}

/// What `NodeFilesMissingError::err_text` says for each combination.
pub open spec fn missing_text(content: bool, meta: bool, node: Seq<char>) -> Seq<char> {
    (if !content && meta {
        "Missing `_.md` for "@
    } else if content && !meta {
        "Missing `meta.toml` for "@
    } else {
        "Missing `_.md` and `meta.toml` for "@
    }) + " "@ + node
}

impl NodeFilesMissingError {
    /// Says which of the two per-node files are missing.
    pub fn err_text(&self) -> (r: String)
        ensures
            r@ == missing_text(self.content_file_exists, self.metadata_file_exists, self.node@),
    {
        let mut out: Vec<char> = Vec::new();
        if !self.content_file_exists && self.metadata_file_exists {
            extend_str(&mut out, "Missing `_.md` for ");
        } else if self.content_file_exists && !self.metadata_file_exists {
            extend_str(&mut out, "Missing `meta.toml` for ");
        } else {
            extend_str(&mut out, "Missing `_.md` and `meta.toml` for ");
        }
        extend_str(&mut out, " ");
        extend_str(&mut out, self.node.as_str());
        proof {
            assert(out@ =~= missing_text(
                self.content_file_exists,
                self.metadata_file_exists,
                self.node@,
            ));
        }
        chars_to_string(&out)
    }
}

// ---------------------------------------------------------------------------
// Keys and parents
// ---------------------------------------------------------------------------

/// The parent key written inside a key: everything before the last slash.
pub open spec fn key_parent(id: Seq<char>) -> Option<Seq<char>> {
    if rfind_char(id, '/') < 0 {
        None
    } else {
        Some(id.take(rfind_char(id, '/')))
    }
}

/// The parent key of a key, or none at the root.
pub fn get_parent(key: &String) -> (r: Option<String>)
    ensures
        match r {
            Some(p) => key_parent(key@) == Some(p@),
            None => key_parent(key@) is None,
        },
{
    let cs = str_chars(key.as_str());
    match rindex_of_char(&cs, '/') {
        Some(i) => {
            let p = subvec(&cs, 0, i);
            proof {
                assert(p@ =~= key@.take(rfind_char(key@, '/')));
            }
            Some(chars_to_string(&p))
        },
        None => None,
    }
}

/// The numeric index in the final segment of a child key.  The key must
/// hold a slash and a well-formed `<index>-<slug>` tail, as every child key
/// in a well-formed tree does.
pub fn get_node_key_number(node_key: &String) -> (r: u64)
    requires
        key_parent(node_key@) is Some,
        key_index_ok(node_key@),
    ensures
        r == key_index(node_key@),
{
    match key_index_exec(node_key) {
        Some(x) => x,
        None => {
            proof {
                assert(false);
            }
            0
        },
    }
}

// ---------------------------------------------------------------------------
// The tree
// ---------------------------------------------------------------------------

/// The aggregate: nodes in insertion order, the two anchors, and the root
/// directory all identifiers are relative to.
#[derive(Debug)]
pub struct Tree {
    pub nodes: Vec<Node>,
    pub journal: String,
    pub desk: String,
    pub dir: String,
}

/// The views of a sequence of nodes.
pub open spec fn node_views(nodes: Seq<Node>) -> Seq<NodeV> {
    nodes.map_values(|n: Node| n@)
}

/// First position holding the id, or -1.
pub open spec fn find_id(nodes: Seq<NodeV>, id: Seq<char>) -> int
    decreases nodes.len(),
{
    if nodes.len() == 0 {
        -1
    } else if nodes[0].id == id {
        0
    } else {
        let r = find_id(nodes.skip(1), id);
        if r < 0 {
            -1
        } else {
            r + 1
        }
    }
}

pub open spec fn has_id(nodes: Seq<NodeV>, id: Seq<char>) -> bool {
    find_id(nodes, id) >= 0
}

pub proof fn lemma_find_id(nodes: Seq<NodeV>, id: Seq<char>)
    ensures
        find_id(nodes, id) >= 0 ==> {
            let i = find_id(nodes, id);
            0 <= i < nodes.len() && nodes[i].id == id && forall|j: int|
                0 <= j < i ==> nodes[j].id != id
        },
        find_id(nodes, id) < 0 ==> (forall|j: int| 0 <= j < nodes.len() ==> nodes[j].id != id)
            && find_id(nodes, id) == -1,
    decreases nodes.len(),
{
    if nodes.len() > 0 && nodes[0].id != id {
        lemma_find_id(nodes.skip(1), id);
        let r = find_id(nodes.skip(1), id);
        if r >= 0 {
            assert(nodes.skip(1)[r] == nodes[r + 1]);
            assert forall|j: int| 0 <= j < r + 1 implies nodes[j].id != id by {
                if j > 0 {
                    assert(nodes.skip(1)[j - 1] == nodes[j]);
                }
            }
        } else {
            assert forall|j: int| 0 <= j < nodes.len() implies nodes[j].id != id by {
                if j > 0 {
                    assert(nodes.skip(1)[j - 1] == nodes[j]);
                }
            }
        }
    }
}

impl Tree {
    /// The mathematical content of the node collection.
    pub open spec fn view_nodes(&self) -> Seq<NodeV> {
        node_views(self.nodes@)
    }

    /// Distinct identifiers; every identifier structurally well formed;
    /// parent pointers matching the identifier structure; every child entry
    /// present, pointing back, and aligned with its one-based position; and
    /// every non-root node listed by its parent.
    pub open spec fn wf(&self) -> bool {
        let ns = self.view_nodes();
        &&& (forall|i: int, j: int| 0 <= i < j < ns.len() ==> ns[i].id != ns[j].id)
        &&& (forall|i: int|
            0 <= i < ns.len() ==> crate::ident::segs_dashed(#[trigger] ns[i].id) && key_index_ok(
                ns[i].id,
            ))
        &&& (forall|i: int| 0 <= i < ns.len() ==> (#[trigger] ns[i].parent) == key_parent(ns[i].id))
        &&& (forall|i: int, k: int|
            0 <= i < ns.len() && 0 <= k < ns[i].children.len() ==> {
                &&& key_parent(#[trigger] ns[i].children[k]) == Some(ns[i].id)
                &&& has_id(ns, ns[i].children[k])
                &&& key_index_ok(ns[i].children[k])
                &&& key_index(ns[i].children[k]) == k + 1
            })
        &&& (forall|i: int|
            0 <= i < ns.len() && ns[i].parent is Some ==> {
                let p = find_id(ns, ns[i].parent->Some_0);
                &&& has_id(ns, ns[i].parent->Some_0)
                &&& contains_seq(ns[p].children, ns[i].id)
            })
    }

    /// Whether a key is present.
    pub open spec fn spec_has(&self, id: Seq<char>) -> bool {
        has_id(self.view_nodes(), id)
    }

    /// The node stored under a key.
    pub open spec fn spec_get(&self, id: Seq<char>) -> NodeV {
        self.view_nodes()[find_id(self.view_nodes(), id)]
    }

    /// Finds the position of a key.
    pub fn find_node(&self, key: &str) -> (r: Option<usize>)
        ensures
            match r {
                Some(i) => i == find_id(self.view_nodes(), key@) && i < self.nodes@.len()
                    && self.view_nodes()[i as int].id == key@,
                None => !self.spec_has(key@),
            },
    {
        let k = String::from_str(key);
        let mut i: usize = 0;
        while i < self.nodes.len()
            invariant
                k@ == key@,
                i <= self.nodes@.len(),
                forall|j: int| 0 <= j < i ==> node_views(self.nodes@)[j].id != key@,
            decreases self.nodes@.len() - i,
        {
            proof {
                assert(node_views(self.nodes@)[i as int] == self.nodes@[i as int]@);
            }
            if self.nodes[i].id == k {
                proof {
                    lemma_find_id(self.view_nodes(), key@);
                }
                return Some(i);
            }
            i = i + 1;
        }
        proof {
            lemma_find_id(self.view_nodes(), key@);
        }
        None
    }

    /// An empty tree rooted at a directory.  The directory must not end
    /// with a slash, and must not be empty.
    pub fn build(root: &str) -> (r: Tree)
        requires
            root@.len() > 0,
            root@.last() != '/',
        ensures
            r.view_nodes() =~= Seq::<NodeV>::empty(),
            r.journal@ == Seq::<char>::empty(),
            r.desk@ == Seq::<char>::empty(),
            r.dir@ == root@,
    {
        Tree {
            nodes: Vec::new(),
            journal: String::new(),
            desk: String::new(),
            dir: String::from_str(root),
        }
    }

    /// The key of the newest journal entry: the last child of the journal
    /// anchor, which must exist and have children.
    pub fn latest_journal(&self) -> (r: String)
        requires
            self.spec_has(self.journal@),
            self.spec_get(self.journal@).children.len() > 0,
        ensures
            r@ == self.spec_get(self.journal@).children.last(),
    {
        let i = match self.find_node(self.journal.as_str()) {
            Some(i) => i,
            None => {
                proof {
                    assert(false);
                }
                0
            },
        };
        let node = &self.nodes[i];
        proof {
            assert(node_views(self.nodes@)[i as int] == self.nodes@[i as int]@);
        }
        let last = node.children.len() - 1;
        proof {
            assert(node@.children[last as int] == node.children@[last as int]@);
        }
        node.children[last].clone()
    }

    /// The parent key of a node in the tree, or none.
    pub fn node_parent(&self, id: &str) -> (r: Option<String>)
        ensures
            match r {
                Some(p) => self.spec_has(id@) && self.spec_get(id@).parent == Some(p@),
                None => !self.spec_has(id@) || self.spec_get(id@).parent is None,
            },
    {
        match self.find_node(id) {
            Some(i) => {
                proof {
                    assert(node_views(self.nodes@)[i as int] == self.nodes@[i as int]@);
                }
                match &self.nodes[i].parent {
                    Some(p) => Some(p.clone()),
                    None => None,
                }
            },
            None => None,
        }
    }

    /// The target key and line of the link stored under `text` on the node
    /// stored under `name`; nothing when either is absent.
    pub fn get_link(&self, name: &str, text: &str) -> (r: Option<(String, u64)>)
        ensures
            match r {
                Some((target, line)) => {
                    &&& self.spec_has(name@)
                    &&& crate::node::link_pos(self.spec_get(name@).links, text@) >= 0
                    &&& {
                        let l = self.spec_get(name@).links[crate::node::link_pos(
                            self.spec_get(name@).links,
                            text@,
                        )];
                        l.node == target@ && l.line == line as int
                    }
                },
                None => !self.spec_has(name@) || crate::node::link_pos(
                    self.spec_get(name@).links,
                    text@,
                ) < 0,
            },
    {
        let i = match self.find_node(name) {
            Some(i) => i,
            None => {
                return None;
            },
        };
        proof {
            assert(node_views(self.nodes@)[i as int] == self.nodes@[i as int]@);
        }
        let node = &self.nodes[i];
        let mut j: usize = 0;
        let t = String::from_str(text);
        while j < node.links.len()
            invariant
                t@ == text@,
                self.spec_has(name@),
                self.spec_get(name@) == node@,
                j <= node.links@.len(),
                forall|k: int| 0 <= k < j ==> link_views(node.links@)[k].text != text@,
            decreases node.links@.len() - j,
        {
            proof {
                assert(link_views(node.links@)[j as int] == node.links@[j as int]@);
            }
            if node.links[j].text == t {
                proof {
                    crate::node::lemma_link_pos(node@.links, text@);
                }
                return Some((node.links[j].node.clone(), node.links[j].line));
            }
            j = j + 1;
        }
        proof {
            crate::node::lemma_link_pos(node@.links, text@);
        }
        None
    }

    /// Steps cyclically through a sibling group: from position i (1-based),
    /// the previous sibling is at i-1 and the next at i+1, wrapping into
    /// [1, family size].  A node with no parent is its own neighbour.
    pub fn next_sibling(&self, node: &str, previous: bool) -> (r: String)
        requires
            self.wf(),
            self.spec_has(node@),
        ensures
            ({
                let n = self.spec_get(node@);
                match n.parent {
                    None => r@ == n.id,
                    Some(pk) => {
                        let fam = self.spec_get(pk).children;
                        let i = key_index(n.id) as int;
                        let shifted = if previous {
                            i - 1
                        } else {
                            i + 1
                        };
                        let wrapped = if shifted % (fam.len() as int) == 0 {
                            fam.len() as int
                        } else {
                            shifted % (fam.len() as int)
                        };
                        r@ == fam[wrapped - 1]
                    },
                }
            }),
    {
        let ci = match self.find_node(node) {
            Some(i) => i,
            None => {
                proof {
                    assert(false);
                }
                0
            },
        };
        proof {
            assert(node_views(self.nodes@)[ci as int] == self.nodes@[ci as int]@);
        }
        let parent_key = match &self.nodes[ci].parent {
            None => {
                return self.nodes[ci].id.clone();
            },
            Some(p) => p.clone(),
        };
        let pi = match self.find_node(parent_key.as_str()) {
            Some(i) => i,
            None => {
                proof {
                    lemma_find_id(self.view_nodes(), parent_key@);
                    assert(false);
                }
                0
            },
        };
        proof {
            assert(node_views(self.nodes@)[pi as int] == self.nodes@[pi as int]@);
        }
        let family_size = self.nodes[pi].children.len();
        proof {
            // the node sits in its parent's family, so its index is within
            // [1, family_size]
            let ns = self.view_nodes();
            let n = ns[ci as int];
            assert(contains_seq(ns[pi as int].children, n.id));
            let k = choose|k: int|
                0 <= k < ns[pi as int].children.len() && ns[pi as int].children[k] == n.id;
            assert(key_index(ns[pi as int].children[k]) == k + 1);
            assert(1 <= key_index(n.id) <= family_size);
        }
        let index = get_node_key_number(&self.nodes[ci].id);
        let fam: u64 = family_size as u64;
        let sibling_index: u64 = if previous {
            if index == 1 {
                fam
            } else {
                index - 1
            }
        } else {
            if index == fam {
                1
            } else {
                index + 1
            }
        };
        proof {
            let i = key_index(self.spec_get(node@).id) as int;
            let f = fam as int;
            assert(1 <= i <= f);
            if previous {
                if i == 1 {
                    assert((i - 1) % f == 0) by (nonlinear_arith)
                        requires
                            i == 1,
                            f >= 1,
                    ;
                } else {
                    assert((i - 1) % f == i - 1) by (nonlinear_arith)
                        requires
                            1 <= i - 1 < f,
                    ;
                }
            } else {
                if i == f {
                    assert((i + 1) % f == (1int) % f) by (nonlinear_arith)
                        requires
                            i == f,
                            f >= 1,
                    ;
                    if f == 1 {
                        assert((1int) % f == 0) by (nonlinear_arith)
                            requires
                                f == 1,
                        ;
                    } else {
                        assert((1int) % f == 1) by (nonlinear_arith)
                            requires
                                f >= 2,
                        ;
                    }
                } else {
                    if i + 1 == f {
                        assert((i + 1) % f == 0) by (nonlinear_arith)
                            requires
                                i + 1 == f,
                                f >= 1,
                        ;
                    } else {
                        assert((i + 1) % f == i + 1) by (nonlinear_arith)
                            requires
                                1 <= i + 1 < f,
                        ;
                    }
                }
            }
        }
        proof {
            assert(self.nodes@[pi as int]@.children[sibling_index - 1] == self.nodes@[pi as int].children@[
                sibling_index as int - 1]@);
        }
        self.nodes[pi].children[(sibling_index - 1) as usize].clone()
    }
}

/// Whether a sequence of keys holds the given key.
pub open spec fn contains_seq(ss: Seq<Seq<char>>, t: Seq<char>) -> bool {
    exists|i: int| 0 <= i < ss.len() && ss[i] == t
}


// ---------------------------------------------------------------------------
// Linking
// ---------------------------------------------------------------------------

/// After an upsert, the table holds the inserted link under its text: a
/// lookup by that text lands exactly on it.
pub proof fn lemma_upsert_link_found(links: Seq<NodeLinkV>, l: NodeLinkV)
    ensures
        link_pos(upsert_link(links, l), l.text) >= 0,
        upsert_link(links, l)[link_pos(upsert_link(links, l), l.text)] == l,
{
    lemma_link_pos(links, l.text);
    let i = link_pos(links, l.text);
    let r = upsert_link(links, l);
    if i >= 0 {
        lemma_link_pos(r, l.text);
        let k = link_pos(r, l.text);
        assert(r[i] == l);
        assert(k >= 0);
        assert(k <= i);
        assert forall|j: int| 0 <= j < i implies r[j].text != l.text by {
            assert(r[j] == links[j]);
        }
        assert(k >= i);
    } else {
        lemma_link_pos(r, l.text);
        let k = link_pos(r, l.text);
        assert(r[links.len() as int] == l);
        assert(k >= 0);
        assert(k <= links.len());
        assert forall|j: int| 0 <= j < links.len() implies r[j].text != l.text by {
            assert(r[j] == links[j]);
        }
        assert(k >= links.len());
    }
}

/// After an upsert into a backlink table whose (text, timestamp) keys are
/// distinct, there is exactly one entry under the inserted key, and it is
/// the inserted backlink.
pub proof fn lemma_upsert_backlink_unique(links: Seq<NodeLinkV>, b: NodeLinkV)
    requires
        forall|i: int, j: int|
            0 <= i < j < links.len() ==> !(links[i].text == links[j].text && links[i].timestamp
                == links[j].timestamp),
    ensures
        ({
            let r = upsert_backlink(links, b);
            let p = backlink_pos(r, b.text, b.timestamp);
            &&& p >= 0
            &&& r[p] == b
            &&& forall|k: int|
                0 <= k < r.len() && k != p ==> !(r[k].text == b.text && r[k].timestamp
                    == b.timestamp)
        }),
{
    lemma_backlink_pos(links, b.text, b.timestamp);
    let i = backlink_pos(links, b.text, b.timestamp);
    let r = upsert_backlink(links, b);
    lemma_backlink_pos(r, b.text, b.timestamp);
    let p = backlink_pos(r, b.text, b.timestamp);
    if i >= 0 {
        assert(r[i] == b);
        assert forall|j: int| 0 <= j < i implies r[j] == links[j] by {}
        assert(p >= 0);
        assert(p <= i);
        assert(p >= i);
        assert forall|k: int|
            0 <= k < r.len() && k != i implies !(r[k].text == b.text && r[k].timestamp
            == b.timestamp) by {
            assert(r[k] == links[k]);
            if k < i {
            } else {
                // a second entry under the key would break distinctness
                assert(links[i].text == b.text && links[i].timestamp == b.timestamp);
            }
        }
    } else {
        assert(r[links.len() as int] == b);
        assert forall|j: int| 0 <= j < links.len() implies r[j] == links[j] by {}
        assert(p >= 0);
        assert(p <= links.len());
        assert(p >= links.len());
        assert forall|k: int|
            0 <= k < r.len() && k != links.len() implies !(r[k].text == b.text && r[k].timestamp
            == b.timestamp) by {
            assert(r[k] == links[k]);
        }
    }
}


/// What a successful link call does, for a given shared creation timestamp:
/// the link lands on the source keyed by its text, the backlink on the
/// target keyed by text and timestamp, both endpoints are ticked and
/// persisted, and nothing else changes.
pub open spec fn linked_outcome(
    pre: Tree,
    post: Tree,
    ops: Seq<FsOpV>,
    text: Seq<char>,
    from: Seq<char>,
    from_line: int,
    from_char: int,
    to: Seq<char>,
    to_line: int,
    to_char: int,
    ts: int,
    now: Stamp,
) -> bool {
    let ns0 = pre.view_nodes();
    let fi = find_id(ns0, from);
    let ti = find_id(ns0, to);
    let l = NodeLinkV {
        node: to,
        text: text,
        timestamp: ts,
        line: to_line,
        col: to_char,
        is_name_linked: name_linked(encode_utf8(text), encode_utf8(to)),
    };
    let b = NodeLinkV {
        node: from,
        text: text,
        timestamp: ts,
        line: from_line,
        col: from_char,
        is_name_linked: name_linked(encode_utf8(text), encode_utf8(to)),
    };
    &&& has_id(ns0, from)
    &&& has_id(ns0, to)
    &&& post.journal == pre.journal && post.desk == pre.desk && post.dir == pre.dir
    &&& post.view_nodes().len() == ns0.len()
    &&& (forall|k: int|
        0 <= k < ns0.len() && k != fi && k != ti ==> post.view_nodes()[k] == ns0[k])
    &&& if fi == ti {
        let mid = NodeV {
            links: upsert_link(ns0[fi].links, l),
            updated: now,
            updates: ticked_updates(ns0[fi].updates, ns0[fi].updated, now),
            ..ns0[fi]
        };
        post.view_nodes()[fi] == (NodeV {
            backlinks: upsert_backlink(mid.backlinks, b),
            updated: now,
            updates: ticked_updates(mid.updates, mid.updated, now),
            ..mid
        }) && ops == seq![
            FsOpV::WriteFileV {
                path: meta_path_of(ns0[fi].directory, from),
                content: meta_text(meta_of(mid)),
            },
            FsOpV::WriteFileV {
                path: meta_path_of(ns0[fi].directory, from),
                content: meta_text(meta_of(post.view_nodes()[fi])),
            },
        ]
    } else {
        post.view_nodes()[fi] == (NodeV {
            links: upsert_link(ns0[fi].links, l),
            updated: now,
            updates: ticked_updates(ns0[fi].updates, ns0[fi].updated, now),
            ..ns0[fi]
        }) && post.view_nodes()[ti] == (NodeV {
            backlinks: upsert_backlink(ns0[ti].backlinks, b),
            updated: now,
            updates: ticked_updates(ns0[ti].updates, ns0[ti].updated, now),
            ..ns0[ti]
        }) && ops == seq![
            FsOpV::WriteFileV {
                path: meta_path_of(ns0[fi].directory, from),
                content: meta_text(meta_of(post.view_nodes()[fi])),
            },
            FsOpV::WriteFileV {
                path: meta_path_of(ns0[ti].directory, to),
                content: meta_text(meta_of(post.view_nodes()[ti])),
            },
        ]
    }
}

impl Tree {
    /// Builds the link/backlink pair at the given creation timestamp and
    /// stores the link on `from` and the backlink on `to`, persisting both.
    /// Nothing changes when either endpoint is absent.
    #[verifier::rlimit(100)]
    pub fn link_at(
        &mut self,
        text: &str,
        from: &str,
        from_line: u64,
        from_char: u64,
        to: &str,
        to_line: u64,
        to_char: u64,
        timestamp: i64,
        now: Stamp,
    ) -> (r: Result<Vec<FsOp>, TreeError>)
        ensures
            match r {
                Ok(ops) => linked_outcome(
                    *old(self),
                    *final(self),
                    op_views(ops@),
                    text@,
                    from@,
                    from_line as int,
                    from_char as int,
                    to@,
                    to_line as int,
                    to_char as int,
                    timestamp as int,
                    now,
                ),
                Err(e) => {
                    &&& e.kind == TreeErrorKind::NotFound
                    &&& (!has_id(old(self).view_nodes(), from@) || !has_id(
                        old(self).view_nodes(),
                        to@,
                    ))
                    &&& *final(self) == *old(self)
                },
            },
    {
        let fi = match self.find_node(from) {
            Some(i) => i,
            None => {
                return Err(
                    TreeError::new(
                        TreeErrorKind::NotFound,
                        String::from_str("link source not found"),
                    ),
                );
            },
        };
        let ti = match self.find_node(to) {
            Some(i) => i,
            None => {
                return Err(
                    TreeError::new(
                        TreeErrorKind::NotFound,
                        String::from_str("link target not found"),
                    ),
                );
            },
        };
        let (link, backlink) = NodeLink::pair_at(
            String::from_str(text),
            String::from_str(from),
            from_line,
            from_char,
            String::from_str(to),
            to_line,
            to_char,
            timestamp,
        );
        let ghost ns0 = self.view_nodes();
        let mut from_node = self.nodes.remove(fi);
        let op1 = from_node.insert_link(link, now);
        if fi == ti {
            let op2 = from_node.insert_backlink(backlink, now);
            self.nodes.insert(fi, from_node);
            let mut ops: Vec<FsOp> = Vec::new();
            ops.push(op1);
            ops.push(op2);
            proof {
                assert(self.view_nodes() =~= ns0.update(fi as int, self.view_nodes()[fi as int]));
                assert(op_views(ops@) =~= seq![op1@, op2@]);
            }
            return Ok(ops);
        }
        self.nodes.insert(fi, from_node);
        let mut to_node = self.nodes.remove(ti);
        let op2 = to_node.insert_backlink(backlink, now);
        self.nodes.insert(ti, to_node);
        let mut ops: Vec<FsOp> = Vec::new();
        ops.push(op1);
        ops.push(op2);
        proof {
            assert(node_views(self.nodes@)[fi as int] == self.nodes@[fi as int]@);
            assert(node_views(self.nodes@)[ti as int] == self.nodes@[ti as int]@);
            assert forall|k: int|
                0 <= k < ns0.len() && k != fi && k != ti implies self.view_nodes()[k]
                == ns0[k] by {}
            assert(op_views(ops@) =~= seq![op1@, op2@]);
        }
        Ok(ops)
    }

    /// As `link_at`, with the creation timestamp read from the clock; the
    /// stored link and backlink share whatever timestamp was read.
    pub fn link(
        &mut self,
        text: &str,
        from: &str,
        from_line: u64,
        from_char: u64,
        to: &str,
        to_line: u64,
        to_char: u64,
        now: Stamp,
    ) -> (r: Result<Vec<FsOp>, TreeError>)
        ensures
            match r {
                Ok(ops) => exists|ts: int|
                    #[trigger] linked_outcome(
                        *old(self),
                        *final(self),
                        op_views(ops@),
                        text@,
                        from@,
                        from_line as int,
                        from_char as int,
                        to@,
                        to_line as int,
                        to_char as int,
                        ts,
                        now,
                    ),
                Err(e) => e.kind == TreeErrorKind::NotFound && *final(self) == *old(self) && (
                !has_id(old(self).view_nodes(), from@) || !has_id(old(self).view_nodes(), to@)),
            },
    {
        let timestamp = crate::stamp::now_epoch();
        let r = self.link_at(text, from, from_line, from_char, to, to_line, to_char, timestamp, now);
        proof {
            if r is Ok {
                assert(linked_outcome(
                    *old(self),
                    *self,
                    op_views(r->Ok_0@),
                    text@,
                    from@,
                    from_line as int,
                    from_char as int,
                    to@,
                    to_line as int,
                    to_char as int,
                    timestamp as int,
                    now,
                ));
            }
        }
        r
    }
}


// ---------------------------------------------------------------------------
// The rebalance cascade
// ---------------------------------------------------------------------------

/// Whether `p` is the key `id` itself or an ancestor of it along the
/// segment structure.
pub open spec fn seg_prefix(p: Seq<char>, id: Seq<char>) -> bool {
    p.len() <= id.len() && id.take(p.len() as int) == p && (id.len() == p.len() || id[p.len() as int]
        == '/')
}

/// The key after the batch of renames: the first table entry that is the
/// key or an ancestor of it has its new form put in place of the old; a key
/// no entry covers is unchanged.
pub open spec fn subst_id(id: Seq<char>, table: Seq<(Seq<char>, Seq<char>)>) -> Seq<char>
    decreases table.len(),
{
    if table.len() == 0 {
        id
    } else if seg_prefix(table[0].0, id) {
        table[0].1 + id.skip(table[0].0.len() as int)
    } else {
        subst_id(id, table.skip(1))
    }
}

pub open spec fn subst_opt(o: Option<Seq<char>>, table: Seq<(Seq<char>, Seq<char>)>) -> Option<
    Seq<char>,
> {
    match o {
        None => None,
        Some(x) => Some(subst_id(x, table)),
    }
}

/// A link after the batch of renames: only its stored node key changes.
pub open spec fn subst_link(l: NodeLinkV, table: Seq<(Seq<char>, Seq<char>)>) -> NodeLinkV {
    NodeLinkV { node: subst_id(l.node, table), ..l }
}

/// A node after the batch of renames: its key, parent pointer, children and
/// both cross-reference tables have every covered key replaced.  The stored
/// display name is left as it was.
pub open spec fn renamed_node(n: NodeV, table: Seq<(Seq<char>, Seq<char>)>) -> NodeV {
    NodeV {
        id: subst_id(n.id, table),
        parent: subst_opt(n.parent, table),
        children: n.children.map_values(|c: Seq<char>| subst_id(c, table)),
        links: n.links.map_values(|l: NodeLinkV| subst_link(l, table)),
        backlinks: n.backlinks.map_values(|l: NodeLinkV| subst_link(l, table)),
        ..n
    }
}

/// A sibling key widened to the new zero-padded index width, its slug
/// unchanged.
pub open spec fn widen_id(id: Seq<char>, width: nat) -> Seq<char> {
    key_parent(id)->Some_0 + seq!['/'] + dec_of_pad(key_index(id), width) + seq!['-']
        + seg_name_part(tail_seg(id))
}

/// The rename table of a cascade: every sibling maps to its widened form.
pub open spec fn widen_table(siblings: Seq<Seq<char>>, width: nat) -> Seq<(Seq<char>, Seq<char>)> {
    Seq::new(siblings.len(), |k: int| (siblings[k], widen_id(siblings[k], width)))
}

/// A key is a segment-prefix of itself.
proof fn lemma_seg_prefix_self(id: Seq<char>)
    ensures
        seg_prefix(id, id),
{
    assert(id.take(id.len() as int) =~= id);
}

/// A substitution whose table nowhere covers the key leaves it unchanged.
proof fn lemma_subst_no_match(id: Seq<char>, table: Seq<(Seq<char>, Seq<char>)>)
    requires
        forall|j: int| 0 <= j < table.len() ==> !seg_prefix((#[trigger] table[j]).0, id),
    ensures
        subst_id(id, table) == id,
    decreases table.len(),
{
    if table.len() > 0 {
        assert(!seg_prefix(table[0].0, id));
        assert forall|j: int|
            0 <= j < table.skip(1).len() implies !seg_prefix(
            (#[trigger] table.skip(1)[j]).0,
            id,
        ) by {
            assert(table.skip(1)[j] == table[j + 1]);
        }
        lemma_subst_no_match(id, table.skip(1));
    }
}

/// A substitution replaces along the first entry that covers the key.
proof fn lemma_subst_first(id: Seq<char>, table: Seq<(Seq<char>, Seq<char>)>, i: int)
    requires
        0 <= i < table.len(),
        forall|j: int| 0 <= j < i ==> !seg_prefix((#[trigger] table[j]).0, id),
        seg_prefix(table[i].0, id),
    ensures
        subst_id(id, table) == table[i].1 + id.skip(table[i].0.len() as int),
    decreases i,
{
    if i == 0 {
    } else {
        assert(!seg_prefix(table[0].0, id));
        assert forall|j: int|
            0 <= j < i - 1 implies !seg_prefix((#[trigger] table.skip(1)[j]).0, id) by {
            assert(table.skip(1)[j] == table[j + 1]);
        }
        assert(table.skip(1)[i - 1] == table[i]);
        lemma_subst_first(id, table.skip(1), i - 1);
    }
}

/// The structure of a freshly assembled child key: its written parent is
/// the parent key, and its own index reads back.
proof fn lemma_child_key_parts(pid: Seq<char>, index: nat, slug: Seq<char>)
    requires
        !contains_char(slug, '/'),
        index <= u64::MAX,
    ensures
        key_parent(child_key(pid, index, slug)) == Some(pid),
        key_index_ok(child_key(pid, index, slug)),
        key_index(child_key(pid, index, slug)) == index,
        child_key(pid, index, slug).len() > pid.len(),
{
    let seg = dec_of(index) + seq!['-'] + slug;
    let ck = child_key(pid, index, slug);
    crate::chars::lemma_dec_of_digits(index);
    crate::chars::lemma_find_char(slug, '/');
    assert forall|q: int| 0 <= q < seg.len() implies seg[q] != '/' by {
        if q < dec_of(index).len() {
            assert(crate::chars::is_digit(dec_of(index)[q]));
        } else if q == dec_of(index).len() {
            assert(seg[q] == '-');
        } else {
            assert(seg[q] == slug[q - dec_of(index).len() - 1]);
        }
    }
    assert(ck =~= (pid + seq!['/']) + seg);
    assert(ck[pid.len() as int] == '/');
    assert(rfind_char(ck, '/') == pid.len()) by {
        crate::chars::lemma_rfind_char(ck, '/');
        let r = rfind_char(ck, '/');
        if r < 0 {
            assert(ck[pid.len() as int] != '/');
        } else {
            if r > pid.len() {
                assert(ck[r] == seg[r - pid.len() - 1]);
            }
            if r < pid.len() {
                assert(ck[pid.len() as int] != '/');
            }
        }
    }
    assert(ck.take(pid.len() as int) =~= pid);
    assert(tail_seg(ck) =~= seg);
    // the first hyphen of the segment closes the digits
    crate::chars::lemma_find_char(seg, '-');
    assert(find_char(seg, '-') == dec_of(index).len()) by {
        let f = find_char(seg, '-');
        assert(seg[dec_of(index).len() as int] == '-');
        if f < 0 {
        } else {
            if f < dec_of(index).len() {
                assert(seg[f] == dec_of(index)[f]);
                assert(crate::chars::is_digit(dec_of(index)[f]));
            }
        }
    }
    assert(seg_num_part(seg) =~= dec_of(index));
}

/// No sibling key covers another sibling, the parent, or the fresh child
/// key: all of them part ways right after the shared parent prefix.
proof fn lemma_sibling_not_prefix(a: Seq<char>, b: Seq<char>, pid: Seq<char>)
    requires
        key_parent(a) == Some(pid),
        key_index_ok(a),
        key_parent(b) == Some(pid),
        a != b,
    ensures
        !seg_prefix(a, b),
{
    crate::chars::lemma_rfind_char(a, '/');
    crate::chars::lemma_rfind_char(b, '/');
    assert(rfind_char(a, '/') == pid.len()) by {
        assert(a.take(rfind_char(a, '/')) == pid);
    }
    assert(rfind_char(b, '/') == pid.len()) by {
        assert(b.take(rfind_char(b, '/')) == pid);
    }
    // a's final segment holds a hyphen at or past its second character, so
    // a extends past the slash
    assert(find_char(tail_seg(a), '-') >= 1);
    crate::chars::lemma_find_char(tail_seg(a), '-');
    assert(tail_seg(a).len() >= 1);
    assert(a.len() > pid.len() + 1);
    if seg_prefix(a, b) {
        if a.len() == b.len() {
            assert(a =~= b);
        } else {
            assert(b[a.len() as int] == '/');
            assert(a.len() > rfind_char(b, '/'));
        }
    }
}

/// The views of a vector of key pairs.
pub open spec fn pair_views(t: Seq<(String, String)>) -> Seq<(Seq<char>, Seq<char>)> {
    Seq::new(t.len(), |i: int| (t[i].0@, t[i].1@))
}

/// How many nodes sit at the root.
pub open spec fn count_roots(ns: Seq<NodeV>) -> nat
    decreases ns.len(),
{
    if ns.len() == 0 {
        0
    } else {
        (if ns[0].parent is None {
            1nat
        } else {
            0nat
        }) + count_roots(ns.skip(1))
    }
}

/// The directory renames of a cascade, in table order.
pub open spec fn rename_ops(table: Seq<(Seq<char>, Seq<char>)>, dir: Seq<char>) -> Seq<FsOpV> {
    Seq::new(
        table.len(),
        |k: int|
            FsOpV::RenameDirV {
                from: node_dir_of(dir, table[k].0),
                to: node_dir_of(dir, table[k].1),
            },
    )
}

/// One metadata write per node, in node order.
pub open spec fn meta_ops(ns: Seq<NodeV>) -> Seq<FsOpV> {
    Seq::new(
        ns.len(),
        |i: int|
            FsOpV::WriteFileV {
                path: meta_path_of(ns[i].directory, ns[i].id),
                content: meta_text(meta_of(ns[i])),
            },
    )
}

/// Applies the rename table to one key.
fn subst_key(key: &String, table: &Vec<(String, String)>) -> (r: String)
    ensures
        r@ == subst_id(key@, pair_views(table@)),
{
    let kc = str_chars(key.as_str());
    let klen = kc.len();
    let mut j: usize = 0;
    proof {
        assert(pair_views(table@).skip(0) =~~= pair_views(table@));
    }
    while j < table.len()
        invariant
            kc@ == key@,
            klen == kc@.len(),
            j <= table@.len(),
            subst_id(key@, pair_views(table@)) == subst_id(
                key@,
                pair_views(table@).skip(j as int),
            ),
        decreases table@.len() - j,
    {
        let ghost tv = pair_views(table@).skip(j as int);
        proof {
            assert(tv[0] == (table@[j as int].0@, table@[j as int].1@));
            assert(tv.skip(1) =~~= pair_views(table@).skip(j + 1));
        }
        let pc = str_chars(table[j].0.as_str());
        let plen = pc.len();
        if plen <= klen {
            let head_match = match_at_exec(&kc, &pc, 0);
            proof {
                if head_match {
                    assert(kc@.subrange(0, pc@.len() as int) == pc@);
                    assert(kc@.take(pc@.len() as int) =~= kc@.subrange(0, pc@.len() as int));
                }
            }
            if head_match && (plen == klen || kc[plen] == '/') {
                let mut out: Vec<char> = str_chars(table[j].1.as_str());
                let tailpart = subvec(&kc, plen, klen);
                extend_chars(&mut out, &tailpart);
                proof {
                    assert(seg_prefix(table@[j as int].0@, key@));
                    assert(out@ =~= table@[j as int].1@ + key@.skip(table@[j as int].0@.len() as int));
                }
                return chars_to_string(&out);
            }
            proof {
                if seg_prefix(table@[j as int].0@, key@) {
                    assert(kc@.take(pc@.len() as int) =~= kc@.subrange(0, pc@.len() as int));
                    assert(false);
                }
            }
        } else {
            proof {
                assert(!seg_prefix(table@[j as int].0@, key@));
            }
        }
        j = j + 1;
    }
    proof {
        assert(pair_views(table@).skip(table@.len() as int) =~= Seq::<(Seq<char>, Seq<char>)>::empty());
    }
    key.clone()
}

/// Applies the rename table to one node.
fn rename_node_exec(node: Node, table: &Vec<(String, String)>) -> (r: Node)
    ensures
        r@ == renamed_node(node@, pair_views(table@)),
{
    let ghost tv = pair_views(table@);
    let ghost nv = node@;
    let Node {
        id,
        name,
        display_name,
        parent,
        mut children,
        mut links,
        mut backlinks,
        tags,
        internal,
        created,
        updated,
        updates,
        directory,
    } = node;
    let new_id = subst_key(&id, table);
    let new_parent = match &parent {
        Some(p) => Some(subst_key(p, table)),
        None => None,
    };
    let mut new_children: Vec<String> = Vec::new();
    let mut i: usize = 0;
    while i < children.len()
        invariant
            tv == pair_views(table@),
            i <= children@.len(),
            children.deep_view() == nv.children,
            new_children.deep_view() =~= nv.children.take(i as int).map_values(
                |c: Seq<char>| subst_id(c, tv),
            ),
        decreases children@.len() - i,
    {
        proof {
            assert(children.deep_view()[i as int] == children@[i as int]@);
        }
        let ghost pre = new_children.deep_view();
        new_children.push(subst_key(&children[i], table));
        proof {
            assert(new_children.deep_view() =~~= pre.push(subst_id(nv.children[i as int], tv)));
            assert(nv.children.take(i as int + 1).map_values(|c: Seq<char>| subst_id(c, tv)) =~= nv.children.take(
                i as int,
            ).map_values(|c: Seq<char>| subst_id(c, tv)).push(subst_id(nv.children[i as int], tv)));
        }
        i = i + 1;
    }
    proof {
        assert(nv.children.take(nv.children.len() as int) =~= nv.children);
    }
    let mut new_links: Vec<NodeLink> = Vec::new();
    while links.len() > 0
        invariant
            tv == pair_views(table@),
            links@.len() <= nv.links.len(),
            link_views(links@) =~= nv.links.skip(nv.links.len() - links@.len()),
            link_views(new_links@) =~= nv.links.take(nv.links.len() - links@.len()).map_values(
                |l: NodeLinkV| subst_link(l, tv),
            ),
        decreases links@.len(),
    {
        let ghost done = nv.links.len() - links@.len();
        proof {
            assert(link_views(links@)[0] == links@[0]@);
            assert(nv.links.skip(done)[0] == nv.links[done]);
        }
        let ghost rem = links@;
        let l = links.remove(0);
        proof {
            assert(l@ == nv.links[done]);
        }
        let subst_target = subst_key(&l.node, table);
        proof {
            assert(subst_target@ == subst_id(nv.links[done].node, tv));
        }
        let nl = NodeLink {
            node: subst_target,
            text: l.text,
            timestamp: l.timestamp,
            line: l.line,
            col: l.col,
            is_name_linked: l.is_name_linked,
        };
        let ghost pre = link_views(new_links@);
        new_links.push(nl);
        proof {
            assert(nl@ == subst_link(nv.links[done], tv));
            assert(link_views(new_links@) =~= pre.push(nl@));
            assert(nv.links.take(done + 1).map_values(|x: NodeLinkV| subst_link(x, tv)) =~= nv.links.take(
                done,
            ).map_values(|x: NodeLinkV| subst_link(x, tv)).push(subst_link(nv.links[done], tv)));
            assert forall|k: int| 0 <= k < links@.len() implies link_views(links@)[k] == nv.links.skip(
                done + 1,
            )[k] by {
                assert(link_views(links@)[k] == links@[k]@);
                assert(links@[k] == rem[k + 1]);
                assert(rem[k + 1]@ == link_views(rem)[k + 1]);
                assert(link_views(rem)[k + 1] == nv.links.skip(done)[k + 1]);
                assert(nv.links.skip(done)[k + 1] == nv.links[done + 1 + k]);
                assert(nv.links.skip(done + 1)[k] == nv.links[done + 1 + k]);
            }
            assert(link_views(links@) =~= nv.links.skip(done + 1));
        }
    }
    proof {
        assert(nv.links.take(nv.links.len() as int) =~= nv.links);
    }
    let mut new_backlinks: Vec<NodeLink> = Vec::new();
    while backlinks.len() > 0
        invariant
            tv == pair_views(table@),
            backlinks@.len() <= nv.backlinks.len(),
            link_views(backlinks@) =~= nv.backlinks.skip(nv.backlinks.len() - backlinks@.len()),
            link_views(new_backlinks@) =~= nv.backlinks.take(
                nv.backlinks.len() - backlinks@.len(),
            ).map_values(|l: NodeLinkV| subst_link(l, tv)),
        decreases backlinks@.len(),
    {
        let ghost done = nv.backlinks.len() - backlinks@.len();
        proof {
            assert(link_views(backlinks@)[0] == backlinks@[0]@);
            assert(nv.backlinks.skip(done)[0] == nv.backlinks[done]);
        }
        let ghost rem = backlinks@;
        let l = backlinks.remove(0);
        proof {
            assert(l@ == nv.backlinks[done]);
        }
        let subst_target = subst_key(&l.node, table);
        proof {
            assert(subst_target@ == subst_id(nv.backlinks[done].node, tv));
        }
        let nl = NodeLink {
            node: subst_target,
            text: l.text,
            timestamp: l.timestamp,
            line: l.line,
            col: l.col,
            is_name_linked: l.is_name_linked,
        };
        let ghost pre = link_views(new_backlinks@);
        new_backlinks.push(nl);
        proof {
            assert(nl@ == subst_link(nv.backlinks[done], tv));
            assert(link_views(new_backlinks@) =~= pre.push(nl@));
            assert(nv.backlinks.take(done + 1).map_values(|x: NodeLinkV| subst_link(x, tv)) =~= nv.backlinks.take(
                done,
            ).map_values(|x: NodeLinkV| subst_link(x, tv)).push(subst_link(nv.backlinks[done], tv)));
            assert forall|k: int| 0 <= k < backlinks@.len() implies link_views(backlinks@)[k] == nv.backlinks.skip(
                done + 1,
            )[k] by {
                assert(link_views(backlinks@)[k] == backlinks@[k]@);
                assert(backlinks@[k] == rem[k + 1]);
                assert(rem[k + 1]@ == link_views(rem)[k + 1]);
                assert(link_views(rem)[k + 1] == nv.backlinks.skip(done)[k + 1]);
                assert(nv.backlinks.skip(done)[k + 1] == nv.backlinks[done + 1 + k]);
                assert(nv.backlinks.skip(done + 1)[k] == nv.backlinks[done + 1 + k]);
            }
            assert(link_views(backlinks@) =~= nv.backlinks.skip(done + 1));
        }
    }
    proof {
        assert(nv.backlinks.take(nv.backlinks.len() as int) =~= nv.backlinks);
    }
    Node {
        id: new_id,
        name,
        display_name,
        parent: new_parent,
        children: new_children,
        links: new_links,
        backlinks: new_backlinks,
        tags,
        internal,
        created,
        updated,
        updates,
        directory,
    }
}



/// A node as it is first created: empty family and tables, both stamps at
/// the creation time, one update counted.
pub open spec fn fresh_node(
    id: Seq<char>,
    name: Seq<char>,
    parent: Option<Seq<char>>,
    dir: Seq<char>,
    now: Stamp,
) -> NodeV {
    NodeV {
        id: id,
        name: name,
        display_name: crate::ident::display_of(id),
        parent: parent,
        children: Seq::<Seq<char>>::empty(),
        links: Seq::<NodeLinkV>::empty(),
        backlinks: Seq::<NodeLinkV>::empty(),
        tags: Seq::<Seq<char>>::empty(),
        internal: Seq::<Seq<char>>::empty(),
        created: now,
        updated: now,
        updates: 1,
        directory: dir,
    }
}

/// The effects that put a fresh node on disk.
pub open spec fn create_ops(dir: Seq<char>, childv: NodeV) -> Seq<FsOpV> {
    seq![
        FsOpV::MkDirV { path: node_dir_of(dir, childv.id) },
        FsOpV::WriteFileV {
            path: meta_path_of(dir, childv.id),
            content: meta_text(meta_of(childv)),
        },
        FsOpV::WriteFileV { path: content_path_of(dir, childv.id), content: heading_of(childv.name) },
    ]
}

/// The key a child created under the parent at `ci` gets.
pub open spec fn child_creation_key(ns0: Seq<NodeV>, ci: int, c: Seq<char>) -> Seq<char> {
    child_key(ns0[ci].id, (ns0[ci].children.len() + 1) as nat, slug_of(c))
}

/// The collection after a child is created under the parent at `ci`,
/// rebalance included.
pub open spec fn child_creation_nodes(
    ns0: Seq<NodeV>,
    ci: int,
    c: Seq<char>,
    dir: Seq<char>,
    now: Stamp,
) -> Seq<NodeV> {
    let pn = ns0[ci];
    let m = (pn.children.len() + 1) as nat;
    let ck = child_creation_key(ns0, ci, c);
    let childv = fresh_node(ck, c, Some(pn.id), dir, now);
    let pn1 = NodeV {
        children: pn.children.push(ck),
        updated: now,
        updates: ticked_updates(pn.updates, pn.updated, now),
        ..pn
    };
    let base = ns0.update(ci, pn1).push(childv);
    match pow10_exp(m) {
        Some(e) => base.map_values(|n: NodeV| renamed_node(n, widen_table(pn.children, e + 1))),
        None => base,
    }
}

/// The effects of creating a child under the parent at `ci`, rebalance
/// included.
pub open spec fn child_creation_ops(
    ns0: Seq<NodeV>,
    ci: int,
    c: Seq<char>,
    dir: Seq<char>,
    now: Stamp,
) -> Seq<FsOpV> {
    let pn = ns0[ci];
    let m = (pn.children.len() + 1) as nat;
    let ck = child_creation_key(ns0, ci, c);
    let childv = fresh_node(ck, c, Some(pn.id), dir, now);
    let pn1 = NodeV {
        children: pn.children.push(ck),
        updated: now,
        updates: ticked_updates(pn.updates, pn.updated, now),
        ..pn
    };
    let cops = create_ops(dir, childv).push(
        FsOpV::WriteFileV { path: meta_path_of(pn.directory, pn.id), content: meta_text(meta_of(pn1)) },
    );
    match pow10_exp(m) {
        Some(e) => cops + rename_ops(widen_table(pn.children, e + 1), dir) + meta_ops(
            child_creation_nodes(ns0, ci, c, dir, now),
        ),
        None => cops,
    }
}

/// A child key extends its parent key.
proof fn lemma_child_longer(a: Seq<char>, pid: Seq<char>)
    requires
        key_parent(a) == Some(pid),
    ensures
        a.len() > pid.len(),
{
    crate::chars::lemma_rfind_char(a, '/');
    assert(a.take(rfind_char(a, '/')) == pid);
}

/// The nine-to-ten law, for any group size that crosses a power of ten:
/// when a parent with aligned children gains the child whose one-based
/// index is an exact power of ten, every previous sibling's key is widened
/// to the one-wider zero-padded form with its slug unchanged, in place in
/// the family order; the new child itself keeps its unpadded index, at the
/// end of the family, parented to the unrenamed parent.
pub proof fn lemma_rebalanced_keys(
    ns0: Seq<NodeV>,
    ci: int,
    c: Seq<char>,
    dir: Seq<char>,
    now: Stamp,
)
    requires
        0 <= ci < ns0.len(),
        !contains_char(slug_of(c), '/'),
        ns0[ci].children.len() + 1 <= u64::MAX,
        forall|k: int|
            0 <= k < ns0[ci].children.len() ==> key_parent(#[trigger] ns0[ci].children[k])
                == Some(ns0[ci].id) && key_index_ok(ns0[ci].children[k]) && key_index(
                ns0[ci].children[k],
            ) == k + 1,
        pow10_exp((ns0[ci].children.len() + 1) as nat) is Some,
    ensures
        ({
            let pn = ns0[ci];
            let e = pow10_exp((pn.children.len() + 1) as nat)->Some_0;
            let ck = child_creation_key(ns0, ci, c);
            let result = child_creation_nodes(ns0, ci, c, dir, now);
            &&& result.len() == ns0.len() + 1
            &&& result[ci].id == pn.id
            &&& result[ci].children.len() == pn.children.len() + 1
            &&& (forall|k: int|
                0 <= k < pn.children.len() ==> result[ci].children[k] == widen_id(
                    #[trigger] pn.children[k],
                    e + 1,
                ))
            &&& result[ci].children[pn.children.len() as int] == ck
            &&& result.last().id == ck
            &&& result.last().parent == Some(pn.id)
        }),
{
    let pn = ns0[ci];
    let pid = pn.id;
    let m = (pn.children.len() + 1) as nat;
    let e = pow10_exp(m)->Some_0;
    let ck = child_creation_key(ns0, ci, c);
    let childv = fresh_node(ck, c, Some(pid), dir, now);
    let pn1 = NodeV {
        children: pn.children.push(ck),
        updated: now,
        updates: ticked_updates(pn.updates, pn.updated, now),
        ..pn
    };
    let base = ns0.update(ci, pn1).push(childv);
    let table = widen_table(pn.children, e + 1);
    let result = child_creation_nodes(ns0, ci, c, dir, now);
    assert(result == base.map_values(|n: NodeV| renamed_node(n, table)));
    assert(result[ci] == renamed_node(pn1, table));
    assert(result.last() == renamed_node(childv, table));
    lemma_child_key_parts(pid, m, slug_of(c));
    // the sibling keys are pairwise distinct: their indices differ
    assert forall|j: int, k: int|
        0 <= j < pn.children.len() && 0 <= k < pn.children.len() && j != k implies pn.children[j]
        != pn.children[k] by {
        assert(key_index(pn.children[j]) == j + 1);
        assert(key_index(pn.children[k]) == k + 1);
    }
    // no table entry covers the parent key or the fresh child key
    assert forall|j: int| 0 <= j < table.len() implies !seg_prefix((#[trigger] table[j]).0, pid) by {
        assert(table[j].0 == pn.children[j]);
        lemma_child_longer(pn.children[j], pid);
    }
    lemma_subst_no_match(pid, table);
    assert forall|j: int| 0 <= j < table.len() implies !seg_prefix((#[trigger] table[j]).0, ck) by {
        assert(table[j].0 == pn.children[j]);
        assert(pn.children[j] != ck) by {
            assert(key_index(pn.children[j]) == j + 1);
            assert(key_index(ck) == m);
        }
        lemma_sibling_not_prefix(pn.children[j], ck, pid);
    }
    lemma_subst_no_match(ck, table);
    // each sibling is covered first by its own entry
    assert forall|k: int|
        0 <= k < pn.children.len() implies renamed_node(pn1, table).children[k] == widen_id(
        #[trigger] pn.children[k],
        e + 1,
    ) by {
        assert(pn1.children[k] == pn.children[k]);
        lemma_subst_hits_sibling(pn.children, pid, k, e + 1);
        assert(renamed_node(pn1, table).children[k] == subst_id(pn1.children[k], table));
    }
    assert(renamed_node(pn1, table).children[pn.children.len() as int] == subst_id(ck, table));
    assert(renamed_node(childv, table).id == subst_id(ck, table));
    assert(renamed_node(childv, table).parent == Some(subst_id(pid, table)));
}

/// The companion of the nine-to-ten law for cross-references: every link
/// or backlink that pointed at a renamed sibling now names the widened key,
/// all its other fields untouched, and the effects re-persist that node's
/// metadata under its final key, so the update can be read back from disk.
pub proof fn lemma_rebalanced_references(
    ns0: Seq<NodeV>,
    ci: int,
    c: Seq<char>,
    dir: Seq<char>,
    now: Stamp,
    q: int,
)
    requires
        0 <= ci < ns0.len(),
        !contains_char(slug_of(c), '/'),
        ns0[ci].children.len() + 1 <= u64::MAX,
        forall|k: int|
            0 <= k < ns0[ci].children.len() ==> key_parent(#[trigger] ns0[ci].children[k])
                == Some(ns0[ci].id) && key_index_ok(ns0[ci].children[k]) && key_index(
                ns0[ci].children[k],
            ) == k + 1,
        pow10_exp((ns0[ci].children.len() + 1) as nat) is Some,
        0 <= q < ns0.len(),
    ensures
        ({
            let pn = ns0[ci];
            let e = pow10_exp((pn.children.len() + 1) as nat)->Some_0;
            let result = child_creation_nodes(ns0, ci, c, dir, now);
            let ops = child_creation_ops(ns0, ci, c, dir, now);
            &&& result[q].links.len() == ns0[q].links.len()
            &&& result[q].backlinks.len() == ns0[q].backlinks.len()
            &&& (forall|li: int, k: int|
                0 <= li < ns0[q].links.len() && 0 <= k < pn.children.len() && (
                #[trigger] ns0[q].links[li]).node == pn.children[k] ==> result[q].links[li] == (
                NodeLinkV { node: widen_id(#[trigger] pn.children[k], e + 1), ..ns0[q].links[li] }))
            &&& (forall|li: int, k: int|
                0 <= li < ns0[q].backlinks.len() && 0 <= k < pn.children.len() && (
                #[trigger] ns0[q].backlinks[li]).node == pn.children[k] ==> result[q].backlinks[li]
                    == (NodeLinkV {
                    node: widen_id(#[trigger] pn.children[k], e + 1),
                    ..ns0[q].backlinks[li]
                }))
            &&& ops.len() == 4 + pn.children.len() + result.len()
            &&& ops[4 + pn.children.len() + q] == (FsOpV::WriteFileV {
                path: meta_path_of(result[q].directory, result[q].id),
                content: meta_text(meta_of(result[q])),
            })
        }),
{
    let pn = ns0[ci];
    let pid = pn.id;
    let m = (pn.children.len() + 1) as nat;
    let e = pow10_exp(m)->Some_0;
    let ck = child_creation_key(ns0, ci, c);
    let childv = fresh_node(ck, c, Some(pid), dir, now);
    let pn1 = NodeV {
        children: pn.children.push(ck),
        updated: now,
        updates: ticked_updates(pn.updates, pn.updated, now),
        ..pn
    };
    let base = ns0.update(ci, pn1).push(childv);
    let table = widen_table(pn.children, e + 1);
    let result = child_creation_nodes(ns0, ci, c, dir, now);
    assert(result == base.map_values(|n: NodeV| renamed_node(n, table)));
    assert(result[q] == renamed_node(base[q], table));
    assert(base[q].links == ns0[q].links);
    assert(base[q].backlinks == ns0[q].backlinks);
    // the sibling keys are pairwise distinct: their indices differ
    assert forall|j: int, k: int|
        0 <= j < pn.children.len() && 0 <= k < pn.children.len() && j != k implies pn.children[j]
        != pn.children[k] by {
        assert(key_index(pn.children[j]) == j + 1);
        assert(key_index(pn.children[k]) == k + 1);
    }
    assert forall|li: int, k: int|
        0 <= li < ns0[q].links.len() && 0 <= k < pn.children.len() && (
    #[trigger] ns0[q].links[li]).node == pn.children[k] implies result[q].links[li] == (
    NodeLinkV { node: widen_id(#[trigger] pn.children[k], e + 1), ..ns0[q].links[li] }) by {
        assert(result[q].links[li] == subst_link(ns0[q].links[li], table));
        lemma_subst_hits_sibling(pn.children, pid, k, e + 1);
    }
    assert forall|li: int, k: int|
        0 <= li < ns0[q].backlinks.len() && 0 <= k < pn.children.len() && (
    #[trigger] ns0[q].backlinks[li]).node == pn.children[k] implies result[q].backlinks[li] == (
    NodeLinkV { node: widen_id(#[trigger] pn.children[k], e + 1), ..ns0[q].backlinks[li] }) by {
        assert(result[q].backlinks[li] == subst_link(ns0[q].backlinks[li], table));
        lemma_subst_hits_sibling(pn.children, pid, k, e + 1);
    }
    let ops = child_creation_ops(ns0, ci, c, dir, now);
    let cops = create_ops(dir, childv).push(
        FsOpV::WriteFileV { path: meta_path_of(pn.directory, pn.id), content: meta_text(meta_of(pn1)) },
    );
    assert(ops == cops + rename_ops(table, dir) + meta_ops(result));
    assert(ops[4 + pn.children.len() + q] == meta_ops(result)[q]);
}

/// A substitution along the whole sibling table sends each sibling key to
/// its widened form: its own entry is the first that covers it.
proof fn lemma_subst_hits_sibling(siblings: Seq<Seq<char>>, pid: Seq<char>, k: int, width: nat)
    requires
        0 <= k < siblings.len(),
        forall|j: int|
            0 <= j < siblings.len() ==> key_parent(#[trigger] siblings[j]) == Some(pid)
                && key_index_ok(siblings[j]) && key_index(siblings[j]) == j + 1,
    ensures
        subst_id(siblings[k], widen_table(siblings, width)) == widen_id(siblings[k], width),
{
    let table = widen_table(siblings, width);
    assert forall|j: int, k2: int|
        0 <= j < siblings.len() && 0 <= k2 < siblings.len() && j != k2 implies siblings[j]
        != siblings[k2] by {
        assert(key_index(siblings[j]) == j + 1);
        assert(key_index(siblings[k2]) == k2 + 1);
    }
    assert forall|j: int| 0 <= j < k implies !seg_prefix((#[trigger] table[j]).0, siblings[k]) by {
        assert(table[j].0 == siblings[j]);
        lemma_sibling_not_prefix(siblings[j], siblings[k], pid);
    }
    lemma_seg_prefix_self(siblings[k]);
    assert(table[k].0 == siblings[k]);
    lemma_subst_first(siblings[k], table, k);
    assert(siblings[k].skip(siblings[k].len() as int) =~= Seq::<char>::empty());
    assert(table[k].1 + Seq::<char>::empty() =~= table[k].1);
}

impl Tree {
    /// Creates a node.  With a parent key: the child joins that family at
    /// the next one-based index, and when that index is an exact power of
    /// ten, every other sibling is renamed to the wider zero-padded form,
    /// every descendant is re-keyed under it, and every stored
    /// cross-reference to a renamed key is retargeted; the whole collection
    /// is then re-persisted.  Without a parent key: a root node at the next
    /// root index, which never triggers a rebalance.  The returned effects,
    /// performed in order, reproduce the outcome on disk.
    #[verifier::rlimit(100)]
    pub fn create_node(&mut self, parent: Option<&str>, child: Option<&str>, now: Stamp) -> (r:
        Result<(String, Vec<FsOp>), TreeError>)
        requires
            old(self).wf(),
        ensures
            final(self).journal == old(self).journal,
            final(self).desk == old(self).desk,
            final(self).dir == old(self).dir,
            r is Err ==> *final(self) == *old(self),
            match (parent, child) {
                (Some(p), Some(c)) => {
                    let ns0 = old(self).view_nodes();
                    let ci = find_id(ns0, p@);
                    match r {
                        Err(e) => (e.kind == TreeErrorKind::NotFound && !has_id(ns0, p@)) || (
                        e.kind == TreeErrorKind::InvalidArgs && has_id(ns0, p@) && (contains_char(
                            slug_of(c@),
                            '/',
                        ) || ns0[ci].children.len() == u64::MAX)),
                        Ok((key, ops)) => {
                            &&& has_id(ns0, p@)
                            &&& !contains_char(slug_of(c@), '/')
                            &&& key@ == child_creation_key(ns0, ci, c@)
                            &&& final(self).view_nodes() == child_creation_nodes(
                                ns0,
                                ci,
                                c@,
                                old(self).dir@,
                                now,
                            )
                            &&& op_views(ops@) == child_creation_ops(
                                ns0,
                                ci,
                                c@,
                                old(self).dir@,
                                now,
                            )
                        },
                    }
                },
                (None, Some(c)) => match r {
                    Err(e) => e.kind == TreeErrorKind::InvalidArgs && (contains_char(
                        slug_of(c@),
                        '/',
                    ) || count_roots(old(self).view_nodes()) == u64::MAX),
                    Ok((key, ops)) => {
                        let ns0 = old(self).view_nodes();
                        let index = count_roots(ns0) + 1;
                        let rk = root_key(index, slug_of(c@));
                        let childv = fresh_node(rk, c@, None, old(self).dir@, now);
                        &&& !contains_char(slug_of(c@), '/')
                        &&& key@ == rk
                        &&& final(self).view_nodes() == ns0.push(childv)
                        &&& op_views(ops@) == create_ops(old(self).dir@, childv)
                    },
                },
                (_, None) => r is Err && r->Err_0.kind == TreeErrorKind::InvalidArgs,
            },
    {
        let ghost ns0 = self.view_nodes();
        match (parent, child) {
            (Some(p), Some(c)) => {
                let ci = match self.find_node(p) {
                    Some(i) => i,
                    None => {
                        return Err(
                            TreeError::new(
                                TreeErrorKind::NotFound,
                                String::from_str("no such parent in tree"),
                            ),
                        );
                    },
                };
                let slug = prepare_path_name(c);
                let slug_cs = str_chars(slug.as_str());
                match index_of_char(&slug_cs, '/') {
                    Some(_) => {
                        return Err(
                            TreeError::new(
                                TreeErrorKind::InvalidArgs,
                                String::from_str("node name may not hold a slash"),
                            ),
                        );
                    },
                    None => {},
                }
                proof {
                    assert(node_views(self.nodes@)[ci as int] == self.nodes@[ci as int]@);
                }
                let plen = self.nodes[ci].children.len();
                if plen as u64 == u64::MAX {
                    return Err(
                        TreeError::new(
                            TreeErrorKind::InvalidArgs,
                            String::from_str("sibling group is full"),
                        ),
                    );
                }
                let ghost pn = ns0[ci as int];
                let dir = self.dir.clone();
                let mut pnode = self.nodes.remove(ci);
                let (cnode, mut ops) = pnode.create_child(String::from_str(c), dir.as_str(), now);
                let key = cnode.id.clone();
                let ghost childv = cnode@;
                let ghost pn1 = pnode@;
                self.nodes.insert(ci, pnode);
                self.nodes.push(cnode);
                let ghost base = ns0.update(ci as int, pn1).push(childv);
                proof {
                    assert(self.view_nodes() =~= base);
                }
                let m: u64 = plen as u64 + 1;
                match crate::ident::power_of_ten(m) {
                    None => {
                        proof {
                            assert(pow10_exp(m as nat) is None) by {
                                if pow10_exp(m as nat) is Some {
                                    let k = choose|k: nat|
                                        1 <= k && m as nat == crate::ident::pow10(k);
                                }
                            }
                        }
                        Ok((key, ops))
                    },
                    Some(kexp) => {
                        proof {
                            lemma_pow10_exp_unique(m as nat, kexp as nat);
                        }
                        let width = kexp + 1;
                        let ghost tw = width as nat;
                        let ghost stable = widen_table(pn.children, tw);
                        let mut table: Vec<(String, String)> = Vec::new();
                        let mut k: usize = 0;
                        let ghost cops0 = op_views(ops@);
                        while k < plen
                            invariant
                                node_views(self.nodes@) == base,
                                width <= 20,
                                tw == width as nat,
                                stable == widen_table(pn.children, tw),
                                pn.children.len() == plen,
                                k <= plen,
                                ci < self.nodes@.len(),
                                self.nodes@[ci as int]@.children.len() == plen + 1,
                                forall|q: int|
                                    0 <= q < plen ==> self.nodes@[ci as int]@.children[q]
                                        == pn.children[q],
                                forall|q: int|
                                    0 <= q < plen ==> key_parent(#[trigger] pn.children[q])
                                        == Some(pn.id) && key_index_ok(pn.children[q]),
                                self.dir@ == dir@,
                                pair_views(table@) =~= stable.take(k as int),
                                op_views(ops@) =~= cops0 + rename_ops(stable.take(k as int), dir@),
                            decreases plen - k,
                        {
                            proof {
                                assert(node_views(self.nodes@)[ci as int]
                                    == self.nodes@[ci as int]@);
                            }
                            let s = self.nodes[ci].children[k].clone();
                            proof {
                                assert(self.nodes@[ci as int]@.children[k as int]
                                    == self.nodes@[ci as int].children@[k as int]@);
                                assert(s@ == pn.children[k as int]);
                            }
                            let scs = str_chars(s.as_str());
                            let slen = scs.len();
                            let slash = match rindex_of_char(&scs, '/') {
                                Some(x) => x,
                                None => {
                                    proof {
                                        assert(false);
                                    }
                                    0
                                },
                            };
                            let base_part = subvec(&scs, 0, slash);
                            let tail = subvec(&scs, slash + 1, slen);
                            proof {
                                assert(base_part@ =~= s@.take(rfind_char(s@, '/')));
                                assert(tail@ =~= tail_seg(s@));
                            }
                            let dash = match index_of_char(&tail, '-') {
                                Some(d) => d,
                                None => {
                                    proof {
                                        crate::chars::lemma_find_char(tail@, '-');
                                        assert(false);
                                    }
                                    0
                                },
                            };
                            let tlen = tail.len();
                            let numpart = subvec(&tail, 0, dash);
                            proof {
                                assert(numpart@ =~= seg_num_part(tail_seg(s@)));
                            }
                            let x = match crate::chars::parse_u64(&numpart) {
                                Some(x) => x,
                                None => {
                                    proof {
                                        assert(false);
                                    }
                                    0
                                },
                            };
                            let mut wid: Vec<char> = Vec::new();
                            extend_chars(&mut wid, &base_part);
                            wid.push('/');
                            let padded = fmt_u64_pad(x, width as usize);
                            extend_chars(&mut wid, &padded);
                            wid.push('-');
                            let namepart = subvec(&tail, dash + 1, tlen);
                            extend_chars(&mut wid, &namepart);
                            proof {
                                assert(namepart@ =~= seg_name_part(tail_seg(s@)));
                                assert(wid@ =~= widen_id(s@, tw));
                            }
                            let wids = chars_to_string(&wid);
                            let mut from_path: Vec<char> = str_chars(dir.as_str());
                            from_path.push('/');
                            extend_str(&mut from_path, s.as_str());
                            let mut to_path: Vec<char> = str_chars(dir.as_str());
                            to_path.push('/');
                            extend_str(&mut to_path, wids.as_str());
                            proof {
                                assert(from_path@ =~= node_dir_of(dir@, s@));
                                assert(to_path@ =~= node_dir_of(dir@, widen_id(s@, tw)));
                            }
                            let ghost pre_table = pair_views(table@);
                            let ghost pre_ops = op_views(ops@);
                            table.push((s, wids));
                            ops.push(
                                FsOp::RenameDir {
                                    from: chars_to_string(&from_path),
                                    to: chars_to_string(&to_path),
                                },
                            );
                            proof {
                                assert(pair_views(table@) =~= pre_table.push(
                                    (pn.children[k as int], widen_id(pn.children[k as int], tw)),
                                ));
                                assert(stable.take(k + 1) =~= stable.take(k as int).push(
                                    stable[k as int],
                                ));
                                assert(op_views(ops@) =~= pre_ops.push(
                                    FsOpV::RenameDirV {
                                        from: node_dir_of(dir@, pn.children[k as int]),
                                        to: node_dir_of(dir@, widen_id(pn.children[k as int], tw)),
                                    },
                                ));
                                assert(rename_ops(stable.take(k + 1), dir@) =~= rename_ops(
                                    stable.take(k as int),
                                    dir@,
                                ).push(
                                    FsOpV::RenameDirV {
                                        from: node_dir_of(dir@, pn.children[k as int]),
                                        to: node_dir_of(dir@, widen_id(pn.children[k as int], tw)),
                                    },
                                ));
                            }
                            k = k + 1;
                        }
                        proof {
                            assert(stable.take(plen as int) =~= stable);
                            assert(pair_views(table@) =~= stable);
                        }
                        // apply the renames to every node
                        let total = self.nodes.len();
                        let mut i2: usize = 0;
                        while i2 < total
                            invariant
                                self.journal == old(self).journal,
                                self.desk == old(self).desk,
                                self.dir == old(self).dir,
                                pair_views(table@) == stable,
                                total == self.nodes@.len(),
                                base.len() == total,
                                i2 <= total,
                                forall|q: int|
                                    0 <= q < total - i2 ==> node_views(self.nodes@)[q] == base[
                                        i2 + q],
                                forall|q: int|
                                    total - i2 <= q < total ==> node_views(self.nodes@)[q]
                                        == renamed_node(base[q - (total - i2)], stable),
                            decreases total - i2,
                        {
                            let ghost before = self.nodes@;
                            proof {
                                assert(node_views(self.nodes@)[0] == self.nodes@[0]@);
                            }
                            let node = self.nodes.remove(0);
                            let ghost mid = self.nodes@;
                            let rn = rename_node_exec(node, &table);
                            self.nodes.push(rn);
                            proof {
                                assert(node@ == base[i2 as int]);
                                assert(rn@ == renamed_node(base[i2 as int], stable));
                                assert(self.nodes@ =~= mid.push(rn));
                                assert forall|q: int|
                                    0 <= q < total - (i2 + 1) implies node_views(self.nodes@)[q]
                                    == base[i2 + 1 + q] by {
                                    assert(node_views(self.nodes@)[q] == self.nodes@[q]@);
                                    assert(self.nodes@[q] == before[q + 1]);
                                    assert(before[q + 1]@ == node_views(before)[q + 1]);
                                }
                                assert forall|q: int|
                                    total - (i2 + 1) <= q < total implies node_views(
                                    self.nodes@,
                                )[q] == renamed_node(base[q - (total - (i2 + 1))], stable) by {
                                    assert(node_views(self.nodes@)[q] == self.nodes@[q]@);
                                    if q < total - 1 {
                                        assert(self.nodes@[q] == before[q + 1]);
                                        assert(before[q + 1]@ == node_views(before)[q + 1]);
                                    } else {
                                        assert(self.nodes@[q] == rn);
                                    }
                                }
                            }
                            i2 = i2 + 1;
                        }
                        proof {
                            assert(self.view_nodes() =~= base.map_values(
                                |n: NodeV| renamed_node(n, stable),
                            ));
                        }
                        // re-persist every node under its new key
                        let count = self.nodes.len();
                        let mut i3: usize = 0;
                        let ghost ops1 = op_views(ops@);
                        while i3 < count
                            invariant
                                count == self.nodes@.len(),
                                i3 <= count,
                                op_views(ops@) =~= ops1 + meta_ops(
                                    node_views(self.nodes@).take(i3 as int),
                                ),
                            decreases count - i3,
                        {
                            proof {
                                assert(node_views(self.nodes@)[i3 as int]
                                    == self.nodes@[i3 as int]@);
                            }
                            let ghost pre = op_views(ops@);
                            let w = self.nodes[i3].write_meta();
                            ops.push(w);
                            proof {
                                assert(op_views(ops@) =~= pre.push(w@));
                                assert(meta_ops(node_views(self.nodes@).take(i3 + 1))
                                    =~= meta_ops(node_views(self.nodes@).take(i3 as int)).push(
                                    w@,
                                ));
                            }
                            i3 = i3 + 1;
                        }
                        proof {
                            assert(node_views(self.nodes@).take(count as int) =~= node_views(
                                self.nodes@,
                            ));
                        }
                        Ok((key, ops))
                    },
                }
            },
            (None, Some(c)) => {
                let slug = prepare_path_name(c);
                let slug_cs = str_chars(slug.as_str());
                match index_of_char(&slug_cs, '/') {
                    Some(_) => {
                        return Err(
                            TreeError::new(
                                TreeErrorKind::InvalidArgs,
                                String::from_str("node name may not hold a slash"),
                            ),
                        );
                    },
                    None => {},
                }
                let n = self.nodes.len();
                let mut count: u64 = 0;
                let mut i: usize = 0;
                proof {
                    assert(ns0.skip(0) =~= ns0);
                }
                while i < n
                    invariant
                        ns0 == node_views(self.nodes@),
                        n == self.nodes@.len(),
                        i <= n,
                        count <= i,
                        count_roots(ns0) == count + count_roots(ns0.skip(i as int)),
                    decreases n - i,
                {
                    proof {
                        assert(node_views(self.nodes@)[i as int] == self.nodes@[i as int]@);
                        assert(ns0.skip(i as int)[0] == ns0[i as int]);
                        assert(ns0.skip(i as int).skip(1) =~= ns0.skip(i as int + 1));
                    }
                    if self.nodes[i].parent.is_none() {
                        count = count + 1;
                    }
                    i = i + 1;
                }
                proof {
                    assert(ns0.skip(n as int) =~= Seq::<NodeV>::empty());
                    assert(count == count_roots(ns0));
                }
                if count == u64::MAX {
                    return Err(
                        TreeError::new(
                            TreeErrorKind::InvalidArgs,
                            String::from_str("root group is full"),
                        ),
                    );
                }
                let dir = self.dir.clone();
                let (node, ops) = Node::create(
                    String::from_str(c),
                    None,
                    dir.as_str(),
                    count + 1,
                    now,
                );
                let key = node.id.clone();
                self.nodes.push(node);
                proof {
                    assert(self.view_nodes() =~= ns0.push(
                        fresh_node(
                            root_key((count + 1) as nat, slug_of(c@)),
                            c@,
                            None,
                            old(self).dir@,
                            now,
                        ),
                    ));
                }
                Ok((key, ops))
            },
            (_, None) => Err(
                TreeError::new(
                    TreeErrorKind::InvalidArgs,
                    String::from_str("a node name is required"),
                ),
            ),
        }
    }
}


// ---------------------------------------------------------------------------
// Loading
// ---------------------------------------------------------------------------

/// One node found by the directory scan: its key and the text of its
/// metadata file.  The scanner hands entries over in traversal order, each
/// directory's children sorted by name, children before their parent.
#[derive(Debug, Clone)]
pub struct ScanEntry {
    pub id: String,
    pub meta: String,
}

/// The keys of the scanned entries, in order.
pub open spec fn scan_ids(entries: Seq<ScanEntry>) -> Seq<Seq<char>> {
    entries.map_values(|e: ScanEntry| e.id@)
}

/// The keys whose written parent is `k`, in scan order.
pub open spec fn children_of(ids: Seq<Seq<char>>, k: Seq<char>) -> Seq<Seq<char>>
    decreases ids.len(),
{
    if ids.len() == 0 {
        Seq::<Seq<char>>::empty()
    } else {
        (if key_parent(ids[0]) == Some(k) {
            seq![ids[0]]
        } else {
            Seq::<Seq<char>>::empty()
        }) + children_of(ids.skip(1), k)
    }
}

/// What one scanned entry loads as.
pub open spec fn loaded_node(
    ids: Seq<Seq<char>>,
    id: Seq<char>,
    meta: Seq<char>,
    dir: Seq<char>,
) -> Option<NodeV> {
    crate::node::from_tree_spec(id, meta, key_parent(id), children_of(ids, id), dir)
}

/// What a whole scan loads as, or nothing when any entry is malformed.
pub open spec fn load_nodes(entries: Seq<ScanEntry>, dir: Seq<char>) -> Option<Seq<NodeV>> {
    if forall|i: int|
        0 <= i < entries.len() ==> loaded_node(
            scan_ids(entries),
            (#[trigger] entries[i]).id@,
            entries[i].meta@,
            dir,
        ) is Some {
        Some(
            Seq::new(
                entries.len(),
                |i: int| loaded_node(scan_ids(entries), entries[i].id@, entries[i].meta@, dir)->Some_0,
            ),
        )
    } else {
        None
    }
}

/// First position of a node carrying the tag, or -1.
pub open spec fn first_tagged(nodes: Seq<NodeV>, tag: Seq<char>) -> int
    decreases nodes.len(),
{
    if nodes.len() == 0 {
        -1
    } else if crate::node::contains_str(nodes[0].tags, tag) {
        0
    } else {
        let r = first_tagged(nodes.skip(1), tag);
        if r < 0 {
            -1
        } else {
            r + 1
        }
    }
}

pub proof fn lemma_first_tagged(nodes: Seq<NodeV>, tag: Seq<char>)
    ensures
        first_tagged(nodes, tag) >= 0 ==> {
            let i = first_tagged(nodes, tag);
            0 <= i < nodes.len() && crate::node::contains_str(nodes[i].tags, tag) && forall|j: int|
                0 <= j < i ==> !crate::node::contains_str(nodes[j].tags, tag)
        },
        first_tagged(nodes, tag) < 0 ==> (forall|j: int|
            0 <= j < nodes.len() ==> !crate::node::contains_str(nodes[j].tags, tag))
            && first_tagged(nodes, tag) == -1,
    decreases nodes.len(),
{
    if nodes.len() > 0 && !crate::node::contains_str(nodes[0].tags, tag) {
        lemma_first_tagged(nodes.skip(1), tag);
        let r = first_tagged(nodes.skip(1), tag);
        if r >= 0 {
            assert(nodes.skip(1)[r] == nodes[r + 1]);
            assert forall|j: int|
                0 <= j < r + 1 implies !crate::node::contains_str(nodes[j].tags, tag) by {
                if j > 0 {
                    assert(nodes.skip(1)[j - 1] == nodes[j]);
                }
            }
        } else {
            assert forall|j: int|
                0 <= j < nodes.len() implies !crate::node::contains_str(nodes[j].tags, tag) by {
                if j > 0 {
                    assert(nodes.skip(1)[j - 1] == nodes[j]);
                }
            }
        }
    }
}

/// Whether a node carries the tag.
fn has_tag(node: &Node, tag: &str) -> (r: bool)
    ensures
        r == crate::node::contains_str(node@.tags, tag@),
{
    let t = String::from_str(tag);
    let mut i: usize = 0;
    while i < node.tags.len()
        invariant
            t@ == tag@,
            i <= node.tags@.len(),
            forall|j: int| 0 <= j < i ==> node@.tags[j] != tag@,
        decreases node.tags@.len() - i,
    {
        proof {
            assert(node.tags.deep_view()[i as int] == node.tags@[i as int]@);
        }
        if node.tags[i] == t {
            return true;
        }
        i = i + 1;
    }
    false
}

impl Tree {
    /// First position of a node carrying the tag.
    fn find_tagged(&self, tag: &str) -> (r: Option<usize>)
        ensures
            match r {
                Some(i) => i == first_tagged(self.view_nodes(), tag@) && i < self.nodes@.len(),
                None => first_tagged(self.view_nodes(), tag@) == -1,
            },
    {
        let mut i: usize = 0;
        while i < self.nodes.len()
            invariant
                i <= self.nodes@.len(),
                forall|j: int|
                    0 <= j < i ==> !crate::node::contains_str(
                        node_views(self.nodes@)[j].tags,
                        tag@,
                    ),
            decreases self.nodes@.len() - i,
        {
            proof {
                assert(node_views(self.nodes@)[i as int] == self.nodes@[i as int]@);
            }
            if has_tag(&self.nodes[i], tag) {
                proof {
                    lemma_first_tagged(self.view_nodes(), tag@);
                }
                return Some(i);
            }
            i = i + 1;
        }
        proof {
            lemma_first_tagged(self.view_nodes(), tag@);
        }
        None
    }

    /// Clears and rebuilds the collection from a directory scan: each entry
    /// becomes a node whose parent is written in its key and whose children
    /// are the entries naming it, in scan order.  The anchors are the first
    /// nodes carrying the `journal` and `desk` tags.  A malformed entry is a
    /// parse error; a scan without both anchors leaves the tree unchanged
    /// and reports what is missing.
    pub fn load(&mut self, entries: &Vec<ScanEntry>) -> (r: Result<(), TreeError>)
        ensures
            final(self).dir == old(self).dir,
            r is Ok <==> (load_nodes(entries@, old(self).dir@) is Some && first_tagged(
                load_nodes(entries@, old(self).dir@)->Some_0,
                "journal"@,
            ) >= 0 && first_tagged(load_nodes(entries@, old(self).dir@)->Some_0, "desk"@) >= 0),
            match r {
                Ok(_) => {
                    let loaded = load_nodes(entries@, old(self).dir@);
                    &&& loaded is Some
                    &&& final(self).view_nodes() == loaded->Some_0
                    &&& first_tagged(loaded->Some_0, "journal"@) >= 0
                    &&& first_tagged(loaded->Some_0, "desk"@) >= 0
                    &&& final(self).journal@ == loaded->Some_0[first_tagged(
                        loaded->Some_0,
                        "journal"@,
                    )].id
                    &&& final(self).desk@ == loaded->Some_0[first_tagged(
                        loaded->Some_0,
                        "desk"@,
                    )].id
                },
                Err(e) => {
                    &&& *final(self) == *old(self)
                    &&& (e.kind == TreeErrorKind::Parse <==> load_nodes(entries@, old(self).dir@)
                        is None)
                    &&& e.kind == TreeErrorKind::NotFound ==> load_nodes(
                        entries@,
                        old(self).dir@,
                    ) is Some && (first_tagged(
                        load_nodes(entries@, old(self).dir@)->Some_0,
                        "journal"@,
                    ) < 0 || first_tagged(
                        load_nodes(entries@, old(self).dir@)->Some_0,
                        "desk"@,
                    ) < 0)
                },
            },
    {
        let ghost ids = scan_ids(entries@);
        let ghost dirv = self.dir@;
        let n = entries.len();
        let dir = self.dir.clone();
        let mut built: Vec<Node> = Vec::new();
        let mut i: usize = 0;
        while i < n
            invariant
                self.dir@ == dirv,
                dir@ == dirv,
                ids == scan_ids(entries@),
                n == entries@.len(),
                i <= n,
                forall|q: int|
                    0 <= q < i ==> loaded_node(
                        ids,
                        (#[trigger] entries@[q]).id@,
                        entries@[q].meta@,
                        dirv,
                    ) is Some,
                node_views(built@) =~= Seq::new(
                    i as nat,
                    |q: int| loaded_node(ids, entries@[q].id@, entries@[q].meta@, dirv)->Some_0,
                ),
            decreases n - i,
        {
            // collect the children of this entry, in scan order
            let mut children: Vec<String> = Vec::new();
            let mut j: usize = 0;
            proof {
                assert(ids.skip(0) =~= ids);
                assert(children.deep_view() =~= Seq::<Seq<char>>::empty());
            }
            while j < n
                invariant
                    ids == scan_ids(entries@),
                    n == entries@.len(),
                    i < n,
                    j <= n,
                    children_of(ids, entries@[i as int].id@) =~= children.deep_view()
                        + children_of(ids.skip(j as int), entries@[i as int].id@),
                decreases n - j,
            {
                proof {
                    assert(ids[j as int] == entries@[j as int].id@);
                    assert(ids.skip(j as int)[0] == ids[j as int]);
                    assert(ids.skip(j as int).skip(1) =~= ids.skip(j as int + 1));
                }
                let is_child = match get_parent(&entries[j].id) {
                    Some(pk) => pk == entries[i].id,
                    None => false,
                };
                if is_child {
                    let ghost pre = children.deep_view();
                    children.push(entries[j].id.clone());
                    proof {
                        assert(children.deep_view() =~= pre.push(entries@[j as int].id@));
                        assert(pre.push(entries@[j as int].id@) + children_of(
                            ids.skip(j as int + 1),
                            entries@[i as int].id@,
                        ) =~= pre + (seq![ids[j as int]] + children_of(
                            ids.skip(j as int + 1),
                            entries@[i as int].id@,
                        )));
                    }
                } else {
                    proof {
                        assert(children.deep_view() + (Seq::<Seq<char>>::empty() + children_of(
                            ids.skip(j as int + 1),
                            entries@[i as int].id@,
                        )) =~= children.deep_view() + children_of(
                            ids.skip(j as int + 1),
                            entries@[i as int].id@,
                        ));
                    }
                }
                j = j + 1;
            }
            proof {
                assert(ids.skip(n as int) =~= Seq::<Seq<char>>::empty());
                assert(children_of(ids.skip(n as int), entries@[i as int].id@)
                    =~= Seq::<Seq<char>>::empty());
                assert(children.deep_view() + Seq::<Seq<char>>::empty() =~= children.deep_view());
                assert(children.deep_view() =~= children_of(ids, entries@[i as int].id@));
            }
            let parent = get_parent(&entries[i].id);
            let node = match Node::from_tree(
                entries[i].id.clone(),
                entries[i].meta.as_str(),
                parent,
                children,
                dir.as_str(),
            ) {
                Some(nd) => nd,
                None => {
                    proof {
                        assert(loaded_node(ids, entries@[i as int].id@, entries@[i as int].meta@, dirv)
                            is None);
                        assert(load_nodes(entries@, dirv) is None) by {
                            assert(!(forall|q: int|
                                0 <= q < entries@.len() ==> loaded_node(
                                    ids,
                                    (#[trigger] entries@[q]).id@,
                                    entries@[q].meta@,
                                    dirv,
                                ) is Some)) by {
                                assert(loaded_node(
                                    ids,
                                    entries@[i as int].id@,
                                    entries@[i as int].meta@,
                                    dirv,
                                ) is None);
                            }
                        }
                    }
                    return Err(
                        TreeError::new(
                            TreeErrorKind::Parse,
                            String::from_str("a node's key or metadata did not parse"),
                        ),
                    );
                },
            };
            let ghost pre = node_views(built@);
            built.push(node);
            proof {
                assert(node_views(built@) =~= pre.push(
                    loaded_node(ids, entries@[i as int].id@, entries@[i as int].meta@, dirv)->Some_0,
                ));
            }
            i = i + 1;
        }
        proof {
            assert(load_nodes(entries@, dirv) == Some(node_views(built@)));
        }
        // the anchors: the first journal-tagged and desk-tagged nodes
        let probe = Tree { nodes: built, journal: String::new(), desk: String::new(), dir };
        let ji = match probe.find_tagged("journal") {
            Some(x) => x,
            None => {
                let Tree { nodes: _, journal: _, desk: _, dir: _ } = probe;
                return Err(
                    TreeError::new(TreeErrorKind::NotFound, String::from_str("no journal anchor")),
                );
            },
        };
        let di = match probe.find_tagged("desk") {
            Some(x) => x,
            None => {
                let Tree { nodes: _, journal: _, desk: _, dir: _ } = probe;
                return Err(
                    TreeError::new(TreeErrorKind::NotFound, String::from_str("no desk anchor")),
                );
            },
        };
        let Tree { nodes: built, journal: _, desk: _, dir: _ } = probe;
        proof {
            lemma_first_tagged(node_views(built@), "journal"@);
            lemma_first_tagged(node_views(built@), "desk"@);
            assert(node_views(built@)[ji as int] == built@[ji as int]@);
            assert(node_views(built@)[di as int] == built@[di as int]@);
        }
        let journal = built[ji].id.clone();
        let desk = built[di].id.clone();
        self.nodes = built;
        self.journal = journal;
        self.desk = desk;
        Ok(())
    }
}


// ---------------------------------------------------------------------------
// The day node
// ---------------------------------------------------------------------------

/// A line with its indentation stripped.
pub open spec fn after_indent(line: Seq<char>) -> Seq<char>
    decreases line.len(),
{
    if line.len() > 0 && (line[0] == ' ' || line[0] == '\t') {
        after_indent(line.skip(1))
    } else {
        line
    }
}

/// An unchecked list item: optional indentation, then the fixed marker.
pub open spec fn is_todo(line: Seq<char>) -> bool {
    after_indent(line).len() >= 5 && after_indent(line).take(5) == "- [] "@
}

/// The unchecked items among the lines, in order.
pub open spec fn todo_lines(lines: Seq<Seq<char>>) -> Seq<Seq<char>>
    decreases lines.len(),
{
    if lines.len() == 0 {
        Seq::<Seq<char>>::empty()
    } else {
        (if is_todo(lines[0]) {
            seq![lines[0]]
        } else {
            Seq::<Seq<char>>::empty()
        }) + todo_lines(lines.skip(1))
    }
}

/// Today's content once yesterday's unchecked items moved over: the current
/// text, a line break, the carried items joined by line breaks, and a final
/// line break.
pub open spec fn moved_todos(prior: Seq<char>, current: Seq<char>) -> Seq<char> {
    current + seq!['\n'] + join_with(todo_lines(split_char(prior, '\n')), "\n"@) + seq!['\n']
}

/// Whether a line is an unchecked list item.
fn is_todo_exec(line: &Vec<char>) -> (r: bool)
    ensures
        r == is_todo(line@),
{
    let n = line.len();
    let mut i: usize = 0;
    proof {
        assert(line@.skip(0) =~= line@);
    }
    while i < n && (line[i] == ' ' || line[i] == '\t')
        invariant
            n == line@.len(),
            i <= n,
            after_indent(line@) == after_indent(line@.skip(i as int)),
        decreases n - i,
    {
        proof {
            assert(line@.skip(i as int)[0] == line@[i as int]);
            assert(line@.skip(i as int).skip(1) =~= line@.skip(i as int + 1));
        }
        i = i + 1;
    }
    proof {
        if i < n {
            assert(line@.skip(i as int)[0] == line@[i as int]);
        }
        assert(after_indent(line@) == line@.skip(i as int));
    }
    if n - i < 5 {
        return false;
    }
    let marker = str_chars("- [] ");
    proof {
        reveal_strlit("- [] ");
        assert(marker@.len() == 5);
    }
    let m = crate::chars::match_at_exec(line, &marker, i);
    proof {
        if m {
            assert(line@.subrange(i as int, i as int + 5) =~= line@.skip(i as int).take(5));
        } else {
            if is_todo(line@) {
                assert(line@.skip(i as int).take(5) =~= line@.subrange(i as int, i as int + 5));
            }
        }
    }
    m
}

/// Carries every unchecked list item of the prior day's text onto the end
/// of the current day's text.
pub fn move_todos(prior: String, current: String) -> (r: String)
    ensures
        r@ == moved_todos(prior@, current@),
{
    let pcs = str_chars(prior.as_str());
    let lines = split_char_exec(&pcs, 0, '\n');
    proof {
        assert(pcs@.skip(0) =~= prior@);
    }
    let ghost slines = split_char(prior@, '\n');
    let mut todos: Vec<Vec<char>> = Vec::new();
    let mut i: usize = 0;
    proof {
        assert(slines.skip(0) =~= slines);
        assert(views(todos@) =~= Seq::<Seq<char>>::empty());
    }
    while i < lines.len()
        invariant
            views(lines@) == slines,
            i <= lines@.len(),
            todo_lines(slines) =~= views(todos@) + todo_lines(slines.skip(i as int)),
        decreases lines@.len() - i,
    {
        proof {
            assert(views(lines@)[i as int] == lines@[i as int]@);
            assert(slines.skip(i as int)[0] == slines[i as int]);
            assert(slines.skip(i as int).skip(1) =~= slines.skip(i as int + 1));
        }
        if is_todo_exec(&lines[i]) {
            let ghost pre = views(todos@);
            let line = subvec(&lines[i], 0, lines[i].len());
            proof {
                assert(line@ =~= slines[i as int]);
            }
            todos.push(line);
            proof {
                assert(views(todos@) =~= pre.push(slines[i as int]));
                assert(pre.push(slines[i as int]) + todo_lines(slines.skip(i as int + 1)) =~= pre
                    + (seq![slines[i as int]] + todo_lines(slines.skip(i as int + 1))));
            }
        } else {
            proof {
                assert(views(todos@) + (Seq::<Seq<char>>::empty() + todo_lines(
                    slines.skip(i as int + 1),
                )) =~= views(todos@) + todo_lines(slines.skip(i as int + 1)));
            }
        }
        i = i + 1;
    }
    proof {
        assert(slines.skip(lines@.len() as int) =~= Seq::<Seq<char>>::empty());
        assert(todo_lines(slines.skip(lines@.len() as int)) =~= Seq::<Seq<char>>::empty());
        assert(views(todos@) + Seq::<Seq<char>>::empty() =~= views(todos@));
        assert(views(todos@) =~= todo_lines(slines));
    }
    let mut out: Vec<char> = str_chars(current.as_str());
    out.push('\n');
    let ghost head = out@;
    let mut k: usize = 0;
    proof {
        assert(out@ =~= head + join_with(views(todos@).take(0), "\n"@));
    }
    while k < todos.len()
        invariant
            views(todos@) == todo_lines(slines),
            k <= todos@.len(),
            out@ == head + join_with(views(todos@).take(k as int), "\n"@),
        decreases todos@.len() - k,
    {
        proof {
            assert(views(todos@)[k as int] == todos@[k as int]@);
        }
        if k > 0 {
            out.push('\n');
        }
        extend_chars(&mut out, &todos[k]);
        proof {
            reveal_strlit("\n");
            assert("\n"@ =~= seq!['\n']);
            lemma_join_with_push(views(todos@).take(k as int), views(todos@)[k as int], "\n"@);
            assert(views(todos@).take(k as int + 1) =~= views(todos@).take(k as int).push(
                views(todos@)[k as int],
            ));
            assert(out@ =~= head + join_with(views(todos@).take(k as int + 1), "\n"@));
        }
        k = k + 1;
    }
    out.push('\n');
    proof {
        assert(views(todos@).take(todos@.len() as int) =~= views(todos@));
        assert(out@ =~= moved_todos(prior@, current@));
    }
    chars_to_string(&out)
}

/// Whether `suf` ends `s`.
pub open spec fn ends_with(s: Seq<char>, suf: Seq<char>) -> bool {
    suf.len() <= s.len() && s.skip(s.len() - suf.len()) == suf
}

/// Decides `ends_with`.
fn ends_with_exec(s: &String, suf: &Vec<char>) -> (r: bool)
    ensures
        r == ends_with(s@, suf@),
{
    let cs = str_chars(s.as_str());
    let n = cs.len();
    let m = suf.len();
    if m > n {
        return false;
    }
    let r = crate::chars::match_at_exec(&cs, suf, n - m);
    proof {
        assert(s@.subrange(n - m, n - m + suf@.len() as int) =~= s@.skip(s@.len() - suf@.len()));
    }
    r
}

impl Tree {
    /// The key of today's journal entry.  With no entries yet, today's is
    /// created.  When the newest entry's slug already names today, it is
    /// returned untouched.  Otherwise today's entry is created and every
    /// unchecked list item of the previous newest entry's content, supplied
    /// by the caller, is carried onto the new entry's content file.
    pub fn today_node(
        &mut self,
        today_title: &str,
        yesterday_body: &str,
        now: Stamp,
    ) -> (r: Result<(String, Vec<FsOp>), TreeError>)
        requires
            old(self).wf(),
            old(self).spec_has(old(self).journal@),
        ensures
            final(self).journal == old(self).journal,
            final(self).desk == old(self).desk,
            final(self).dir == old(self).dir,
            r is Err ==> *final(self) == *old(self),
            match r {
                Ok((key, ops)) => {
                    let ns0 = old(self).view_nodes();
                    let ji = find_id(ns0, old(self).journal@);
                    let jn = ns0[ji];
                    if jn.children.len() == 0 {
                        &&& key@ == child_creation_key(ns0, ji, today_title@)
                        &&& final(self).view_nodes() == child_creation_nodes(
                            ns0,
                            ji,
                            today_title@,
                            old(self).dir@,
                            now,
                        )
                        &&& op_views(ops@) == child_creation_ops(
                            ns0,
                            ji,
                            today_title@,
                            old(self).dir@,
                            now,
                        )
                    } else if ends_with(jn.children.last(), slug_of(today_title@)) {
                        &&& key@ == jn.children.last()
                        &&& *final(self) == *old(self)
                        &&& op_views(ops@) == Seq::<FsOpV>::empty()
                    } else {
                        &&& key@ == child_creation_key(ns0, ji, today_title@)
                        &&& final(self).view_nodes() == child_creation_nodes(
                            ns0,
                            ji,
                            today_title@,
                            old(self).dir@,
                            now,
                        )
                        &&& op_views(ops@) == child_creation_ops(
                            ns0,
                            ji,
                            today_title@,
                            old(self).dir@,
                            now,
                        ).push(
                            FsOpV::WriteFileV {
                                path: content_path_of(old(self).dir@, key@),
                                content: moved_todos(yesterday_body@, heading_of(today_title@)),
                            },
                        )
                    }
                },
                Err(e) => {
                    let ns0 = old(self).view_nodes();
                    let ji = find_id(ns0, old(self).journal@);
                    &&& e.kind == TreeErrorKind::InvalidArgs
                    &&& (contains_char(slug_of(today_title@), '/') || ns0[ji].children.len()
                        == u64::MAX)
                },
            },
    {
        let journal = self.journal.clone();
        let ji = match self.find_node(journal.as_str()) {
            Some(i) => i,
            None => {
                proof {
                    assert(false);
                }
                return Err(TreeError::new(TreeErrorKind::NotFound, String::new()));
            },
        };
        proof {
            assert(node_views(self.nodes@)[ji as int] == self.nodes@[ji as int]@);
        }
        if self.nodes[ji].children.len() == 0 {
            return self.create_node(Some(journal.as_str()), Some(today_title), now);
        }
        let last = self.nodes[ji].children.len() - 1;
        proof {
            assert(self.nodes@[ji as int]@.children[last as int] == self.nodes@[ji as int].children@[
                last as int]@);
        }
        let newest = self.nodes[ji].children[last].clone();
        let title_slug = prepare_path_name(today_title);
        let slug_cs = str_chars(title_slug.as_str());
        if ends_with_exec(&newest, &slug_cs) {
            let ops: Vec<FsOp> = Vec::new();
            proof {
                assert(op_views(ops@) =~= Seq::<FsOpV>::empty());
            }
            return Ok((newest, ops));
        }
        let created = self.create_node(Some(journal.as_str()), Some(today_title), now);
        match created {
            Ok((key, mut ops)) => {
                let mut heading: Vec<char> = Vec::new();
                extend_str(&mut heading, "# ");
                extend_str(&mut heading, today_title);
                heading.push('\n');
                proof {
                    assert(heading@ =~= heading_of(today_title@));
                }
                let today_body = move_todos(
                    String::from_str(yesterday_body),
                    chars_to_string(&heading),
                );
                let mut path: Vec<char> = str_chars(self.dir.as_str());
                path.push('/');
                extend_str(&mut path, key.as_str());
                extend_str(&mut path, "/_.md");
                proof {
                    assert(path@ =~= content_path_of(old(self).dir@, key@));
                }
                let ghost pre_ops = op_views(ops@);
                let op = FsOp::WriteFile { path: chars_to_string(&path), content: today_body };
                ops.push(op);
                proof {
                    assert(op_views(ops@) =~= pre_ops.push(
                        FsOpV::WriteFileV {
                            path: content_path_of(old(self).dir@, key@),
                            content: moved_todos(yesterday_body@, heading_of(today_title@)),
                        },
                    ));
                }
                Ok((key, ops))
            },
            Err(e) => Err(e),
        }
    }
}


/// The mathematical contents behind a sequence of node references.
pub open spec fn ref_views(s: Seq<&Node>) -> Seq<NodeV> {
    s.map_values(|p: &Node| p@)
}

impl Tree {
    /// Every node, most recently updated first: sorted by the updated stamp
    /// descending, holding exactly the nodes of the collection.
    #[verifier::rlimit(100)]
    pub fn nodes_by_recency(&self) -> (r: Vec<&Node>)
        ensures
            r@.len() == self.nodes@.len(),
            forall|i: int, j: int|
                0 <= i < j < r@.len() ==> (#[trigger] r@[j])@.updated.spec_le(
                    (#[trigger] r@[i])@.updated,
                ),
            ref_views(r@).to_multiset() == self.view_nodes().to_multiset(),
    {
        let n = self.nodes.len();
        let mut work: Vec<&Node> = Vec::new();
        let mut i: usize = 0;
        while i < n
            invariant
                n == self.nodes@.len(),
                i <= n,
                work@.len() == i,
                forall|q: int| 0 <= q < i ==> (#[trigger] work@[q])@ == self.view_nodes()[q],
            decreases n - i,
        {
            proof {
                assert(node_views(self.nodes@)[i as int] == self.nodes@[i as int]@);
            }
            work.push(&self.nodes[i]);
            i = i + 1;
        }
        let mut out: Vec<&Node> = Vec::new();
        proof {
            assert(ref_views(work@) =~= self.view_nodes());
            let om0 = ref_views(out@);
            om0.to_multiset_ensures();
            assert(om0 =~= Seq::<NodeV>::empty());
            assert forall|x: NodeV| om0.to_multiset().count(x) == 0 by {
                assert(!om0.contains(x));
            }
            assert(om0.to_multiset().add(ref_views(work@).to_multiset())
                =~= self.view_nodes().to_multiset());
        }
        while work.len() > 0
            invariant
                out@.len() + work@.len() == n,
                n == self.nodes@.len(),
                forall|i2: int, j2: int|
                    0 <= i2 < j2 < out@.len() ==> (#[trigger] out@[j2])@.updated.spec_le(
                        (#[trigger] out@[i2])@.updated,
                    ),
                forall|a: int, b: int|
                    0 <= a < work@.len() && 0 <= b < out@.len() ==> (#[trigger] work@[a])@.updated.spec_le(
                        (#[trigger] out@[b])@.updated,
                    ),
                ref_views(out@).to_multiset().add(ref_views(work@).to_multiset())
                    == self.view_nodes().to_multiset(),
            decreases work@.len(),
        {
            let mut best: usize = 0;
            let mut t: usize = 1;
            while t < work.len()
                invariant
                    work@.len() > 0,
                    best < work@.len(),
                    t <= work@.len(),
                    forall|q: int|
                        0 <= q < t ==> (#[trigger] work@[q])@.updated.spec_le(
                            work@[best as int]@.updated,
                        ),
                decreases work@.len() - t,
            {
                if work[best].updated.le(&work[t].updated) {
                    proof {
                        // order is transitive: everything below the old best
                        // sits below the new one
                        assert forall|q: int|
                            0 <= q < t + 1 implies (#[trigger] work@[q])@.updated.spec_le(
                            work@[t as int]@.updated,
                        ) by {
                            if q < t {
                                assert(work@[q]@.updated.spec_le(work@[best as int]@.updated));
                            }
                        }
                    }
                    best = t;
                } else {
                    proof {
                        // a total order: not at or above means strictly below
                        assert(work@[t as int]@.updated.spec_le(work@[best as int]@.updated));
                    }
                }
                t = t + 1;
            }
            let ghost work_pre = work@;
            let chosen = work.remove(best);
            let ghost out_pre = out@;
            out.push(chosen);
            proof {
                assert(out@ =~= out_pre.push(chosen));
                assert forall|a: int|
                    0 <= a < work@.len() implies (#[trigger] work@[a])@.updated.spec_le(
                    chosen@.updated,
                ) by {
                    if a < best {
                        assert(work@[a] == work_pre[a]);
                    } else {
                        assert(work@[a] == work_pre[a + 1]);
                    }
                }
                // the element moved from the working set to the output, so
                // the combined multiset is unchanged
                let wm = ref_views(work_pre);
                let om = ref_views(out_pre);
                assert(ref_views(work@) =~= wm.remove(best as int));
                assert(ref_views(out@) =~= om.push(chosen@));
                wm.to_multiset_ensures();
                om.to_multiset_ensures();
                assert(wm[best as int] == chosen@);
                assert(wm.remove(best as int).to_multiset() =~= wm.to_multiset().remove(chosen@));
                assert(om.push(chosen@).to_multiset() =~= om.to_multiset().insert(chosen@));
                assert(wm.to_multiset().count(chosen@) > 0) by {
                    assert(wm.contains(chosen@)) by {
                        assert(wm[best as int] == chosen@);
                    }
                }
                assert(om.to_multiset().insert(chosen@).add(wm.to_multiset().remove(chosen@))
                    =~= om.to_multiset().add(wm.to_multiset()));
            }
        }
        proof {
            let wm0 = ref_views(work@);
            wm0.to_multiset_ensures();
            assert(wm0 =~= Seq::<NodeV>::empty());
            assert forall|x: NodeV| wm0.to_multiset().count(x) == 0 by {
                assert(!wm0.contains(x));
            }
            assert(ref_views(out@).to_multiset().add(wm0.to_multiset())
                =~= ref_views(out@).to_multiset());
        }
        out
    }
}


/// Whether a vector of keys holds the given key.
fn contains_key_exec(keys: &Vec<String>, k: &String) -> (r: bool)
    ensures
        r == contains_seq(keys.deep_view(), k@),
{
    let mut i: usize = 0;
    while i < keys.len()
        invariant
            i <= keys@.len(),
            forall|j: int| 0 <= j < i ==> keys.deep_view()[j] != k@,
        decreases keys@.len() - i,
    {
        proof {
            assert(keys.deep_view()[i as int] == keys@[i as int]@);
        }
        if keys[i] == *k {
            return true;
        }
        i = i + 1;
    }
    false
}

/// Whether every segment of a key holds a hyphen.
fn segs_dashed_exec(id: &String) -> (r: bool)
    ensures
        r == crate::ident::segs_dashed(id@),
{
    let cs = str_chars(id.as_str());
    let segs = split_char_exec(&cs, 0, '/');
    proof {
        assert(cs@.skip(0) =~= id@);
    }
    let mut i: usize = 0;
    while i < segs.len()
        invariant
            views(segs@) == split_char(id@, '/'),
            i <= segs@.len(),
            forall|j: int| 0 <= j < i ==> contains_char(#[trigger] split_char(id@, '/')[j], '-'),
        decreases segs@.len() - i,
    {
        proof {
            assert(views(segs@)[i as int] == segs@[i as int]@);
        }
        match index_of_char(&segs[i], '-') {
            Some(_) => {},
            None => {
                proof {
                    assert(!contains_char(split_char(id@, '/')[i as int], '-'));
                }
                return false;
            },
        }
        i = i + 1;
    }
    true
}

impl Tree {
    /// Decides well-formedness, so an embedding program can test it after a
    /// load before it mutates the tree.
    #[verifier::rlimit(100)]
    pub fn check_wf(&self) -> (r: bool)
        ensures
            r == self.wf(),
    {
        let ghost ns = self.view_nodes();
        let n = self.nodes.len();
        let mut i: usize = 0;
        while i < n
            invariant
                ns == self.view_nodes(),
                n == self.nodes@.len(),
                i <= n,
                forall|a: int, b: int| 0 <= a < b < i ==> ns[a].id != ns[b].id,
                forall|a: int|
                    0 <= a < i ==> crate::ident::segs_dashed(#[trigger] ns[a].id) && key_index_ok(
                        ns[a].id,
                    ),
                forall|a: int| 0 <= a < i ==> (#[trigger] ns[a].parent) == key_parent(ns[a].id),
                forall|a: int, k: int|
                    0 <= a < i && 0 <= k < ns[a].children.len() ==> {
                        &&& key_parent(#[trigger] ns[a].children[k]) == Some(ns[a].id)
                        &&& has_id(ns, ns[a].children[k])
                        &&& key_index_ok(ns[a].children[k])
                        &&& key_index(ns[a].children[k]) == k + 1
                    },
                forall|a: int|
                    0 <= a < i && ns[a].parent is Some ==> {
                        let p = find_id(ns, ns[a].parent->Some_0);
                        &&& has_id(ns, ns[a].parent->Some_0)
                        &&& contains_seq(ns[p].children, ns[a].id)
                    },
            decreases n - i,
        {
            proof {
                assert(node_views(self.nodes@)[i as int] == self.nodes@[i as int]@);
            }
            // distinct identifiers
            let mut b: usize = 0;
            while b < i
                invariant
                    ns == self.view_nodes(),
                    n == self.nodes@.len(),
                    i < n,
                    b <= i,
                    forall|a: int| 0 <= a < b ==> ns[a].id != ns[i as int].id,
                decreases i - b,
            {
                proof {
                    assert(node_views(self.nodes@)[b as int] == self.nodes@[b as int]@);
                    assert(node_views(self.nodes@)[i as int] == self.nodes@[i as int]@);
                }
                if self.nodes[b].id == self.nodes[i].id {
                    return false;
                }
                b = b + 1;
            }
            // the key itself is well formed
            if !segs_dashed_exec(&self.nodes[i].id) {
                return false;
            }
            match key_index_exec(&self.nodes[i].id) {
                Some(_) => {},
                None => {
                    return false;
                },
            }
            // the parent pointer matches the key structure
            let written = get_parent(&self.nodes[i].id);
            let pointer_ok: bool;
            match (&self.nodes[i].parent, &written) {
                (None, None) => {
                    pointer_ok = true;
                    proof {
                        assert(ns[i as int].parent is None);
                        assert(key_parent(ns[i as int].id) is None);
                    }
                },
                (Some(a), Some(bk)) => {
                    pointer_ok = *a == *bk;
                    proof {
                        assert(ns[i as int].parent == Some(a@));
                        assert(key_parent(ns[i as int].id) == Some(bk@));
                    }
                },
                (None, Some(_)) => {
                    pointer_ok = false;
                    proof {
                        assert(ns[i as int].parent is None);
                        assert(key_parent(ns[i as int].id) is Some);
                    }
                },
                (Some(a), None) => {
                    pointer_ok = false;
                    proof {
                        assert(ns[i as int].parent == Some(a@));
                        assert(key_parent(ns[i as int].id) is None);
                    }
                },
            }
            if !pointer_ok {
                return false;
            }
            // every child entry is present, points back, and is aligned
            let ghost me = ns[i as int];
            let clen = self.nodes[i].children.len();
            let mut k: usize = 0;
            while k < clen
                invariant
                    ns == self.view_nodes(),
                    n == self.nodes@.len(),
                    i < n,
                    ns[i as int] == me,
                    clen == me.children.len(),
                    k <= clen,
                    forall|q: int|
                        0 <= q < k ==> {
                            &&& key_parent(#[trigger] me.children[q]) == Some(me.id)
                            &&& has_id(ns, me.children[q])
                            &&& key_index_ok(me.children[q])
                            &&& key_index(me.children[q]) == q + 1
                        },
                decreases clen - k,
            {
                proof {
                    assert(node_views(self.nodes@)[i as int] == self.nodes@[i as int]@);
                    assert(me.children[k as int] == self.nodes@[i as int].children@[k as int]@);
                }
                let child = self.nodes[i].children[k].clone();
                let child_parent_ok: bool;
                match get_parent(&child) {
                    Some(p) => {
                        child_parent_ok = p == self.nodes[i].id;
                        proof {
                            assert(key_parent(child@) == Some(p@));
                            assert(me.id == self.nodes@[i as int]@.id);
                        }
                    },
                    None => {
                        child_parent_ok = false;
                        proof {
                            assert(key_parent(child@) is None);
                        }
                    },
                }
                if !child_parent_ok {
                    return false;
                }
                if self.find_node(child.as_str()).is_none() {
                    return false;
                }
                let idx = match key_index_exec(&child) {
                    Some(x) => x,
                    None => {
                        return false;
                    },
                };
                if !(idx == k as u64 + 1) {
                    return false;
                }
                k = k + 1;
            }
            // a non-root node is listed by its parent
            let listed_ok = match &self.nodes[i].parent {
                None => true,
                Some(pk) => {
                    let pk = pk.clone();
                    match self.find_node(pk.as_str()) {
                        None => false,
                        Some(pi) => {
                            proof {
                                assert(node_views(self.nodes@)[pi as int]
                                    == self.nodes@[pi as int]@);
                            }
                            contains_key_exec(&self.nodes[pi].children, &self.nodes[i].id)
                        },
                    }
                },
            };
            if !listed_ok {
                return false;
            }
            i = i + 1;
        }
        true
    }
}

} // verus!
