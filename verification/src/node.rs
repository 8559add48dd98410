//! One entry of the tree: its identifier, display name, family pointers,
//! links, backlinks, tags and timestamps, together with the filesystem
//! effects that persist it.  Mutating operations return the effects as plain
//! values instead of touching the disk; the caller performs them.

use vstd::prelude::*;

use crate::chars::all_digits;
use crate::chars::chars_to_string;
use crate::chars::dec_of;
use crate::chars::dec_val;
use crate::chars::extend_chars;
use crate::chars::extend_str;
use crate::chars::find_char;
use crate::chars::fmt_u64;
use crate::chars::index_of_char;
use crate::chars::lemma_find_char;
use crate::chars::lemma_rfind_char;
use crate::chars::parse_u64;
use crate::chars::rfind_char;
use crate::chars::rindex_of_char;
use crate::chars::str_chars;
use crate::chars::subvec;
use crate::chars::sort_strs;
use crate::chars::sort_strings;
use crate::chars::contains_char;
use crate::ident::display_of;
use crate::ident::lemma_split_append_seg;
use crate::ident::lemma_split_no_sep;
use crate::ident::segs_dashed;
use crate::ident::format_display_name;
use crate::ident::prepare_path_name;
use crate::ident::slug_of;
use crate::ident::split_char;
use crate::ident::split_char_exec;
use crate::ident::views;
use crate::link::NodeLink;
use crate::link::NodeLinkV;
use crate::link::link_record;
use crate::link::spec_parse_link;
use crate::meta::NodeMeta;
use crate::meta::NodeMetaV;
use crate::meta::meta_text;
use crate::meta::parse_meta;
use crate::stamp::Stamp;

verus! {

/// One filesystem effect that a tree operation asks for.  Operations hand
/// these back in order; performing them in that order reproduces on disk
/// what the operation did in memory.
#[derive(Debug, Clone)]
pub enum FsOp {
    /// Create a directory (parents included).
    MkDir { path: String },
    /// Create or overwrite a file with the given text.
    WriteFile { path: String, content: String },
    /// Rename a directory, contents moving with it.
    RenameDir { from: String, to: String },
}

/// The mathematical content of an `FsOp`.
pub enum FsOpV {
    MkDirV { path: Seq<char> },
    WriteFileV { path: Seq<char>, content: Seq<char> },
    RenameDirV { from: Seq<char>, to: Seq<char> },
}

impl View for FsOp {
    type V = FsOpV;

    open spec fn view(&self) -> FsOpV {
        match self {
            FsOp::MkDir { path } => FsOpV::MkDirV { path: path@ },
            FsOp::WriteFile { path, content } => FsOpV::WriteFileV {
                path: path@,
                content: content@,
            },
            FsOp::RenameDir { from, to } => FsOpV::RenameDirV { from: from@, to: to@ },
        }
    }
}

/// The effect views of a list of effects.
pub open spec fn op_views(ops: Seq<FsOp>) -> Seq<FsOpV> {
    ops.map_values(|op: FsOp| op@)
}

// ---------------------------------------------------------------------------
// Keys
// ---------------------------------------------------------------------------

/// The final `/`-separated segment of a key; the whole key at the root.
pub open spec fn tail_seg(id: Seq<char>) -> Seq<char> {
    id.skip(rfind_char(id, '/') + 1)
}

/// The digits of a segment, before its first hyphen.
pub open spec fn seg_num_part(seg: Seq<char>) -> Seq<char> {
    seg.take(find_char(seg, '-'))
}

/// The slug of a segment, after its first hyphen.
pub open spec fn seg_name_part(seg: Seq<char>) -> Seq<char> {
    seg.skip(find_char(seg, '-') + 1)
}

/// Whether a key's own numeric index can be read off its final segment.
pub open spec fn key_index_ok(id: Seq<char>) -> bool {
    let seg = tail_seg(id);
    find_char(seg, '-') >= 1 && all_digits(seg_num_part(seg)) && dec_val(seg_num_part(seg))
        <= u64::MAX
}

/// The numeric index held in a key's final segment.
pub open spec fn key_index(id: Seq<char>) -> nat {
    dec_val(seg_num_part(tail_seg(id)))
}

/// The key of a child: the parent's key, a slash, the index, a hyphen and
/// the slug.
pub open spec fn child_key(parent_id: Seq<char>, index: nat, slug: Seq<char>) -> Seq<char> {
    parent_id + seq!['/'] + dec_of(index) + seq!['-'] + slug
}

/// The key of a root node: the index, a hyphen and the slug.
pub open spec fn root_key(index: nat, slug: Seq<char>) -> Seq<char> {
    dec_of(index) + seq!['-'] + slug
}

/// Reads the numeric index out of a key's final segment.
pub fn key_index_exec(id: &String) -> (r: Option<u64>)
    ensures
        match r {
            Some(x) => key_index_ok(id@) && x == key_index(id@),
            None => !key_index_ok(id@),
        },
{
    let cs = str_chars(id.as_str());
    let n = cs.len();
    let start = match rindex_of_char(&cs, '/') {
        Some(i) => i + 1,
        None => 0,
    };
    let seg = subvec(&cs, start, n);
    proof {
        lemma_rfind_char(cs@, '/');
        assert(seg@ =~= tail_seg(id@));
    }
    let dash = match index_of_char(&seg, '-') {
        Some(d) => d,
        None => {
            proof {
                lemma_find_char(seg@, '-');
            }
            return None;
        },
    };
    if dash == 0 {
        return None;
    }
    let num = subvec(&seg, 0, dash);
    proof {
        assert(num@ =~= seg_num_part(tail_seg(id@)));
    }
    parse_u64(&num)
}

// ---------------------------------------------------------------------------
// Node
// ---------------------------------------------------------------------------

/// One node of the tree.
#[derive(Debug)]
pub struct Node {
    pub id: String,
    pub name: String,
    pub display_name: String,
    pub parent: Option<String>,
    pub children: Vec<String>,
    pub links: Vec<NodeLink>,
    pub backlinks: Vec<NodeLink>,
    pub tags: Vec<String>,
    pub internal: Vec<String>,
    pub created: Stamp,
    pub updated: Stamp,
    pub updates: u64,
    pub directory: String,
}

/// The mathematical content of a `Node`.
pub struct NodeV {
    pub id: Seq<char>,
    pub name: Seq<char>,
    pub display_name: Seq<char>,
    pub parent: Option<Seq<char>>,
    pub children: Seq<Seq<char>>,
    pub links: Seq<NodeLinkV>,
    pub backlinks: Seq<NodeLinkV>,
    pub tags: Seq<Seq<char>>,
    pub internal: Seq<Seq<char>>,
    pub created: Stamp,
    pub updated: Stamp,
    pub updates: int,
    pub directory: Seq<char>,
}

/// The views of a sequence of links.
pub open spec fn link_views(links: Seq<NodeLink>) -> Seq<NodeLinkV> {
    links.map_values(|l: NodeLink| l@)
}

impl View for Node {
    type V = NodeV;

    open spec fn view(&self) -> NodeV {
        NodeV {
            id: self.id@,
            name: self.name@,
            display_name: self.display_name@,
            parent: self.parent.deep_view(),
            children: self.children.deep_view(),
            links: link_views(self.links@),
            backlinks: link_views(self.backlinks@),
            tags: self.tags.deep_view(),
            internal: self.internal.deep_view(),
            created: self.created,
            updated: self.updated,
            updates: self.updates as int,
            directory: self.directory@,
        }
    }
}

/// The link records a node's metadata holds, in link order.
pub open spec fn records_of(links: Seq<NodeLinkV>) -> Seq<Seq<char>> {
    links.map_values(|l: NodeLinkV| link_record(l))
}

/// What a node's serialized metadata holds: tags and internal markers are
/// written as ascending-sorted copies, links and backlinks as their records
/// in stored order.
pub open spec fn meta_of(n: NodeV) -> NodeMetaV {
    NodeMetaV {
        name: n.name,
        tags: sort_strs(n.tags),
        links: records_of(n.links),
        backlinks: records_of(n.backlinks),
        created: n.created,
        updated: n.updated,
        updates: n.updates,
        internal: sort_strs(n.internal),
    }
}

/// The path of a node's metadata file under its root directory.
pub open spec fn meta_path_of(dir: Seq<char>, id: Seq<char>) -> Seq<char> {
    dir + seq!['/'] + id + "/meta.toml"@
}

/// The path of a node's content file under its root directory.
pub open spec fn content_path_of(dir: Seq<char>, id: Seq<char>) -> Seq<char> {
    dir + seq!['/'] + id + "/_.md"@
}

/// The date-aware update tick: the updated stamp always becomes `now`; the
/// counter grows by one exactly when the calendar date changed, saturating
/// at its maximum.
pub open spec fn ticked_updates(updates: int, updated: Stamp, now: Stamp) -> int {
    if !now.spec_same_date(updated) && updates < u64::MAX {
        updates + 1
    } else {
        updates
    }
}

impl NodeMeta {
    /// A fresh metadata record for a node that was just created.
    pub fn new(name: String, now: Stamp) -> (m: NodeMeta)
        ensures
            m@ == (NodeMetaV {
                name: name@,
                tags: Seq::<Seq<char>>::empty(),
                links: Seq::<Seq<char>>::empty(),
                backlinks: Seq::<Seq<char>>::empty(),
                created: now,
                updated: now,
                updates: 1,
                internal: Seq::<Seq<char>>::empty(),
            }),
    {
        let m = NodeMeta {
            name,
            tags: Vec::new(),
            links: Vec::new(),
            backlinks: Vec::new(),
            created: now,
            updated: now,
            updates: 1,
            internal: Vec::new(),
        };
        proof {
            assert(m@.tags =~= Seq::<Seq<char>>::empty());
            assert(m@.links =~= Seq::<Seq<char>>::empty());
            assert(m@.backlinks =~= Seq::<Seq<char>>::empty());
            assert(m@.internal =~= Seq::<Seq<char>>::empty());
        }
        m
    }

    /// The metadata record of a node's current in-memory state.
    pub fn from(node: &Node) -> (m: NodeMeta)
        ensures
            m@ == meta_of(node@),
    {
        let links = record_strings(&node.links);
        let backlinks = record_strings(&node.backlinks);
        NodeMeta {
            name: node.name.clone(),
            tags: sort_strings(&node.tags),
            links,
            backlinks,
            created: node.created,
            updated: node.updated,
            updates: node.updates,
            internal: sort_strings(&node.internal),
        }
    }
}

/// The record strings of a list of links, in order.
pub fn record_strings(links: &Vec<NodeLink>) -> (r: Vec<String>)
    ensures
        r.deep_view() == records_of(link_views(links@)),
{
    let mut r: Vec<String> = Vec::new();
    let mut i: usize = 0;
    while i < links.len()
        invariant
            i <= links@.len(),
            r.deep_view() =~= records_of(link_views(links@)).take(i as int),
        decreases links@.len() - i,
    {
        let ghost pre = r.deep_view();
        r.push(links[i].to_toml());
        proof {
            assert(r.deep_view() =~= pre.push(link_record(links@[i as int]@)));
            assert(records_of(link_views(links@))[i as int] == link_record(links@[i as int]@));
            assert(pre.push(link_record(links@[i as int]@)) =~= records_of(
                link_views(links@),
            ).take(i as int + 1));
        }
        i = i + 1;
    }
    proof {
        assert(records_of(link_views(links@)).take(links@.len() as int) =~= records_of(
            link_views(links@),
        ));
    }
    r
}

impl Node {
    /// The path of this node's metadata file.
    pub fn metadata_path(&self) -> (r: String)
        ensures
            r@ == meta_path_of(self.directory@, self.id@),
    {
        let mut out: Vec<char> = str_chars(self.directory.as_str());
        out.push('/');
        extend_str(&mut out, self.id.as_str());
        extend_str(&mut out, "/meta.toml");
        proof {
            assert(out@ =~= meta_path_of(self.directory@, self.id@));
        }
        chars_to_string(&out)
    }

    /// The path of this node's content file.
    pub fn content_path(&self) -> (r: String)
        ensures
            r@ == content_path_of(self.directory@, self.id@),
    {
        let mut out: Vec<char> = str_chars(self.directory.as_str());
        out.push('/');
        extend_str(&mut out, self.id.as_str());
        extend_str(&mut out, "/_.md");
        proof {
            assert(out@ =~= content_path_of(self.directory@, self.id@));
        }
        chars_to_string(&out)
    }

    /// The effect that overwrites this node's metadata file with its
    /// current fields.
    pub fn write_meta(&self) -> (op: FsOp)
        ensures
            op@ == (FsOpV::WriteFileV {
                path: meta_path_of(self.directory@, self.id@),
                content: meta_text(meta_of(self@)),
            }),
    {
        let path = self.metadata_path();
        let content = NodeMeta::from(self).to_toml();
        FsOp::WriteFile { path, content }
    }

    /// Refreshes the updated stamp, counts the update if the calendar date
    /// changed, and persists.
    pub fn tick_update_and_write_meta(&mut self, now: Stamp) -> (op: FsOp)
        ensures
            final(self)@ == (NodeV {
                updated: now,
                updates: ticked_updates(old(self)@.updates, old(self).updated, now),
                ..old(self)@
            }),
            op@ == (FsOpV::WriteFileV {
                path: meta_path_of(old(self).directory@, old(self).id@),
                content: meta_text(meta_of(final(self)@)),
            }),
    {
        if !now.same_date(&self.updated) && self.updates < u64::MAX {
            self.updates = self.updates + 1;
        }
        self.updated = now;
        self.write_meta()
    }

    /// This node's own numeric index within its sibling group.
    pub fn index(&self) -> (r: Option<u64>)
        ensures
            match r {
                Some(x) => key_index_ok(self.id@) && x == key_index(self.id@),
                None => !key_index_ok(self.id@),
            },
    {
        key_index_exec(&self.id)
    }
}


// ---------------------------------------------------------------------------
// Link tables
// ---------------------------------------------------------------------------

/// First position of the link keyed by `text`, or -1.
pub open spec fn link_pos(links: Seq<NodeLinkV>, text: Seq<char>) -> int
    decreases links.len(),
{
    if links.len() == 0 {
        -1
    } else if links[0].text == text {
        0
    } else {
        let r = link_pos(links.skip(1), text);
        if r < 0 {
            -1
        } else {
            r + 1
        }
    }
}

pub proof fn lemma_link_pos(links: Seq<NodeLinkV>, text: Seq<char>)
    ensures
        link_pos(links, text) >= 0 ==> {
            let i = link_pos(links, text);
            0 <= i < links.len() && links[i].text == text && forall|j: int|
                0 <= j < i ==> links[j].text != text
        },
        link_pos(links, text) < 0 ==> (forall|j: int|
            0 <= j < links.len() ==> links[j].text != text) && link_pos(links, text) == -1,
    decreases links.len(),
{
    if links.len() > 0 && links[0].text != text {
        lemma_link_pos(links.skip(1), text);
        let r = link_pos(links.skip(1), text);
        if r >= 0 {
            assert(links.skip(1)[r] == links[r + 1]);
            assert forall|j: int| 0 <= j < r + 1 implies links[j].text != text by {
                if j > 0 {
                    assert(links.skip(1)[j - 1] == links[j]);
                }
            }
        } else {
            assert forall|j: int| 0 <= j < links.len() implies links[j].text != text by {
                if j > 0 {
                    assert(links.skip(1)[j - 1] == links[j]);
                }
            }
        }
    }
}

/// First position of the backlink keyed by `(text, timestamp)`, or -1.
pub open spec fn backlink_pos(links: Seq<NodeLinkV>, text: Seq<char>, timestamp: int) -> int
    decreases links.len(),
{
    if links.len() == 0 {
        -1
    } else if links[0].text == text && links[0].timestamp == timestamp {
        0
    } else {
        let r = backlink_pos(links.skip(1), text, timestamp);
        if r < 0 {
            -1
        } else {
            r + 1
        }
    }
}

pub proof fn lemma_backlink_pos(links: Seq<NodeLinkV>, text: Seq<char>, timestamp: int)
    ensures
        backlink_pos(links, text, timestamp) >= 0 ==> {
            let i = backlink_pos(links, text, timestamp);
            0 <= i < links.len() && links[i].text == text && links[i].timestamp == timestamp
                && forall|j: int|
                0 <= j < i ==> !(links[j].text == text && links[j].timestamp == timestamp)
        },
        backlink_pos(links, text, timestamp) < 0 ==> (forall|j: int|
            0 <= j < links.len() ==> !(links[j].text == text && links[j].timestamp == timestamp))
            && backlink_pos(links, text, timestamp) == -1,
    decreases links.len(),
{
    if links.len() > 0 && !(links[0].text == text && links[0].timestamp == timestamp) {
        lemma_backlink_pos(links.skip(1), text, timestamp);
        let r = backlink_pos(links.skip(1), text, timestamp);
        if r >= 0 {
            assert(links.skip(1)[r] == links[r + 1]);
            assert forall|j: int|
                0 <= j < r + 1 implies !(links[j].text == text && links[j].timestamp
                == timestamp) by {
                if j > 0 {
                    assert(links.skip(1)[j - 1] == links[j]);
                }
            }
        } else {
            assert forall|j: int|
                0 <= j < links.len() implies !(links[j].text == text && links[j].timestamp
                == timestamp) by {
                if j > 0 {
                    assert(links.skip(1)[j - 1] == links[j]);
                }
            }
        }
    }
}

/// Inserting a link keyed by its text: replaces the entry with that text,
/// or appends a new one.
pub open spec fn upsert_link(links: Seq<NodeLinkV>, l: NodeLinkV) -> Seq<NodeLinkV> {
    let i = link_pos(links, l.text);
    if i >= 0 {
        links.update(i, l)
    } else {
        links.push(l)
    }
}

/// Inserting a backlink keyed by its text and timestamp.
pub open spec fn upsert_backlink(links: Seq<NodeLinkV>, l: NodeLinkV) -> Seq<NodeLinkV> {
    let i = backlink_pos(links, l.text, l.timestamp);
    if i >= 0 {
        links.update(i, l)
    } else {
        links.push(l)
    }
}

/// The link table after the entry keyed by `text` is retargeted to point at
/// `new_id`; unchanged when no entry has that text.
pub open spec fn retarget_link(links: Seq<NodeLinkV>, text: Seq<char>, new_id: Seq<char>)
    -> Seq<NodeLinkV> {
    let i = link_pos(links, text);
    if i >= 0 {
        links.update(i, NodeLinkV { node: new_id, ..links[i] })
    } else {
        links
    }
}

/// The backlink table after the entry keyed by `(text, timestamp)` is
/// retargeted to point at `new_id`; unchanged when no entry has that key.
pub open spec fn retarget_backlink(
    links: Seq<NodeLinkV>,
    text: Seq<char>,
    timestamp: int,
    new_id: Seq<char>,
) -> Seq<NodeLinkV> {
    let i = backlink_pos(links, text, timestamp);
    if i >= 0 {
        links.update(i, NodeLinkV { node: new_id, ..links[i] })
    } else {
        links
    }
}

/// Whether some string of the sequence equals `t`.
pub open spec fn contains_str(ss: Seq<Seq<char>>, t: Seq<char>) -> bool {
    exists|i: int| 0 <= i < ss.len() && ss[i] == t
}

impl Node {
    /// Finds the position of the link keyed by `text`.
    fn find_link(&self, text: &String) -> (r: Option<usize>)
        ensures
            match r {
                Some(i) => i == link_pos(self@.links, text@) && i < self.links@.len(),
                None => link_pos(self@.links, text@) == -1,
            },
    {
        let mut i: usize = 0;
        while i < self.links.len()
            invariant
                i <= self.links@.len(),
                forall|j: int| 0 <= j < i ==> link_views(self.links@)[j].text != text@,
            decreases self.links@.len() - i,
        {
            proof {
                assert(link_views(self.links@)[i as int] == self.links@[i as int]@);
            }
            if self.links[i].text == *text {
                proof {
                    lemma_link_pos(self@.links, text@);
                }
                return Some(i);
            }
            i = i + 1;
        }
        proof {
            lemma_link_pos(self@.links, text@);
        }
        None
    }

    /// Finds the position of the backlink keyed by `(text, timestamp)`.
    fn find_backlink(&self, text: &String, timestamp: i64) -> (r: Option<usize>)
        ensures
            match r {
                Some(i) => i == backlink_pos(self@.backlinks, text@, timestamp as int) && i
                    < self.backlinks@.len(),
                None => backlink_pos(self@.backlinks, text@, timestamp as int) == -1,
            },
    {
        let mut i: usize = 0;
        while i < self.backlinks.len()
            invariant
                i <= self.backlinks@.len(),
                forall|j: int|
                    0 <= j < i ==> !(link_views(self.backlinks@)[j].text == text@ && link_views(
                        self.backlinks@,
                    )[j].timestamp == timestamp as int),
            decreases self.backlinks@.len() - i,
        {
            proof {
                assert(link_views(self.backlinks@)[i as int] == self.backlinks@[i as int]@);
            }
            if self.backlinks[i].text == *text && self.backlinks[i].timestamp == timestamp {
                proof {
                    lemma_backlink_pos(self@.backlinks, text@, timestamp as int);
                }
                return Some(i);
            }
            i = i + 1;
        }
        proof {
            lemma_backlink_pos(self@.backlinks, text@, timestamp as int);
        }
        None
    }

    /// Stores a link under its text, replacing any link with the same text,
    /// and persists.
    pub fn insert_link(&mut self, link: NodeLink, now: Stamp) -> (op: FsOp)
        ensures
            final(self)@ == (NodeV {
                links: upsert_link(old(self)@.links, link@),
                updated: now,
                updates: ticked_updates(old(self)@.updates, old(self).updated, now),
                ..old(self)@
            }),
            op@ == (FsOpV::WriteFileV {
                path: meta_path_of(old(self).directory@, old(self).id@),
                content: meta_text(meta_of(final(self)@)),
            }),
    {
        let ghost pre = self@.links;
        match self.find_link(&link.text) {
            Some(i) => {
                self.links.remove(i);
                self.links.insert(i, link);
                proof {
                    assert(link_views(self.links@) =~= upsert_link(pre, link@));
                }
            },
            None => {
                self.links.push(link);
                proof {
                    assert(link_views(self.links@) =~= upsert_link(pre, link@));
                }
            },
        }
        self.tick_update_and_write_meta(now)
    }

    /// Stores a backlink under its text and timestamp, replacing any entry
    /// with the same key, and persists.
    pub fn insert_backlink(&mut self, backlink: NodeLink, now: Stamp) -> (op: FsOp)
        ensures
            final(self)@ == (NodeV {
                backlinks: upsert_backlink(old(self)@.backlinks, backlink@),
                updated: now,
                updates: ticked_updates(old(self)@.updates, old(self).updated, now),
                ..old(self)@
            }),
            op@ == (FsOpV::WriteFileV {
                path: meta_path_of(old(self).directory@, old(self).id@),
                content: meta_text(meta_of(final(self)@)),
            }),
    {
        let ghost pre = self@.backlinks;
        match self.find_backlink(&backlink.text, backlink.timestamp) {
            Some(i) => {
                self.backlinks.remove(i);
                self.backlinks.insert(i, backlink);
                proof {
                    assert(link_views(self.backlinks@) =~= upsert_backlink(pre, backlink@));
                }
            },
            None => {
                self.backlinks.push(backlink);
                proof {
                    assert(link_views(self.backlinks@) =~= upsert_backlink(pre, backlink@));
                }
            },
        }
        self.tick_update_and_write_meta(now)
    }

    /// Points the link keyed by `text` at a renamed node.  Part of the
    /// rename-propagation primitive: the in-memory update only, so a batch
    /// of renames can be applied in any order and persisted once.
    pub fn rename_link(&mut self, text: &String, new_id: &String)
        ensures
            final(self)@ == (NodeV {
                links: retarget_link(old(self)@.links, text@, new_id@),
                ..old(self)@
            }),
    {
        let ghost pre = self@.links;
        match self.find_link(text) {
            Some(i) => {
                let l = self.links.remove(i);
                let updated = NodeLink {
                    node: new_id.clone(),
                    text: l.text,
                    timestamp: l.timestamp,
                    line: l.line,
                    col: l.col,
                    is_name_linked: l.is_name_linked,
                };
                self.links.insert(i, updated);
                proof {
                    assert(link_views(self.links@) =~= retarget_link(pre, text@, new_id@));
                }
            },
            None => {
                proof {
                    assert(link_views(self.links@) =~= retarget_link(pre, text@, new_id@));
                }
            },
        }
    }

    /// Points the backlink keyed by `(text, timestamp)` at a renamed node;
    /// the other half of the rename-propagation primitive.
    pub fn rename_backlink(&mut self, text: &String, timestamp: i64, new_id: &String)
        ensures
            final(self)@ == (NodeV {
                backlinks: retarget_backlink(
                    old(self)@.backlinks,
                    text@,
                    timestamp as int,
                    new_id@,
                ),
                ..old(self)@
            }),
    {
        let ghost pre = self@.backlinks;
        match self.find_backlink(text, timestamp) {
            Some(i) => {
                let l = self.backlinks.remove(i);
                let updated = NodeLink {
                    node: new_id.clone(),
                    text: l.text,
                    timestamp: l.timestamp,
                    line: l.line,
                    col: l.col,
                    is_name_linked: l.is_name_linked,
                };
                self.backlinks.insert(i, updated);
                proof {
                    assert(link_views(self.backlinks@) =~= retarget_backlink(
                        pre,
                        text@,
                        timestamp as int,
                        new_id@,
                    ));
                }
            },
            None => {
                proof {
                    assert(link_views(self.backlinks@) =~= retarget_backlink(
                        pre,
                        text@,
                        timestamp as int,
                        new_id@,
                    ));
                }
            },
        }
    }

    /// Adds a tag if it is not already held, and persists.
    pub fn tag(&mut self, new_tag: String, now: Stamp) -> (op: FsOp)
        ensures
            final(self)@ == (NodeV {
                tags: if contains_str(old(self)@.tags, new_tag@) {
                    old(self)@.tags
                } else {
                    old(self)@.tags.push(new_tag@)
                },
                updated: now,
                updates: ticked_updates(old(self)@.updates, old(self).updated, now),
                ..old(self)@
            }),
            op@ == (FsOpV::WriteFileV {
                path: meta_path_of(old(self).directory@, old(self).id@),
                content: meta_text(meta_of(final(self)@)),
            }),
    {
        let mut found = false;
        let mut i: usize = 0;
        while i < self.tags.len()
            invariant
                i <= self.tags@.len(),
                found <==> exists|j: int| 0 <= j < i && self.tags.deep_view()[j] == new_tag@,
            decreases self.tags@.len() - i,
        {
            proof {
                assert(self.tags.deep_view()[i as int] == self.tags@[i as int]@);
            }
            if !found && self.tags[i] == new_tag {
                found = true;
            }
            i = i + 1;
        }
        if !found {
            let ghost pre = self.tags.deep_view();
            self.tags.push(new_tag);
            proof {
                assert(self.tags.deep_view() =~= pre.push(new_tag@));
            }
        }
        self.tick_update_and_write_meta(now)
    }
}


// ---------------------------------------------------------------------------
// Construction and loading
// ---------------------------------------------------------------------------

/// The directory of a node under the tree root.
pub open spec fn node_dir_of(dir: Seq<char>, id: Seq<char>) -> Seq<char> {
    dir + seq!['/'] + id
}

/// The initial content file: a single heading line with the node's name.
pub open spec fn heading_of(name: Seq<char>) -> Seq<char> {
    "# "@ + name + seq!['\n']
}

/// Parses every link record, or nothing if any is malformed.
pub open spec fn parse_links_all(records: Seq<Seq<char>>) -> Option<Seq<NodeLinkV>> {
    if forall|i: int| 0 <= i < records.len() ==> spec_parse_link(#[trigger] records[i]) is Some {
        Some(Seq::new(records.len(), |i: int| spec_parse_link(records[i])->Some_0))
    } else {
        None
    }
}

/// What a node reads back as from its key, metadata text and the positional
/// facts the directory scan supplies.
pub open spec fn from_tree_spec(
    id: Seq<char>,
    text: Seq<char>,
    parent: Option<Seq<char>>,
    children: Seq<Seq<char>>,
    dir: Seq<char>,
) -> Option<NodeV> {
    if !segs_dashed(id) {
        None
    } else {
        match parse_meta(text) {
            None => None,
            Some(m) => match (parse_links_all(m.links), parse_links_all(m.backlinks)) {
                (Some(links), Some(backlinks)) => Some(
                    NodeV {
                        id: id,
                        name: m.name,
                        display_name: display_of(id),
                        parent: parent,
                        children: children,
                        links: links,
                        backlinks: backlinks,
                        tags: m.tags,
                        internal: m.internal,
                        created: m.created,
                        updated: m.updated,
                        updates: m.updates,
                        directory: dir,
                    },
                ),
                _ => None,
            },
        }
    }
}

/// Parses a list of link records into links.
fn parse_link_records(records: &Vec<String>) -> (r: Option<Vec<NodeLink>>)
    ensures
        match r {
            Some(links) => parse_links_all(records.deep_view()) == Some(link_views(links@)),
            None => parse_links_all(records.deep_view()) is None,
        },
{
    let ghost specs = records.deep_view();
    let mut out: Vec<NodeLink> = Vec::new();
    let mut i: usize = 0;
    while i < records.len()
        invariant
            specs == records.deep_view(),
            i <= records@.len(),
            specs.len() == records@.len(),
            forall|j: int| 0 <= j < i ==> spec_parse_link(#[trigger] specs[j]) is Some,
            link_views(out@) =~= Seq::new(i as nat, |j: int| spec_parse_link(specs[j])->Some_0),
        decreases records@.len() - i,
    {
        proof {
            assert(specs[i as int] == records@[i as int]@);
        }
        match NodeLink::from_toml(records[i].as_str()) {
            Some(l) => {
                let ghost pre = link_views(out@);
                out.push(l);
                proof {
                    assert(link_views(out@) =~= pre.push(l@));
                    assert(link_views(out@) =~= Seq::new(
                        (i + 1) as nat,
                        |j: int| spec_parse_link(specs[j])->Some_0,
                    ));
                }
            },
            None => {
                proof {
                    assert(spec_parse_link(specs[i as int]) is None);
                    assert(parse_links_all(specs) is None) by {
                        assert(!(forall|j: int|
                            0 <= j < specs.len() ==> spec_parse_link(#[trigger] specs[j])
                                is Some)) by {
                            assert(spec_parse_link(specs[i as int]) is None);
                        }
                    }
                }
                return None;
            },
        }
        i = i + 1;
    }
    proof {
        assert(parse_links_all(specs) == Some(link_views(out@)));
    }
    Some(out)
}

impl Node {
    /// Builds a fresh node in memory: the child case takes its index from
    /// the parent's family size, the root case from the supplied root-level
    /// count.
    fn new(name: String, parent: Option<&Node>, root_index: u64, directory: String, now: Stamp)
        -> (n: Node)
        requires
            match parent {
                Some(p) => p.children@.len() < u64::MAX && segs_dashed(p.id@),
                None => true,
            },
            !contains_char(slug_of(name@), '/'),
        ensures
            n@ == (NodeV {
                id: match parent {
                    Some(p) => child_key(p.id@, (p.children@.len() + 1) as nat, slug_of(name@)),
                    None => root_key(root_index as nat, slug_of(name@)),
                },
                name: name@,
                display_name: display_of(
                    match parent {
                        Some(p) => child_key(p.id@, (p.children@.len() + 1) as nat, slug_of(name@)),
                        None => root_key(root_index as nat, slug_of(name@)),
                    },
                ),
                parent: match parent {
                    Some(p) => Some(p.id@),
                    None => None,
                },
                children: Seq::<Seq<char>>::empty(),
                links: Seq::<NodeLinkV>::empty(),
                backlinks: Seq::<NodeLinkV>::empty(),
                tags: Seq::<Seq<char>>::empty(),
                internal: Seq::<Seq<char>>::empty(),
                created: now,
                updated: now,
                updates: 1,
                directory: directory@,
            }),
    {
        let path_name = prepare_path_name(name.as_str());
        let slug = str_chars(path_name.as_str());
        let mut id_chars: Vec<char> = Vec::new();
        let parent_id: Option<String>;
        match parent {
            Some(p) => {
                let sib: u64 = p.children.len() as u64 + 1;
                extend_str(&mut id_chars, p.id.as_str());
                id_chars.push('/');
                let num = fmt_u64(sib);
                extend_chars(&mut id_chars, &num);
                id_chars.push('-');
                extend_chars(&mut id_chars, &slug);
                parent_id = Some(p.id.clone());
                proof {
                    assert(id_chars@ =~= child_key(
                        p.id@,
                        (p.children@.len() + 1) as nat,
                        slug_of(name@),
                    ));
                }
            },
            None => {
                let num = fmt_u64(root_index);
                extend_chars(&mut id_chars, &num);
                id_chars.push('-');
                extend_chars(&mut id_chars, &slug);
                parent_id = None;
                proof {
                    assert(id_chars@ =~= root_key(root_index as nat, slug_of(name@)));
                }
            },
        }
        proof {
            lemma_new_key_dashed(
                match parent {
                    Some(p) => Some(p.id@),
                    None => None,
                },
                match parent {
                    Some(p) => (p.children@.len() + 1) as nat,
                    None => root_index as nat,
                },
                slug_of(name@),
            );
        }
        let id = chars_to_string(&id_chars);
        let display_name = format_display_name(id.as_str());
        let n = Node {
            id,
            name,
            display_name,
            parent: parent_id,
            children: Vec::new(),
            links: Vec::new(),
            backlinks: Vec::new(),
            tags: Vec::new(),
            internal: Vec::new(),
            created: now,
            updated: now,
            updates: 1,
            directory,
        };
        proof {
            assert(n@.children =~= Seq::<Seq<char>>::empty());
            assert(n@.links =~= Seq::<NodeLinkV>::empty());
            assert(n@.backlinks =~= Seq::<NodeLinkV>::empty());
            assert(n@.tags =~= Seq::<Seq<char>>::empty());
            assert(n@.internal =~= Seq::<Seq<char>>::empty());
        }
        n
    }

    /// Creates a node and the effects that put it on disk: its directory,
    /// its metadata file, and its content file holding the heading line.
    pub fn create(name: String, parent: Option<&Node>, path: &str, root_index: u64, now: Stamp)
        -> (r: (Node, Vec<FsOp>))
        requires
            match parent {
                Some(p) => p.children@.len() < u64::MAX && segs_dashed(p.id@),
                None => true,
            },
            !contains_char(slug_of(name@), '/'),
        ensures
            r.0@ == (NodeV {
                id: match parent {
                    Some(p) => child_key(p.id@, (p.children@.len() + 1) as nat, slug_of(name@)),
                    None => root_key(root_index as nat, slug_of(name@)),
                },
                name: name@,
                display_name: display_of(r.0@.id),
                parent: match parent {
                    Some(p) => Some(p.id@),
                    None => None,
                },
                children: Seq::<Seq<char>>::empty(),
                links: Seq::<NodeLinkV>::empty(),
                backlinks: Seq::<NodeLinkV>::empty(),
                tags: Seq::<Seq<char>>::empty(),
                internal: Seq::<Seq<char>>::empty(),
                created: now,
                updated: now,
                updates: 1,
                directory: path@,
            }),
            op_views(r.1@) == seq![
                FsOpV::MkDirV { path: node_dir_of(path@, r.0@.id) },
                FsOpV::WriteFileV {
                    path: meta_path_of(path@, r.0@.id),
                    content: meta_text(meta_of(r.0@)),
                },
                FsOpV::WriteFileV {
                    path: content_path_of(path@, r.0@.id),
                    content: heading_of(name@),
                },
            ],
    {
        let dir = String::from_str(path);
        let node = Node::new(name, parent, root_index, dir, now);
        let mut dir_chars: Vec<char> = str_chars(path);
        dir_chars.push('/');
        extend_str(&mut dir_chars, node.id.as_str());
        proof {
            assert(dir_chars@ =~= node_dir_of(path@, node.id@));
        }
        let meta_op = node.write_meta();
        let mut content: Vec<char> = Vec::new();
        extend_str(&mut content, "# ");
        extend_str(&mut content, node.name.as_str());
        content.push('\n');
        proof {
            assert(content@ =~= heading_of(node.name@));
        }
        let content_op = FsOp::WriteFile {
            path: node.content_path(),
            content: chars_to_string(&content),
        };
        let mut ops: Vec<FsOp> = Vec::new();
        ops.push(FsOp::MkDir { path: chars_to_string(&dir_chars) });
        ops.push(meta_op);
        ops.push(content_op);
        proof {
            assert(op_views(ops@) =~= seq![
                FsOpV::MkDirV { path: node_dir_of(path@, node.id@) },
                FsOpV::WriteFileV {
                    path: meta_path_of(path@, node.id@),
                    content: meta_text(meta_of(node@)),
                },
                FsOpV::WriteFileV {
                    path: content_path_of(path@, node.id@),
                    content: heading_of(node.name@),
                },
            ]);
        }
        (node, ops)
    }

    /// Creates a child under this node, appends it to the family, counts
    /// the update, and returns the child with all persistence effects.
    pub fn create_child(&mut self, name: String, path: &str, now: Stamp) -> (r: (Node, Vec<FsOp>))
        requires
            old(self).children@.len() < u64::MAX,
            segs_dashed(old(self).id@),
            !contains_char(slug_of(name@), '/'),
        ensures
            r.0@ == (NodeV {
                id: child_key(
                    old(self).id@,
                    (old(self).children@.len() + 1) as nat,
                    slug_of(name@),
                ),
                name: name@,
                display_name: display_of(r.0@.id),
                parent: Some(old(self).id@),
                children: Seq::<Seq<char>>::empty(),
                links: Seq::<NodeLinkV>::empty(),
                backlinks: Seq::<NodeLinkV>::empty(),
                tags: Seq::<Seq<char>>::empty(),
                internal: Seq::<Seq<char>>::empty(),
                created: now,
                updated: now,
                updates: 1,
                directory: path@,
            }),
            final(self)@ == (NodeV {
                children: old(self)@.children.push(r.0@.id),
                updated: now,
                updates: ticked_updates(old(self)@.updates, old(self).updated, now),
                ..old(self)@
            }),
            op_views(r.1@) == seq![
                FsOpV::MkDirV { path: node_dir_of(path@, r.0@.id) },
                FsOpV::WriteFileV {
                    path: meta_path_of(path@, r.0@.id),
                    content: meta_text(meta_of(r.0@)),
                },
                FsOpV::WriteFileV {
                    path: content_path_of(path@, r.0@.id),
                    content: heading_of(name@),
                },
                FsOpV::WriteFileV {
                    path: meta_path_of(old(self).directory@, old(self).id@),
                    content: meta_text(meta_of(final(self)@)),
                },
            ],
    {
        let (child, mut ops) = Node::create(name, Some(&*self), path, 0, now);
        let ghost pre_children = self.children.deep_view();
        let cid = child.id.clone();
        self.children.push(cid);
        proof {
            assert(self.children.deep_view() =~= pre_children.push(child.id@));
        }
        let op = self.tick_update_and_write_meta(now);
        let ghost pre_ops = op_views(ops@);
        ops.push(op);
        proof {
            assert(op_views(ops@) =~= pre_ops.push(op@));
        }
        (child, ops)
    }

    /// Reads a node back from its key, its metadata file text, and the
    /// parent, children and root directory that the scan of the tree's
    /// directories supplies.  Nothing when the key or the metadata is
    /// malformed.
    pub fn from_tree(
        id: String,
        meta: &str,
        parent: Option<String>,
        children: Vec<String>,
        directory: &str,
    ) -> (r: Option<Node>)
        ensures
            match r {
                Some(n) => from_tree_spec(
                    id@,
                    meta@,
                    parent.deep_view(),
                    children.deep_view(),
                    directory@,
                ) == Some(n@),
                None => from_tree_spec(
                    id@,
                    meta@,
                    parent.deep_view(),
                    children.deep_view(),
                    directory@,
                ) is None,
            },
    {
        let cs = str_chars(id.as_str());
        let segs = split_char_exec(&cs, 0, '/');
        proof {
            assert(cs@.skip(0) =~= id@);
        }
        let mut i: usize = 0;
        while i < segs.len()
            invariant
                views(segs@) == split_char(id@, '/'),
                i <= segs@.len(),
                forall|j: int|
                    0 <= j < i ==> contains_char(#[trigger] split_char(id@, '/')[j], '-'),
            decreases segs@.len() - i,
        {
            proof {
                assert(views(segs@)[i as int] == segs@[i as int]@);
            }
            match crate::chars::index_of_char(&segs[i], '-') {
                Some(_) => {},
                None => {
                    proof {
                        assert(!contains_char(split_char(id@, '/')[i as int], '-'));
                    }
                    return None;
                },
            }
            i = i + 1;
        }
        let display_name = format_display_name(id.as_str());
        let m = match NodeMeta::from_toml(meta) {
            Some(m) => m,
            None => {
                return None;
            },
        };
        let links = match parse_link_records(&m.links) {
            Some(l) => l,
            None => {
                return None;
            },
        };
        let backlinks = match parse_link_records(&m.backlinks) {
            Some(l) => l,
            None => {
                return None;
            },
        };
        Some(
            Node {
                id,
                name: m.name,
                display_name,
                parent,
                children,
                links,
                backlinks,
                tags: m.tags,
                internal: m.internal,
                created: m.created,
                updated: m.updated,
                updates: m.updates,
                directory: String::from_str(directory),
            },
        )
    }
}

/// A key assembled from a parent key with hyphenated segments, an index and
/// a slash-free slug has hyphenated segments itself.
proof fn lemma_new_key_dashed(parent_id: Option<Seq<char>>, index: nat, slug: Seq<char>)
    requires
        match parent_id {
            Some(pid) => segs_dashed(pid),
            None => true,
        },
        !contains_char(slug, '/'),
    ensures
        match parent_id {
            Some(pid) => segs_dashed(child_key(pid, index, slug)),
            None => segs_dashed(root_key(index, slug)),
        },
{
    let seg = dec_of(index) + seq!['-'] + slug;
    crate::chars::lemma_dec_of_digits(index);
    crate::chars::lemma_find_char(slug, '/');
    assert forall|i: int| 0 <= i < seg.len() implies seg[i] != '/' by {
        if i < dec_of(index).len() {
            assert(all_digits(dec_of(index)));
            assert(crate::chars::is_digit(dec_of(index)[i]));
        } else if i == dec_of(index).len() {
            assert(seg[i] == '-');
        } else {
            assert(seg[i] == slug[i - dec_of(index).len() - 1]);
        }
    }
    assert(contains_char(seg, '-')) by {
        crate::chars::lemma_find_char(seg, '-');
        if !contains_char(seg, '-') {
            assert(seg[dec_of(index).len() as int] == '-');
        }
    }
    match parent_id {
        Some(pid) => {
            lemma_split_append_seg(pid, seg, '/');
            assert(child_key(pid, index, slug) =~= pid + seq!['/'] + seg);
            let parts = split_char(child_key(pid, index, slug), '/');
            assert(parts == split_char(pid, '/').push(seg));
            assert forall|i: int| 0 <= i < parts.len() implies contains_char(
                #[trigger] parts[i],
                '-',
            ) by {
                if i < parts.len() - 1 {
                    assert(parts[i] == split_char(pid, '/')[i]);
                } else {
                    assert(parts[i] == seg);
                }
            }
        },
        None => {
            lemma_split_no_sep(seg, '/');
            assert(root_key(index, slug) =~= seg);
            let parts = split_char(root_key(index, slug), '/');
            assert(parts == seq![seg]);
        },
    }
}

} // verus!
