//! The metadata file: one record per node, holding its name, tags, link and
//! backlink records, creation and update stamps, and the update counter, in
//! a fixed line-oriented form.  Strings are quoted with backslash escapes, so
//! a value can never introduce a raw quote or a line break into the file.

use vstd::prelude::*;

use crate::chars::chars_to_string;
use crate::chars::extend_chars;
use crate::chars::extend_str;
use crate::chars::find_sub;
use crate::chars::fmt_u64;
use crate::chars::dec_of;
use crate::chars::index_of_sub;
use crate::chars::parse_u64;
use crate::chars::spec_parse_u64;
use crate::chars::str_chars;
use crate::chars::subvec;
use crate::ident::join_with;
use crate::ident::lemma_join_with_push;
use crate::ident::split_char;
use crate::ident::split_char_exec;
use crate::ident::views;
use crate::stamp::Stamp;
use crate::stamp::spec_parse_stamp;
use crate::stamp::parse_stamp;

verus! {

/// The serialized fields of one node.
#[derive(Debug, Clone)]
pub struct NodeMeta {
    pub name: String,
    pub tags: Vec<String>,
    pub links: Vec<String>,
    pub backlinks: Vec<String>,
    pub created: Stamp,
    pub updated: Stamp,
    pub updates: u64,
    pub internal: Vec<String>,
}

/// The mathematical content of a `NodeMeta`.
pub struct NodeMetaV {
    pub name: Seq<char>,
    pub tags: Seq<Seq<char>>,
    pub links: Seq<Seq<char>>,
    pub backlinks: Seq<Seq<char>>,
    pub created: Stamp,
    pub updated: Stamp,
    pub updates: int,
    pub internal: Seq<Seq<char>>,
}

impl View for NodeMeta {
    type V = NodeMetaV;

    open spec fn view(&self) -> NodeMetaV {
        NodeMetaV {
            name: self.name@,
            tags: self.tags.deep_view(),
            links: self.links.deep_view(),
            backlinks: self.backlinks.deep_view(),
            created: self.created,
            updated: self.updated,
            updates: self.updates as int,
            internal: self.internal.deep_view(),
        }
    }
}

// ---------------------------------------------------------------------------
// Escaping
// ---------------------------------------------------------------------------

/// How one character is written inside a quoted string.
pub open spec fn esc_char(c: char) -> Seq<char> {
    if c == '\\' {
        seq!['\\', '\\']
    } else if c == '"' {
        seq!['\\', '"']
    } else if c == '\n' {
        seq!['\\', 'n']
    } else if c == '\r' {
        seq!['\\', 'r']
    } else if c == '\t' {
        seq!['\\', 't']
    } else {
        seq![c]
    }
}

/// A string escaped for quoting: never holds a raw quote, backslash-escape
/// pair broken, or line break.
pub open spec fn esc(s: Seq<char>) -> Seq<char>
    decreases s.len(),
{
    if s.len() == 0 {
        Seq::<char>::empty()
    } else {
        esc_char(s[0]) + esc(s.skip(1))
    }
}

pub proof fn lemma_esc_append(a: Seq<char>, b: Seq<char>)
    ensures
        esc(a + b) == esc(a) + esc(b),
    decreases a.len(),
{
    if a.len() == 0 {
        assert(a + b =~= b);
        assert(esc(a) + esc(b) =~= esc(b));
    } else {
        lemma_esc_append(a.skip(1), b);
        assert((a + b).skip(1) =~= a.skip(1) + b);
        assert((a + b)[0] == a[0]);
        assert(esc_char(a[0]) + (esc(a.skip(1)) + esc(b)) =~= (esc_char(a[0]) + esc(a.skip(1)))
            + esc(b));
    }
}

/// Escapes a string for quoting.
pub fn esc_exec(v: &Vec<char>) -> (r: Vec<char>)
    ensures
        r@ == esc(v@),
{
    let mut out: Vec<char> = Vec::new();
    let mut i: usize = 0;
    while i < v.len()
        invariant
            i <= v@.len(),
            out@ == esc(v@.subrange(0, i as int)),
        decreases v@.len() - i,
    {
        let c = v[i];
        if c == '\\' {
            out.push('\\');
            out.push('\\');
        } else if c == '"' {
            out.push('\\');
            out.push('"');
        } else if c == '\n' {
            out.push('\\');
            out.push('n');
        } else if c == '\r' {
            out.push('\\');
            out.push('r');
        } else if c == '\t' {
            out.push('\\');
            out.push('t');
        } else {
            out.push(c);
        }
        proof {
            let pre = v@.subrange(0, i as int);
            assert(v@.subrange(0, i + 1) =~= pre + seq![v@[i as int]]);
            lemma_esc_append(pre, seq![v@[i as int]]);
            assert(seq![v@[i as int]].skip(1) =~= Seq::<char>::empty());
            assert(esc_char(v@[i as int]) + esc(Seq::<char>::empty()) =~= esc_char(v@[i as int]));
            assert(esc(seq![v@[i as int]]) =~= esc_char(v@[i as int]));
            assert(out@ =~= esc(pre) + esc_char(v@[i as int]));
        }
        i = i + 1;
    }
    proof {
        assert(v@.subrange(0, v@.len() as int) =~= v@);
    }
    out
}

/// What an escape pair's second character stands for.
pub open spec fn unesc_char(c: char) -> Option<char> {
    if c == '\\' {
        Some('\\')
    } else if c == '"' {
        Some('"')
    } else if c == 'n' {
        Some('\n')
    } else if c == 'r' {
        Some('\r')
    } else if c == 't' {
        Some('\t')
    } else {
        None
    }
}

/// Undoes `esc`; nothing on a dangling or unknown escape.
pub open spec fn unesc(s: Seq<char>) -> Option<Seq<char>>
    decreases s.len(),
{
    if s.len() == 0 {
        Some(Seq::<char>::empty())
    } else if s[0] == '\\' {
        if s.len() >= 2 {
            match unesc_char(s[1]) {
                Some(c) => match unesc(s.skip(2)) {
                    Some(rest) => Some(seq![c] + rest),
                    None => None,
                },
                None => None,
            }
        } else {
            None
        }
    } else {
        match unesc(s.skip(1)) {
            Some(rest) => Some(seq![s[0]] + rest),
            None => None,
        }
    }
}

/// Escaping then unescaping gives the string back.
pub proof fn lemma_esc_roundtrip(s: Seq<char>)
    ensures
        unesc(esc(s)) == Some(s),
    decreases s.len(),
{
    if s.len() == 0 {
    } else {
        lemma_esc_roundtrip(s.skip(1));
        let e = esc(s);
        assert(e == esc_char(s[0]) + esc(s.skip(1)));
        if s[0] == '\\' || s[0] == '"' || s[0] == '\n' || s[0] == '\r' || s[0] == '\t' {
            assert(e.len() >= 2);
            assert(e[0] == '\\');
            assert(e.skip(2) =~= esc(s.skip(1)));
            assert(unesc_char(e[1]) == Some(s[0]));
            assert(seq![s[0]] + s.skip(1) =~= s);
        } else {
            assert(e[0] == s[0]);
            assert(e[0] != '\\');
            assert(e.skip(1) =~= esc(s.skip(1)));
            assert(seq![s[0]] + s.skip(1) =~= s);
        }
    }
}

/// Unescapes a vector of characters.
pub fn unesc_exec(v: &Vec<char>) -> (r: Option<Vec<char>>)
    ensures
        match r {
            Some(out) => unesc(v@) == Some(out@),
            None => unesc(v@) is None,
        },
{
    let n = v.len();
    let mut out: Vec<char> = Vec::new();
    let mut i: usize = 0;
    proof {
        assert(v@.skip(0) =~= v@);
        if unesc(v@) is Some {
            assert(Seq::<char>::empty() + unesc(v@)->Some_0 =~= unesc(v@)->Some_0);
        }
    }
    while i < n
        invariant
            n == v@.len(),
            i <= v@.len(),
            unesc(v@) == match unesc(v@.skip(i as int)) {
                Some(rest) => Some(out@ + rest),
                None => None::<Seq<char>>,
            },
        decreases v@.len() - i,
    {
        let ghost tail = v@.skip(i as int);
        let c = v[i];
        proof {
            assert(tail[0] == v@[i as int]);
        }
        if c == '\\' {
            if i + 1 >= n {
                proof {
                    assert(tail.len() == 1);
                    assert(unesc(tail) is None);
                }
                return None;
            }
            let e = v[i + 1];
            proof {
                assert(tail[1] == v@[i + 1]);
            }
            let u: char;
            if e == '\\' {
                u = '\\';
            } else if e == '"' {
                u = '"';
            } else if e == 'n' {
                u = '\n';
            } else if e == 'r' {
                u = '\r';
            } else if e == 't' {
                u = '\t';
            } else {
                proof {
                    assert(unesc_char(tail[1]) is None);
                    assert(unesc(tail) is None);
                }
                return None;
            }
            let ghost out_pre = out@;
            out.push(u);
            proof {
                assert(unesc_char(tail[1]) == Some(u));
                assert(tail.skip(2) =~= v@.skip(i + 2));
                assert(out@ =~= out_pre + seq![u]);
                if unesc(v@.skip(i + 2)) is Some {
                    let rest = unesc(v@.skip(i + 2))->Some_0;
                    assert(unesc(tail) == Some(seq![u] + rest));
                    assert(out_pre + (seq![u] + rest) =~= out@ + rest);
                } else {
                    assert(unesc(tail) is None);
                }
            }
            i = i + 2;
        } else {
            let ghost out_pre = out@;
            out.push(c);
            proof {
                assert(tail.skip(1) =~= v@.skip(i + 1));
                assert(out@ =~= out_pre + seq![c]);
                if unesc(v@.skip(i + 1)) is Some {
                    let rest = unesc(v@.skip(i + 1))->Some_0;
                    assert(unesc(tail) == Some(seq![c] + rest));
                    assert(out_pre + (seq![c] + rest) =~= out@ + rest);
                } else {
                    assert(unesc(tail) is None);
                }
            }
            i = i + 1;
        }
    }
    proof {
        assert(v@.skip(v@.len() as int) =~= Seq::<char>::empty());
        assert(unesc(v@.skip(v@.len() as int)) == Some(Seq::<char>::empty()));
        assert(out@ + Seq::<char>::empty() =~= out@);
    }
    Some(out)
}

// ---------------------------------------------------------------------------
// Lists of quoted strings
// ---------------------------------------------------------------------------

/// A quoted, escaped string.
pub open spec fn quoted(s: Seq<char>) -> Seq<char> {
    seq!['"'] + esc(s) + seq!['"']
}

/// A bracketed list of quoted strings, comma-space separated.
pub open spec fn list_text(items: Seq<Seq<char>>) -> Seq<char> {
    seq!['['] + join_with(items.map_values(|s: Seq<char>| quoted(s)), ", "@) + seq![']']
}

/// Writes a list of strings.
pub fn list_text_exec(items: &Vec<String>) -> (r: Vec<char>)
    ensures
        r@ == list_text(items.deep_view()),
{
    let ghost parts = items.deep_view().map_values(|s: Seq<char>| quoted(s));
    let mut out: Vec<char> = Vec::new();
    out.push('[');
    let mut i: usize = 0;
    while i < items.len()
        invariant
            i <= items@.len(),
            items.deep_view().len() == items@.len(),
            parts == items.deep_view().map_values(|s: Seq<char>| quoted(s)),
            out@ == seq!['['] + join_with(parts.take(i as int), ", "@),
        decreases items@.len() - i,
    {
        if i > 0 {
            extend_str(&mut out, ", ");
        }
        let ghost pre = out@;
        out.push('"');
        let cs = str_chars(items[i].as_str());
        let e = esc_exec(&cs);
        extend_chars(&mut out, &e);
        out.push('"');
        proof {
            assert(items.deep_view()[i as int] == items@[i as int]@);
            assert(out@ =~= pre + quoted(items.deep_view()[i as int]));
            lemma_join_with_push(parts.take(i as int), parts[i as int], ", "@);
            assert(parts.take(i + 1) =~= parts.take(i as int).push(parts[i as int]));
            assert(parts[i as int] == quoted(items.deep_view()[i as int]));
            assert(out@ =~= seq!['['] + join_with(parts.take(i + 1), ", "@));
        }
        i = i + 1;
    }
    out.push(']');
    proof {
        assert(parts.take(parts.len() as int) =~= parts);
        assert(out@ =~= list_text(items.deep_view()));
    }
    out
}

/// Splits at every occurrence of `pat`, first occurrence first.  The guards
/// keep the recursion well-founded; for a non-empty pattern they never fire.
pub open spec fn split_sub(s: Seq<char>, pat: Seq<char>) -> Seq<Seq<char>>
    decreases s.len(),
{
    let i = find_sub(s, pat);
    if pat.len() == 0 || i < 0 || i + pat.len() > s.len() {
        seq![s]
    } else {
        seq![s.take(i)] + split_sub(s.skip(i + pat.len() as int), pat)
    }
}

/// Splits a vector at every occurrence of `pat`.
pub fn split_sub_exec(v: &Vec<char>, pat: &Vec<char>) -> (r: Vec<Vec<char>>)
    requires
        pat@.len() >= 1,
    ensures
        views(r@) == split_sub(v@, pat@),
        r@.len() >= 1,
{
    let mut acc: Vec<Vec<char>> = Vec::new();
    let mut rest: Vec<char> = subvec(v, 0, v.len());
    proof {
        assert(rest@ =~= v@);
        assert(views(acc@) + split_sub(rest@, pat@) =~= split_sub(v@, pat@));
    }
    loop
        invariant
            pat@.len() >= 1,
            views(acc@) + split_sub(rest@, pat@) == split_sub(v@, pat@),
        decreases rest@.len(),
    {
        match index_of_sub(&rest, pat) {
            Some(i) => {
                let part = subvec(&rest, 0, i);
                let vlen = rest.len();
                let next = subvec(&rest, i + pat.len(), vlen);
                proof {
                    assert(part@ =~= rest@.take(i as int));
                    assert(next@ =~= rest@.skip(i + pat@.len() as int));
                    assert(split_sub(rest@, pat@) == seq![rest@.take(i as int)] + split_sub(
                        next@,
                        pat@,
                    ));
                }
                let ghost old_acc = acc@;
                acc.push(part);
                proof {
                    assert(views(acc@) =~= views(old_acc) + seq![rest@.take(i as int)]);
                    assert(views(acc@) + split_sub(next@, pat@) =~= split_sub(v@, pat@));
                }
                rest = next;
            },
            None => {
                proof {
                    crate::chars::lemma_find_sub(rest@, pat@);
                    assert(split_sub(rest@, pat@) == seq![rest@]);
                }
                let ghost old_acc = acc@;
                let ghost tailv = rest@;
                acc.push(rest);
                proof {
                    assert(views(acc@) =~= views(old_acc) + seq![tailv]);
                    assert(views(acc@) =~= split_sub(v@, pat@));
                }
                return acc;
            },
        }
    }
}

// ---------------------------------------------------------------------------
// The meta record
// ---------------------------------------------------------------------------

/// The whole metadata file for one node.
#[verifier::opaque]
pub open spec fn meta_text(m: NodeMetaV) -> Seq<char> {
    "name = "@ + quoted(m.name) + seq!['\n'] + "tags = "@ + list_text(m.tags) + seq!['\n']
        + "links = "@ + list_text(m.links) + seq!['\n'] + "backlinks = "@ + list_text(m.backlinks)
        + seq!['\n'] + "created = "@ + quoted_stamp(m.created) + seq!['\n'] + "updated = "@
        + quoted_stamp(m.updated) + seq!['\n'] + "updates = "@ + dec_of(m.updates as nat)
        + seq!['\n'] + "internal = "@ + list_text(m.internal) + seq!['\n']
}

/// A stamp in quotes; stamp texts never need escaping.
pub open spec fn quoted_stamp(t: Stamp) -> Seq<char> {
    seq!['"'] + t.spec_text() + seq!['"']
}

impl NodeMeta {
    /// Writes the metadata file text.
    #[verifier::rlimit(100)]
    pub fn to_toml(&self) -> (r: String)
        ensures
            r@ == meta_text(self@),
    {
        let mut out: Vec<char> = Vec::new();
        extend_str(&mut out, "name = ");
        out.push('"');
        let name_cs = str_chars(self.name.as_str());
        let name_esc = esc_exec(&name_cs);
        extend_chars(&mut out, &name_esc);
        out.push('"');
        out.push('\n');
        extend_str(&mut out, "tags = ");
        let tags = list_text_exec(&self.tags);
        extend_chars(&mut out, &tags);
        out.push('\n');
        extend_str(&mut out, "links = ");
        let links = list_text_exec(&self.links);
        extend_chars(&mut out, &links);
        out.push('\n');
        extend_str(&mut out, "backlinks = ");
        let backlinks = list_text_exec(&self.backlinks);
        extend_chars(&mut out, &backlinks);
        out.push('\n');
        extend_str(&mut out, "created = ");
        out.push('"');
        let created = self.created.to_text();
        extend_str(&mut out, created.as_str());
        out.push('"');
        out.push('\n');
        extend_str(&mut out, "updated = ");
        out.push('"');
        let updated = self.updated.to_text();
        extend_str(&mut out, updated.as_str());
        out.push('"');
        out.push('\n');
        extend_str(&mut out, "updates = ");
        let updates = fmt_u64(self.updates);
        extend_chars(&mut out, &updates);
        out.push('\n');
        extend_str(&mut out, "internal = ");
        let internal = list_text_exec(&self.internal);
        extend_chars(&mut out, &internal);
        out.push('\n');
        proof {
            reveal(meta_text);
            assert(out@ =~= meta_text(self@));
        }
        chars_to_string(&out)
    }
}


// ---------------------------------------------------------------------------
// Reading the record back
// ---------------------------------------------------------------------------

/// The rest of a line after a required fixed prefix.
pub open spec fn strip_prefix(line: Seq<char>, pre: Seq<char>) -> Option<Seq<char>> {
    if line.len() >= pre.len() && line.take(pre.len() as int) == pre {
        Some(line.skip(pre.len() as int))
    } else {
        None
    }
}

/// The value of a quoted field.
pub open spec fn parse_quoted(s: Seq<char>) -> Option<Seq<char>> {
    if s.len() >= 2 && s[0] == '"' && s[s.len() - 1] == '"' {
        unesc(s.subrange(1, s.len() - 1))
    } else {
        None
    }
}

/// Unescapes every part, or nothing if any part is malformed.
pub open spec fn unesc_all(parts: Seq<Seq<char>>) -> Option<Seq<Seq<char>>> {
    if forall|i: int| 0 <= i < parts.len() ==> unesc(#[trigger] parts[i]) is Some {
        Some(Seq::new(parts.len(), |i: int| unesc(parts[i])->Some_0))
    } else {
        None
    }
}

/// The items of a bracketed list of quoted strings.
pub open spec fn parse_list(s: Seq<char>) -> Option<Seq<Seq<char>>> {
    if s.len() >= 2 && s[0] == '[' && s[s.len() - 1] == ']' {
        let inner = s.subrange(1, s.len() - 1);
        if inner.len() == 0 {
            Some(Seq::<Seq<char>>::empty())
        } else if inner.len() >= 2 && inner[0] == '"' && inner[inner.len() - 1] == '"' {
            unesc_all(split_sub(inner.subrange(1, inner.len() - 1), "\", \""@))
        } else {
            None
        }
    } else {
        None
    }
}

/// What a whole metadata file parses to: exactly the eight lines, in order,
/// with a trailing newline.
pub open spec fn parse_meta(s: Seq<char>) -> Option<NodeMetaV> {
    let lines = split_char(s, '\n');
    if lines.len() != 9 || lines[8].len() != 0 {
        None
    } else {
        let name_f = strip_prefix(lines[0], "name = "@);
        let tags_f = strip_prefix(lines[1], "tags = "@);
        let links_f = strip_prefix(lines[2], "links = "@);
        let backlinks_f = strip_prefix(lines[3], "backlinks = "@);
        let created_f = strip_prefix(lines[4], "created = "@);
        let updated_f = strip_prefix(lines[5], "updated = "@);
        let updates_f = strip_prefix(lines[6], "updates = "@);
        let internal_f = strip_prefix(lines[7], "internal = "@);
        if name_f is None || tags_f is None || links_f is None || backlinks_f is None || created_f
            is None || updated_f is None || updates_f is None || internal_f is None {
            None
        } else {
            let name = parse_quoted(name_f->Some_0);
            let tags = parse_list(tags_f->Some_0);
            let links = parse_list(links_f->Some_0);
            let backlinks = parse_list(backlinks_f->Some_0);
            let created_q = parse_quoted(created_f->Some_0);
            let updated_q = parse_quoted(updated_f->Some_0);
            let updates = spec_parse_u64(updates_f->Some_0);
            let internal = parse_list(internal_f->Some_0);
            if name is None || tags is None || links is None || backlinks is None || created_q
                is None || updated_q is None || updates is None || internal is None {
                None
            } else {
                let created = spec_parse_stamp(created_q->Some_0);
                let updated = spec_parse_stamp(updated_q->Some_0);
                if created is None || updated is None {
                    None
                } else {
                    Some(
                        NodeMetaV {
                            name: name->Some_0,
                            tags: tags->Some_0,
                            links: links->Some_0,
                            backlinks: backlinks->Some_0,
                            created: created->Some_0,
                            updated: updated->Some_0,
                            updates: updates->Some_0 as int,
                            internal: internal->Some_0,
                        },
                    )
                }
            }
        }
    }
}

/// Strips a fixed prefix from a line.
fn strip_prefix_exec(line: &Vec<char>, pre: &str) -> (r: Option<Vec<char>>)
    ensures
        match r {
            Some(rest) => strip_prefix(line@, pre@) == Some(rest@),
            None => strip_prefix(line@, pre@) is None,
        },
{
    let p = str_chars(pre);
    if line.len() < p.len() {
        return None;
    }
    let mut i: usize = 0;
    while i < p.len()
        invariant
            p@ == pre@,
            p@.len() <= line@.len(),
            i <= p@.len(),
            forall|j: int| 0 <= j < i ==> line@[j] == p@[j],
        decreases p@.len() - i,
    {
        if line[i] != p[i] {
            proof {
                assert(line@.take(pre@.len() as int)[i as int] == line@[i as int]);
            }
            return None;
        }
        i = i + 1;
    }
    let r = subvec(line, p.len(), line.len());
    proof {
        assert(line@.take(pre@.len() as int) =~= pre@);
        assert(r@ =~= line@.skip(pre@.len() as int));
    }
    Some(r)
}

/// Reads a quoted field.
fn parse_quoted_exec(s: &Vec<char>) -> (r: Option<Vec<char>>)
    ensures
        match r {
            Some(v) => parse_quoted(s@) == Some(v@),
            None => parse_quoted(s@) is None,
        },
{
    let n = s.len();
    if n < 2 {
        return None;
    }
    if !(s[0] == '"' && s[n - 1] == '"') {
        return None;
    }
    let inner = subvec(s, 1, n - 1);
    proof {
        assert(inner@ =~= s@.subrange(1, s@.len() - 1));
    }
    unesc_exec(&inner)
}

/// Reads a bracketed list of quoted strings.
fn parse_list_exec(s: &Vec<char>) -> (r: Option<Vec<String>>)
    ensures
        match r {
            Some(items) => parse_list(s@) == Some(items.deep_view()),
            None => parse_list(s@) is None,
        },
{
    let n = s.len();
    if n < 2 {
        return None;
    }
    if !(s[0] == '[' && s[n - 1] == ']') {
        return None;
    }
    let inner = subvec(s, 1, n - 1);
    proof {
        assert(inner@ =~= s@.subrange(1, s@.len() - 1));
    }
    if inner.len() == 0 {
        let items: Vec<String> = Vec::new();
        proof {
            assert(items.deep_view() =~= Seq::<Seq<char>>::empty());
        }
        return Some(items);
    }
    let m = inner.len();
    if m < 2 {
        return None;
    }
    if !(inner[0] == '"' && inner[m - 1] == '"') {
        return None;
    }
    let body = subvec(&inner, 1, m - 1);
    proof {
        assert(body@ =~= inner@.subrange(1, inner@.len() - 1));
    }
    let sep = str_chars("\", \"");
    proof {
        reveal_strlit("\", \"");
        assert(sep@.len() == 4);
    }
    let parts = split_sub_exec(&body, &sep);
    let ghost sparts = split_sub(body@, "\", \""@);
    proof {
        assert(parse_list(s@) == unesc_all(sparts));
    }
    let mut items: Vec<String> = Vec::new();
    let mut i: usize = 0;
    while i < parts.len()
        invariant
            parse_list(s@) == unesc_all(sparts),
            views(parts@) == sparts,
            i <= parts@.len(),
            forall|j: int| 0 <= j < i ==> unesc(#[trigger] sparts[j]) is Some,
            items.deep_view() =~= Seq::new(i as nat, |j: int| unesc(sparts[j])->Some_0),
        decreases parts@.len() - i,
    {
        match unesc_exec(&parts[i]) {
            Some(u) => {
                let ghost pre = items.deep_view();
                let item = chars_to_string(&u);
                items.push(item);
                proof {
                    assert(views(parts@)[i as int] == parts@[i as int]@);
                    assert(items.deep_view() =~= pre.push(u@));
                    assert(items.deep_view() =~= Seq::new((i + 1) as nat, |j: int| unesc(sparts[j])->Some_0));
                }
            },
            None => {
                proof {
                    assert(views(parts@)[i as int] == parts@[i as int]@);
                    assert(unesc(sparts[i as int]) is None);
                    assert(unesc_all(sparts) is None) by {
                        assert(!(forall|j: int|
                            0 <= j < sparts.len() ==> unesc(#[trigger] sparts[j]) is Some)) by {
                            assert(unesc(sparts[i as int]) is None);
                        }
                    }
                    assert(parse_list(s@) is None);
                }
                return None;
            },
        }
        i = i + 1;
    }
    proof {
        assert(sparts.len() == parts@.len());
        assert(forall|j: int| 0 <= j < sparts.len() ==> unesc(#[trigger] sparts[j]) is Some);
        assert(items.deep_view() =~= Seq::new(sparts.len(), |j: int| unesc(sparts[j])->Some_0));
        assert(unesc_all(sparts) == Some(items.deep_view()));
        assert(parse_list(s@) == Some(items.deep_view()));
    }
    Some(items)
}

impl NodeMeta {
    /// Reads a metadata file back into its fields.
    pub fn from_toml(text: &str) -> (r: Option<NodeMeta>)
        ensures
            match r {
                Some(m) => parse_meta(text@) == Some(m@),
                None => parse_meta(text@) is None,
            },
    {
        let cs = str_chars(text);
        let lines = split_char_exec(&cs, 0, '\n');
        proof {
            assert(cs@.skip(0) =~= text@);
        }
        if lines.len() != 9 {
            return None;
        }
        if lines[8].len() != 0 {
            proof {
                assert(views(lines@)[8] == lines@[8]@);
            }
            return None;
        }
        proof {
            assert(views(lines@)[8] == lines@[8]@);
            assert forall|k: int| 0 <= k < 9 implies views(lines@)[k] == lines@[k]@ by {}
        }
        let name_f = match strip_prefix_exec(&lines[0], "name = ") {
            Some(x) => x,
            None => { return None; },
        };
        let tags_f = match strip_prefix_exec(&lines[1], "tags = ") {
            Some(x) => x,
            None => { return None; },
        };
        let links_f = match strip_prefix_exec(&lines[2], "links = ") {
            Some(x) => x,
            None => { return None; },
        };
        let backlinks_f = match strip_prefix_exec(&lines[3], "backlinks = ") {
            Some(x) => x,
            None => { return None; },
        };
        let created_f = match strip_prefix_exec(&lines[4], "created = ") {
            Some(x) => x,
            None => { return None; },
        };
        let updated_f = match strip_prefix_exec(&lines[5], "updated = ") {
            Some(x) => x,
            None => { return None; },
        };
        let updates_f = match strip_prefix_exec(&lines[6], "updates = ") {
            Some(x) => x,
            None => { return None; },
        };
        let internal_f = match strip_prefix_exec(&lines[7], "internal = ") {
            Some(x) => x,
            None => { return None; },
        };
        let name_v = match parse_quoted_exec(&name_f) {
            Some(x) => x,
            None => { return None; },
        };
        let tags = match parse_list_exec(&tags_f) {
            Some(x) => x,
            None => { return None; },
        };
        let links = match parse_list_exec(&links_f) {
            Some(x) => x,
            None => { return None; },
        };
        let backlinks = match parse_list_exec(&backlinks_f) {
            Some(x) => x,
            None => { return None; },
        };
        let created_q = match parse_quoted_exec(&created_f) {
            Some(x) => x,
            None => { return None; },
        };
        let updated_q = match parse_quoted_exec(&updated_f) {
            Some(x) => x,
            None => { return None; },
        };
        let updates = match parse_u64(&updates_f) {
            Some(x) => x,
            None => { return None; },
        };
        let internal = match parse_list_exec(&internal_f) {
            Some(x) => x,
            None => { return None; },
        };
        let created = match parse_stamp(&created_q) {
            Some(x) => x,
            None => { return None; },
        };
        let updated = match parse_stamp(&updated_q) {
            Some(x) => x,
            None => { return None; },
        };
        Some(
            NodeMeta {
                name: chars_to_string(&name_v),
                tags,
                links,
                backlinks,
                created,
                updated,
                updates,
                internal,
            },
        )
    }
}

} // verus!
