//! Typed links and their reciprocal backlinks: pairing with a shared
//! timestamp, and the delimiter-joined record form they are persisted in.
//!
//! The record joins six fields with the multi-character delimiter `|,|` and
//! does not escape the link text against embedding that sequence; the
//! round-trip law below is therefore stated for texts and targets that do
//! not collide with the delimiter, which is the record format's documented
//! fragility.

use vstd::prelude::*;
use vstd::utf8::encode_utf8;

use crate::chars::all_digits;
use crate::chars::chars_to_string;
use crate::chars::contains_sub;
use crate::chars::dec_of;
use crate::chars::dec_of_int;
use crate::chars::extend_chars;
use crate::chars::extend_str;
use crate::chars::find_sub;
use crate::chars::fmt_i64;
use crate::chars::fmt_u64;
use crate::chars::index_of_sub;
use crate::chars::is_digit;
use crate::chars::lemma_dec_of_digits;
use crate::chars::lemma_parse_int_roundtrip;
use crate::chars::lemma_find_sub;
use crate::chars::match_at;
use crate::chars::spec_parse_i64;
use crate::chars::spec_parse_u64;
use crate::chars::parse_i64;
use crate::chars::parse_u64;
use crate::chars::str_chars;
use crate::chars::subvec;
use crate::ident::link_text_is_node_name;
use crate::ident::name_linked;

verus! {

/// A link or backlink: the node it points at, the text it is keyed by, the
/// creation timestamp shared by a link/backlink pair, the source position,
/// and whether the text is literally the target's trailing name.
#[derive(Debug, Clone, PartialEq, Eq)]
pub struct NodeLink {
    pub node: String,
    pub text: String,
    pub timestamp: i64,
    pub line: u64,
    pub col: u64,
    pub is_name_linked: bool,
}

/// The mathematical content of a `NodeLink`.
pub struct NodeLinkV {
    pub node: Seq<char>,
    pub text: Seq<char>,
    pub timestamp: int,
    pub line: int,
    pub col: int,
    pub is_name_linked: bool,
}

impl View for NodeLink {
    type V = NodeLinkV;

    open spec fn view(&self) -> NodeLinkV {
        NodeLinkV {
            node: self.node@,
            text: self.text@,
            timestamp: self.timestamp as int,
            line: self.line as int,
            col: self.col as int,
            is_name_linked: self.is_name_linked,
        }
    }
}

impl NodeLink {
    /// A field-for-field copy.
    pub fn duplicate(&self) -> (r: NodeLink)
        ensures
            r@ == self@,
    {
        NodeLink {
            node: self.node.clone(),
            text: self.text.clone(),
            timestamp: self.timestamp,
            line: self.line,
            col: self.col,
            is_name_linked: self.is_name_linked,
        }
    }

    /// Builds the link stored on `from` and the backlink stored on `to`,
    /// sharing the given creation timestamp.  The link records the target
    /// and its position; the backlink records the source and its position;
    /// both carry the name-linked flag computed from the text against the
    /// whole target key.
    pub fn pair_at(
        text: String,
        from: String,
        from_line: u64,
        from_char: u64,
        to: String,
        to_line: u64,
        to_char: u64,
        timestamp: i64,
    ) -> (r: (NodeLink, NodeLink))
        ensures
            r.0@ == (NodeLinkV {
                node: to@,
                text: text@,
                timestamp: timestamp as int,
                line: to_line as int,
                col: to_char as int,
                is_name_linked: name_linked(encode_utf8(text@), encode_utf8(to@)),
            }),
            r.1@ == (NodeLinkV {
                node: from@,
                text: text@,
                timestamp: timestamp as int,
                line: from_line as int,
                col: from_char as int,
                is_name_linked: name_linked(encode_utf8(text@), encode_utf8(to@)),
            }),
    {
        let is_name_linked = link_text_is_node_name(&text, &to);
        let link = NodeLink {
            node: to,
            text: text.clone(),
            timestamp,
            line: to_line,
            col: to_char,
            is_name_linked,
        };
        let backlink = NodeLink {
            node: from,
            text,
            timestamp,
            line: from_line,
            col: from_char,
            is_name_linked,
        };
        (link, backlink)
    }

    /// As `pair_at`, with the creation timestamp read from the clock; the
    /// two halves share whatever timestamp was read.
    pub fn pair(
        text: String,
        from: String,
        from_line: u64,
        from_char: u64,
        to: String,
        to_line: u64,
        to_char: u64,
    ) -> (r: (NodeLink, NodeLink))
        ensures
            r.0@.timestamp == r.1@.timestamp,
            r.0@ == (NodeLinkV {
                node: to@,
                text: text@,
                timestamp: r.0@.timestamp,
                line: to_line as int,
                col: to_char as int,
                is_name_linked: name_linked(encode_utf8(text@), encode_utf8(to@)),
            }),
            r.1@ == (NodeLinkV {
                node: from@,
                text: text@,
                timestamp: r.0@.timestamp,
                line: from_line as int,
                col: from_char as int,
                is_name_linked: name_linked(encode_utf8(text@), encode_utf8(to@)),
            }),
    {
        let timestamp = crate::stamp::now_epoch();
        Self::pair_at(text, from, from_line, from_char, to, to_line, to_char, timestamp)
    }

    /// Writes the six delimiter-joined fields.
    pub fn to_toml(&self) -> (r: String)
        ensures
            r@ == link_record(self@),
    {
        let mut out: Vec<char> = Vec::new();
        extend_str(&mut out, self.text.as_str());
        extend_str(&mut out, "|,|");
        let ts = fmt_i64(self.timestamp);
        extend_chars(&mut out, &ts);
        extend_str(&mut out, "|,|");
        extend_str(&mut out, self.node.as_str());
        extend_str(&mut out, "|,|");
        let line = fmt_u64(self.line);
        extend_chars(&mut out, &line);
        extend_str(&mut out, "|,|");
        let col = fmt_u64(self.col);
        extend_chars(&mut out, &col);
        extend_str(&mut out, "|,|");
        if self.is_name_linked {
            extend_str(&mut out, "name_ref");
        } else {
            extend_str(&mut out, "text_ref");
        }
        proof {
            assert(out@ =~= link_record(self@));
        }
        chars_to_string(&out)
    }

    /// Reads a record back; nothing when a field is missing or malformed.
    pub fn from_toml(record: &str) -> (r: Option<NodeLink>)
        ensures
            match r {
                Some(l) => spec_parse_link(record@) == Some(l@),
                None => spec_parse_link(record@) is None,
            },
    {
        let cs = str_chars(record);
        let delim = str_chars("|,|");
        proof {
            reveal_strlit("|,|");
            assert(delim@.len() == 3);
        }
        let (text, rest) = match split_once_sub(&cs, &delim) {
            Some(p) => p,
            None => {
                return None;
            },
        };
        let (ts_part, rest) = match split_once_sub(&rest, &delim) {
            Some(p) => p,
            None => {
                return None;
            },
        };
        let (node, rest) = match split_once_sub(&rest, &delim) {
            Some(p) => p,
            None => {
                return None;
            },
        };
        let (line_part, rest) = match split_once_sub(&rest, &delim) {
            Some(p) => p,
            None => {
                return None;
            },
        };
        let (col_part, variant) = match split_once_sub(&rest, &delim) {
            Some(p) => p,
            None => {
                return None;
            },
        };
        let timestamp = match parse_i64(&ts_part) {
            Some(t) => t,
            None => {
                return None;
            },
        };
        let line = match parse_u64(&line_part) {
            Some(x) => x,
            None => {
                return None;
            },
        };
        let col = match parse_u64(&col_part) {
            Some(x) => x,
            None => {
                return None;
            },
        };
        let variant_s = chars_to_string(&variant);
        let name_ref: String = String::from_str("name_ref");
        proof {
            reveal_strlit("name_ref");
        }
        let is_name_linked = variant_s == name_ref;
        Some(
            NodeLink {
                node: chars_to_string(&node),
                text: chars_to_string(&text),
                timestamp,
                line,
                col,
                is_name_linked,
            },
        )
    }

    /// Reads a record and keys it as a link: by its text.
    pub fn parse_link_w_key(record: &str) -> (r: Option<(String, NodeLink)>)
        ensures
            match r {
                Some((key, l)) => spec_parse_link(record@) == Some(l@) && key@ == l@.text,
                None => spec_parse_link(record@) is None,
            },
    {
        match Self::from_toml(record) {
            Some(l) => {
                let key = l.text.clone();
                Some((key, l))
            },
            None => None,
        }
    }

    /// Reads a record and keys it as a backlink: by its text and timestamp.
    pub fn parse_backlink_w_key(record: &str) -> (r: Option<((String, i64), NodeLink)>)
        ensures
            match r {
                Some((key, l)) => spec_parse_link(record@) == Some(l@) && key.0@ == l@.text
                    && key.1 == l@.timestamp,
                None => spec_parse_link(record@) is None,
            },
    {
        match Self::from_toml(record) {
            Some(l) => {
                let key = (l.text.clone(), l.timestamp);
                Some((key, l))
            },
            None => None,
        }
    }
}

/// The record form: six fields joined by `|,|`, the variant telling a
/// name-linked record from a text-linked one.
pub open spec fn link_record(l: NodeLinkV) -> Seq<char> {
    l.text + "|,|"@ + dec_of_int(l.timestamp) + "|,|"@ + l.node + "|,|"@ + dec_of(l.line as nat)
        + "|,|"@ + dec_of(l.col as nat) + "|,|"@ + (if l.is_name_linked {
        "name_ref"@
    } else {
        "text_ref"@
    })
}

/// Splitting at the first occurrence of the delimiter.
pub open spec fn spec_split_once(s: Seq<char>, pat: Seq<char>) -> Option<(Seq<char>, Seq<char>)> {
    let i = find_sub(s, pat);
    if i < 0 {
        None
    } else {
        Some((s.take(i), s.skip(i + pat.len())))
    }
}

/// What a record parses to: five splits on the delimiter, numeric fields
/// read as decimal, the variant compared against `name_ref`.
pub open spec fn spec_parse_link(s: Seq<char>) -> Option<NodeLinkV> {
    let d = "|,|"@;
    if spec_split_once(s, d) is None {
        None
    } else {
        let (text, r1) = spec_split_once(s, d)->Some_0;
        if spec_split_once(r1, d) is None {
            None
        } else {
            let (ts_part, r2) = spec_split_once(r1, d)->Some_0;
            if spec_split_once(r2, d) is None {
                None
            } else {
                let (node, r3) = spec_split_once(r2, d)->Some_0;
                if spec_split_once(r3, d) is None {
                    None
                } else {
                    let (line_part, r4) = spec_split_once(r3, d)->Some_0;
                    if spec_split_once(r4, d) is None {
                        None
                    } else {
                        let (col_part, variant) = spec_split_once(r4, d)->Some_0;
                        if spec_parse_i64(ts_part) is None || spec_parse_u64(line_part) is None
                            || spec_parse_u64(col_part) is None {
                            None
                        } else {
                            Some(
                                NodeLinkV {
                                    node,
                                    text,
                                    timestamp: spec_parse_i64(ts_part)->Some_0 as int,
                                    line: spec_parse_u64(line_part)->Some_0 as int,
                                    col: spec_parse_u64(col_part)->Some_0 as int,
                                    is_name_linked: variant == "name_ref"@,
                                },
                            )
                        }
                    }
                }
            }
        }
    }
}

/// Splits a vector at the first occurrence of `pat`.
pub fn split_once_sub(v: &Vec<char>, pat: &Vec<char>) -> (r: Option<(Vec<char>, Vec<char>)>)
    requires
        pat@.len() >= 1,
    ensures
        match r {
            Some((a, b)) => spec_split_once(v@, pat@) == Some((a@, b@)),
            None => spec_split_once(v@, pat@) is None,
        },
{
    match index_of_sub(v, pat) {
        Some(i) => {
            let a = subvec(v, 0, i);
            let vlen = v.len();
            let b = subvec(v, i + pat.len(), vlen);
            proof {
                assert(a@ =~= v@.take(i as int));
                assert(b@ =~= v@.skip(i + pat@.len()));
            }
            Some((a, b))
        },
        None => None,
    }
}

/// A string that cannot disturb the record format: it neither contains the
/// delimiter nor ends with its two-character prefix, so appending the
/// delimiter after it creates no earlier occurrence.
pub open spec fn delim_safe(s: Seq<char>) -> bool {
    !contains_sub(s, "|,|"@) && !(s.len() >= 2 && s.skip(s.len() - 2) == "|,"@)
}

/// In `a + "|,|" + b`, the first delimiter occurrence is exactly at the end
/// of a delimiter-safe `a`.
proof fn lemma_find_delim_after(a: Seq<char>, b: Seq<char>)
    requires
        delim_safe(a),
    ensures
        find_sub(a + "|,|"@ + b, "|,|"@) == a.len(),
        spec_split_once(a + "|,|"@ + b, "|,|"@) == Some((a, b)),
{
    reveal_strlit("|,|");
    reveal_strlit("|,");
    let d = "|,|"@;
    let s = a + d + b;
    assert(d.len() == 3);
    assert(s.subrange(a.len() as int, a.len() as int + 3) =~= d);
    assert(match_at(s, d, a.len() as int));
    assert forall|j: int| 0 <= j < a.len() implies !match_at(s, d, j) by {
        if match_at(s, d, j) {
            let sub = s.subrange(j, j + 3);
            assert(sub[0] == s[j] && sub[1] == s[j + 1] && sub[2] == s[j + 2]);
            assert(s[j] == '|' && s[j + 1] == ',' && s[j + 2] == '|');
            if j + 3 <= a.len() {
                // the delimiter would sit wholly inside a
                assert(a.subrange(j, j + 3) =~= d);
                assert(match_at(a, d, j));
                lemma_find_sub(a, d);
                assert(contains_sub(a, d));
            } else if j + 2 == a.len() {
                // a would end with "|,"
                assert(a[j] == s[j] && a[j + 1] == s[j + 1]);
                assert(a.skip(a.len() - 2) =~= "|,"@);
            } else {
                // j + 1 == a.len(): s[j + 1] is the delimiter's own first
                // character '|', never ','.
                assert(j + 1 == a.len());
                assert(s[j + 1] == d[0]);
                assert(d[0] == '|');
            }
        }
    }
    lemma_find_sub(s, d);
    let f = find_sub(s, d);
    assert(f >= 0);
    assert(f <= a.len());
    assert(f >= a.len());
    assert(s.take(a.len() as int) =~= a);
    assert(s.skip(a.len() as int + 3) =~= b);
}

/// Digit strings, optionally minus-signed, never hold a `|`, so they are
/// delimiter-safe.
proof fn lemma_no_pipe_delim_safe(s: Seq<char>)
    requires
        forall|i: int| 0 <= i < s.len() ==> s[i] != '|',
    ensures
        delim_safe(s),
{
    reveal_strlit("|,|");
    reveal_strlit("|,");
    let d = "|,|"@;
    assert forall|j: int| !match_at(s, d, j) by {
        if match_at(s, d, j) {
            assert(s.subrange(j, j + 3)[0] == s[j]);
            assert(s[j] == '|');
        }
    }
    lemma_find_sub(s, d);
    if s.len() >= 2 && s.skip(s.len() - 2) == "|,"@ {
        assert(s.skip(s.len() - 2)[0] == s[s.len() - 2]);
        assert(s[s.len() - 2] == '|');
    }
}

proof fn lemma_digits_delim_safe(s: Seq<char>)
    requires
        all_digits(s),
    ensures
        delim_safe(s),
{
    assert forall|i: int| 0 <= i < s.len() implies s[i] != '|' by {
        assert(is_digit(s[i]));
    }
    lemma_no_pipe_delim_safe(s);
}

proof fn lemma_dec_of_int_delim_safe(v: int)
    ensures
        delim_safe(dec_of_int(v)),
{
    if v >= 0 {
        lemma_dec_of_digits(v as nat);
        lemma_digits_delim_safe(dec_of_int(v));
    } else {
        lemma_dec_of_digits((-v) as nat);
        let s = dec_of_int(v);
        assert forall|i: int| 0 <= i < s.len() implies s[i] != '|' by {
            if i == 0 {
                assert(s[0] == '-');
            } else {
                assert(s[i] == dec_of((-v) as nat)[i - 1]);
                assert(is_digit(s[i]));
            }
        }
        lemma_no_pipe_delim_safe(s);
    }
}

/// Round trip: a record written from a link whose text and target do not
/// collide with the delimiter reads back to the identical link — same text,
/// timestamp, target, line, column and variant.
#[verifier::rlimit(80)]
pub proof fn lemma_link_record_roundtrip(l: NodeLinkV)
    requires
        delim_safe(l.text),
        delim_safe(l.node),
        i64::MIN <= l.timestamp <= i64::MAX,
        0 <= l.line <= u64::MAX,
        0 <= l.col <= u64::MAX,
    ensures
        spec_parse_link(link_record(l)) == Some(l),
{
    let d = "|,|"@;
    let variant = if l.is_name_linked {
        "name_ref"@
    } else {
        "text_ref"@
    };
    let ts = dec_of_int(l.timestamp);
    let line = dec_of(l.line as nat);
    let col = dec_of(l.col as nat);
    let r4 = col + d + variant;
    let r3 = line + d + r4;
    let r2 = l.node + d + r3;
    let r1 = ts + d + r2;
    let s = link_record(l);
    assert(s =~= l.text + d + r1);
    lemma_find_delim_after(l.text, r1);
    lemma_dec_of_int_delim_safe(l.timestamp);
    lemma_find_delim_after(ts, r2);
    assert(r1 =~= ts + d + r2);
    lemma_find_delim_after(l.node, r3);
    assert(r2 =~= l.node + d + r3);
    lemma_dec_of_digits(l.line as nat);
    lemma_digits_delim_safe(line);
    lemma_find_delim_after(line, r4);
    assert(r3 =~= line + d + r4);
    lemma_dec_of_digits(l.col as nat);
    lemma_digits_delim_safe(col);
    lemma_find_delim_after(col, variant);
    assert(r4 =~= col + d + variant);
    // the numeric fields read back to their values
    lemma_parse_int_roundtrip(l.timestamp);
    assert(spec_parse_u64(line) == Some(l.line as u64));
    assert(spec_parse_u64(col) == Some(l.col as u64));
    // the variant flags read back
    if l.is_name_linked {
        assert(variant == "name_ref"@);
    } else {
        reveal_strlit("name_ref");
        reveal_strlit("text_ref");
        assert(variant[0] == 't' && "name_ref"@[0] == 'n');
        assert(variant != "name_ref"@);
    }
}

} // verus!
