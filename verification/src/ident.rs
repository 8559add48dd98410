//! The identifier scheme: power-of-ten detection for sibling-group widths,
//! slugging, and display-name formatting.

use vstd::prelude::*;
use vstd::utf8::encode_utf8;

use crate::chars::chars_to_string;
use crate::chars::contains_char;
use crate::chars::find_char;
use crate::chars::index_of_char;
use crate::chars::lemma_find_char;
use crate::chars::str_chars;
use crate::chars::subvec;

verus! {

/// 10^k, the mathematical powers of ten.
pub open spec fn pow10(k: nat) -> nat
    decreases k,
{
    if k == 0 {
        1
    } else {
        10 * pow10((k - 1) as nat)
    }
}

pub proof fn lemma_pow10_pos(k: nat)
    ensures
        pow10(k) >= 1,
    decreases k,
{
    if k > 0 {
        lemma_pow10_pos((k - 1) as nat);
    }
}

pub proof fn lemma_pow10_mul(a: nat, b: nat)
    ensures
        pow10(a + b) == pow10(a) * pow10(b),
    decreases a,
{
    if a == 0 {
        assert(pow10(0) == 1);
        assert(a + b == b);
        assert(pow10(a) * pow10(b) == pow10(b)) by (nonlinear_arith)
            requires
                pow10(a) == 1,
        ;
    } else {
        lemma_pow10_mul((a - 1) as nat, b);
        assert((a + b - 1) as nat == (a - 1) as nat + b);
        assert(pow10(a + b) == 10 * pow10((a - 1) as nat + b));
        assert(pow10((a - 1) as nat + b) == pow10((a - 1) as nat) * pow10(b));
        assert(pow10(a) == 10 * pow10((a - 1) as nat));
        assert(pow10(a + b) == pow10(a) * pow10(b)) by (nonlinear_arith)
            requires
                pow10(a + b) == 10 * pow10((a - 1) as nat + b),
                pow10((a - 1) as nat + b) == pow10((a - 1) as nat) * pow10(b),
                pow10(a) == 10 * pow10((a - 1) as nat),
        ;
    }
}

pub proof fn lemma_pow10_increases(a: nat, b: nat)
    requires
        a <= b,
    ensures
        pow10(a) <= pow10(b),
    decreases b,
{
    if a < b {
        lemma_pow10_increases(a, (b - 1) as nat);
        lemma_pow10_pos((b - 1) as nat);
    }
}

proof fn lemma_pow10_20_large()
    ensures
        pow10(20) > u64::MAX,
{
    reveal_with_fuel(pow10, 21);
}

/// If a power of ten (k >= 1) factors as m * 10^j with m not divisible by
/// ten, then m must be 1 and j must be k; so an m that is neither 1 nor
/// divisible by ten rules the whole product out as such a power.
proof fn lemma_factor_not_power(n: u64, m: u64, j: nat, k: nat)
    requires
        n == m * pow10(j),
        m >= 2,
        m % 10 != 0,
        m != 10,
        k >= 1,
    ensures
        n != pow10(k),
{
    lemma_pow10_pos(j);
    lemma_pow10_pos(k);
    if n == pow10(k) {
        if j < k {
            lemma_pow10_mul((k - j) as nat, j);
            assert(pow10(k) == pow10((k - j) as nat) * pow10(j));
            assert(m == pow10((k - j) as nat)) by (nonlinear_arith)
                requires
                    m * pow10(j) == pow10((k - j) as nat) * pow10(j),
                    pow10(j) >= 1,
            ;
            if k - j == 1 {
                assert(pow10(1) == 10) by {
                    reveal_with_fuel(pow10, 2);
                }
            } else {
                lemma_pow10_mul((k - j - 1) as nat, 1);
                assert(pow10(1) == 10) by {
                    reveal_with_fuel(pow10, 2);
                }
                assert(m == pow10((k - j - 1) as nat) * 10);
                assert(m % 10 == 0) by (nonlinear_arith)
                    requires
                        m == pow10((k - j - 1) as nat) * 10,
                ;
            }
        } else {
            // j >= k: then m * 10^j >= 2 * 10^k > 10^k, a contradiction.
            lemma_pow10_increases(k, j);
            assert(m * pow10(j) >= 2 * pow10(j)) by (nonlinear_arith)
                requires
                    m >= 2,
                    pow10(j) >= 1,
            ;
        }
    }
}

/// Detects exactly the decimal orders of magnitude that trigger a width
/// increase: returns the exponent k iff n is 10^k with k >= 1, and nothing
/// for 0, for 1 through 9, and for every value that is not an exact power.
pub fn power_of_ten(n: u64) -> (r: Option<u64>)
    ensures
        match r {
            Some(k) => 1 <= k <= 19 && n == pow10(k as nat),
            None => forall|k: nat| 1 <= k ==> n != pow10(k),
        },
{
    proof {
        lemma_pow10_20_large();
    }
    if n == 0 {
        proof {
            assert forall|k: nat| 1 <= k implies 0 != pow10(k) by {
                lemma_pow10_pos(k);
            }
        }
        return None;
    }
    let mut m: u64 = n;
    let mut pow: u64 = 1;
    proof {
        reveal_with_fuel(pow10, 2);
        assert(pow10(0) == 1);
        assert(n == m * pow10((pow - 1) as nat)) by (nonlinear_arith)
            requires
                n == m,
                pow == 1,
                pow10(0) == 1,
        ;
    }
    loop
        invariant
            1 <= m,
            1 <= pow <= 20,
            n == m * pow10((pow - 1) as nat),
            m == 1 ==> n == 1,
            n >= 1,
        decreases m,
    {
        proof {
            lemma_pow10_pos((pow - 1) as nat);
        }
        if m == 10 {
            proof {
                lemma_pow10_mul(1, (pow - 1) as nat);
                assert(pow10(1) == 10) by {
                    reveal_with_fuel(pow10, 2);
                }
                assert(1 + (pow - 1) as nat == pow as nat);
                assert(n == 10 * pow10((pow - 1) as nat)) by (nonlinear_arith)
                    requires
                        n == m * pow10((pow - 1) as nat),
                        m == 10,
                ;
                assert(pow10(pow as nat) == 10 * pow10((pow - 1) as nat)) by (nonlinear_arith)
                    requires
                        pow10(1 + (pow - 1) as nat) == pow10(1) * pow10((pow - 1) as nat),
                        pow10(1) == 10,
                        1 + (pow - 1) as nat == pow as nat,
                ;
                if pow == 20 {
                    lemma_pow10_20_large();
                }
            }
            return Some(pow);
        }
        if m % 10 != 0 {
            proof {
                if m == 1 {
                    assert forall|k: nat| 1 <= k implies n != pow10(k) by {
                        lemma_pow10_increases(1, k);
                        assert(pow10(1) == 10) by {
                            reveal_with_fuel(pow10, 2);
                        }
                    }
                } else {
                    assert forall|k: nat| 1 <= k implies n != pow10(k) by {
                        lemma_factor_not_power(n, m, (pow - 1) as nat, k);
                    }
                }
            }
            return None;
        }
        // m is a multiple of ten other than ten itself, so at least 20.
        let m2 = m / 10;
        proof {
            assert(m == 10 * m2 + m % 10);
            assert(n == (10 * m2) * pow10((pow - 1) as nat));
            assert((10 * m2) * pow10((pow - 1) as nat) == m2 * (10 * pow10((pow - 1) as nat)))
                by (nonlinear_arith);
            assert(n == m2 * pow10(pow as nat));
            // pow stays below 20: n >= pow10(pow) since m2 >= 1.
            lemma_pow10_pos(pow as nat);
            assert(n >= pow10(pow as nat)) by (nonlinear_arith)
                requires
                    n == m2 * pow10(pow as nat),
                    m2 >= 1,
                    pow10(pow as nat) >= 1,
            ;
            if pow >= 20 {
                lemma_pow10_increases(20, pow as nat);
                lemma_pow10_20_large();
            }
        }
        m = m2;
        pow = pow + 1;
    }
}


// ---------------------------------------------------------------------------
// Slugs
// ---------------------------------------------------------------------------

/// Every space becomes a hyphen; all other characters, including case, pass
/// through unchanged.
pub open spec fn slug_of(s: Seq<char>) -> Seq<char> {
    s.map_values(|c: char| if c == ' ' { '-' } else { c })
}

/// Turns a display name into the form used inside an identifier segment.
pub fn prepare_path_name(node_name: &str) -> (r: String)
    ensures
        r@ == slug_of(node_name@),
{
    let cs = str_chars(node_name);
    let mut out: Vec<char> = Vec::new();
    let mut i: usize = 0;
    while i < cs.len()
        invariant
            i <= cs@.len(),
            cs@ == node_name@,
            out@ == slug_of(node_name@.subrange(0, i as int)),
        decreases cs@.len() - i,
    {
        let c = cs[i];
        if c == ' ' {
            out.push('-');
        } else {
            out.push(c);
        }
        proof {
            assert(out@ =~= slug_of(node_name@.subrange(0, i + 1)));
        }
        i = i + 1;
    }
    proof {
        assert(node_name@.subrange(0, node_name@.len() as int) =~= node_name@);
    }
    chars_to_string(&out)
}

// ---------------------------------------------------------------------------
// Display names
// ---------------------------------------------------------------------------

/// Splits `s` at every occurrence of `c`; always at least one part, and the
/// separators themselves do not appear in any part.
pub open spec fn split_char(s: Seq<char>, c: char) -> Seq<Seq<char>>
    decreases s.len(),
{
    if s.len() == 0 {
        seq![Seq::<char>::empty()]
    } else if s[0] == c {
        seq![Seq::<char>::empty()] + split_char(s.skip(1), c)
    } else {
        let r = split_char(s.skip(1), c);
        r.update(0, seq![s[0]] + r[0])
    }
}

pub proof fn lemma_split_char_len(s: Seq<char>, c: char)
    ensures
        split_char(s, c).len() >= 1,
    decreases s.len(),
{
    if s.len() > 0 {
        lemma_split_char_len(s.skip(1), c);
    }
}

/// Splitting a vector of characters, exec form.
pub fn split_char_exec(v: &Vec<char>, from: usize, c: char) -> (r: Vec<Vec<char>>)
    requires
        from <= v@.len(),
    ensures
        views(r@) == split_char(v@.skip(from as int), c),
        r@.len() >= 1,
    decreases v@.len() - from,
{
    let ghost s = v@.skip(from as int);
    if from == v.len() {
        let mut r: Vec<Vec<char>> = Vec::new();
        r.push(Vec::new());
        proof {
            assert(s =~= Seq::<char>::empty());
            assert(views(r@) =~= split_char(s, c));
        }
        r
    } else if v[from] == c {
        let mut rest = split_char_exec(v, from + 1, c);
        rest.insert(0, Vec::new());
        proof {
            assert(s.skip(1) =~= v@.skip(from + 1));
            assert(views(rest@) =~= split_char(s, c));
        }
        rest
    } else {
        let mut rest = split_char_exec(v, from + 1, c);
        let first = rest.remove(0);
        let mut nf: Vec<char> = Vec::new();
        nf.push(v[from]);
        crate::chars::extend_chars(&mut nf, &first);
        rest.insert(0, nf);
        proof {
            assert(s.skip(1) =~= v@.skip(from + 1));
            let spec_r = split_char(s.skip(1), c);
            lemma_split_char_len(s.skip(1), c);
            assert(nf@ =~= seq![s[0]] + spec_r[0]);
            assert(views(rest@) =~= spec_r.update(0, seq![s[0]] + spec_r[0]));
        }
        rest
    }
}

/// The character sequences of a sequence of character vectors.
pub open spec fn views(v: Seq<Vec<char>>) -> Seq<Seq<char>> {
    v.map_values(|x: Vec<char>| x@)
}

/// Joins parts with a separator between each adjacent pair.
pub open spec fn join_with(parts: Seq<Seq<char>>, sep: Seq<char>) -> Seq<char>
    decreases parts.len(),
{
    if parts.len() == 0 {
        Seq::<char>::empty()
    } else if parts.len() == 1 {
        parts[0]
    } else {
        parts[0] + sep + join_with(parts.skip(1), sep)
    }
}

pub proof fn lemma_join_with_push(parts: Seq<Seq<char>>, p: Seq<char>, sep: Seq<char>)
    ensures
        join_with(parts.push(p), sep) == if parts.len() == 0 {
            p
        } else {
            join_with(parts, sep) + sep + p
        },
    decreases parts.len(),
{
    if parts.len() == 0 {
        assert(parts.push(p).len() == 1);
        assert(parts.push(p)[0] == p);
    } else if parts.len() == 1 {
        assert(parts.push(p).skip(1) =~= seq![p]);
        assert(parts.push(p)[0] == parts[0]);
        assert(join_with(seq![p], sep) == p);
        assert(join_with(parts.push(p), sep) == parts[0] + sep + p);
    } else {
        lemma_join_with_push(parts.skip(1), p, sep);
        assert(parts.push(p).skip(1) =~= parts.skip(1).push(p));
        assert(parts.push(p)[0] == parts[0]);
        assert(join_with(parts.push(p), sep) == parts[0] + sep + join_with(
            parts.skip(1).push(p),
            sep,
        ));
        assert(parts[0] + sep + (join_with(parts.skip(1), sep) + sep + p) =~= (parts[0] + sep
            + join_with(parts.skip(1), sep)) + sep + p);
    }
}

/// Hyphens become spaces.
pub open spec fn dash_to_space(s: Seq<char>) -> Seq<char> {
    s.map_values(|c: char| if c == '-' { ' ' } else { c })
}

/// What one identifier segment displays as: everything after the first
/// hyphen, with the remaining hyphens turned into spaces.
pub open spec fn seg_display(seg: Seq<char>) -> Seq<char> {
    dash_to_space(seg.skip(find_char(seg, '-') + 1))
}

/// What a whole key displays as: each `/`-separated segment is stripped of
/// its numeric prefix and joined with " / ".
pub open spec fn display_of(key: Seq<char>) -> Seq<char> {
    join_with(split_char(key, '/').map_values(|seg: Seq<char>| seg_display(seg)), " / "@)
}

/// Strips each segment of a key down to its display form.  Every segment
/// must hold a hyphen, as every well-formed identifier segment does.
pub fn format_display_name(name: &str) -> (r: String)
    requires
        forall|i: int|
            0 <= i < split_char(name@, '/').len() ==> contains_char(
                #[trigger] split_char(name@, '/')[i],
                '-',
            ),
    ensures
        r@ == display_of(name@),
{
    let cs = str_chars(name);
    let segs = split_char_exec(&cs, 0, '/');
    proof {
        assert(cs@.skip(0) =~= name@);
    }
    let ghost parts = split_char(name@, '/').map_values(|seg: Seq<char>| seg_display(seg));
    let mut out: Vec<char> = Vec::new();
    let mut i: usize = 0;
    while i < segs.len()
        invariant
            views(segs@) == split_char(name@, '/'),
            segs@.len() >= 1,
            parts == split_char(name@, '/').map_values(|seg: Seq<char>| seg_display(seg)),
            forall|k: int|
                0 <= k < split_char(name@, '/').len() ==> contains_char(
                    #[trigger] split_char(name@, '/')[k],
                    '-',
                ),
            i <= segs@.len(),
            out@ == join_with(parts.take(i as int), " / "@),
        decreases segs@.len() - i,
    {
        let seg = &segs[i];
        proof {
            assert(views(segs@)[i as int] == seg@);
            lemma_find_char(seg@, '-');
        }
        let dash = match index_of_char(seg, '-') {
            Some(d) => d,
            None => {
                proof {
                    assert(contains_char(split_char(name@, '/')[i as int], '-'));
                    assert(false);
                }
                0
            },
        };
        if i > 0 {
            crate::chars::extend_str(&mut out, " / ");
        }
        let ghost out_pre = out@;
        let seglen = seg.len();
        let tail = subvec(seg, dash + 1, seglen);
        let mut k: usize = 0;
        while k < tail.len()
            invariant
                k <= tail@.len(),
                tail@ == seg@.skip(dash + 1),
                out@ == out_pre + dash_to_space(tail@.subrange(0, k as int)),
            decreases tail@.len() - k,
        {
            let c = tail[k];
            if c == '-' {
                out.push(' ');
            } else {
                out.push(c);
            }
            proof {
                assert(out@ =~= out_pre + dash_to_space(tail@.subrange(0, k + 1)));
            }
            k = k + 1;
        }
        proof {
            assert(tail@.subrange(0, tail@.len() as int) =~= tail@);
            assert(seg_display(seg@) == dash_to_space(tail@));
            lemma_join_with_push(parts.take(i as int), seg_display(seg@), " / "@);
            assert(parts.take(i + 1) =~= parts.take(i as int).push(parts[i as int]));
            assert(parts[i as int] == seg_display(seg@));
        }
        i = i + 1;
    }
    proof {
        assert(parts.take(parts.len() as int) =~= parts);
    }
    chars_to_string(&out)
}

// ---------------------------------------------------------------------------
// The name-linked heuristic
// ---------------------------------------------------------------------------

/// A space byte becomes a hyphen byte; all other bytes pass through.
pub open spec fn space_to_dash_byte(b: u8) -> u8 {
    if b == 32 {
        45
    } else {
        b
    }
}

/// The heuristic that decides whether a link's text is literally the tail of
/// its target's identifier: a byte-for-byte, case-sensitive suffix match of
/// the space-to-hyphen form of the text against the path, gated on the path
/// being strictly longer than the text.
pub open spec fn name_linked(text: Seq<u8>, path: Seq<u8>) -> bool {
    path.len() > text.len() && path.skip(path.len() - text.len()) == text.map_values(
        |b: u8| space_to_dash_byte(b),
    )
}

/// Decides `name_linked` on the UTF-8 bytes of the two strings.
pub fn link_text_is_node_name(link_text: &String, node_path: &String) -> (r: bool)
    ensures
        r == name_linked(encode_utf8(link_text@), encode_utf8(node_path@)),
{
    let text = link_text.as_str().as_bytes_vec();
    let path = node_path.as_str().as_bytes_vec();
    if path.len() <= text.len() {
        return false;
    }
    let start = path.len() - text.len();
    let mut i: usize = 0;
    while i < text.len()
        invariant
            text@ == encode_utf8(link_text@),
            path@ == encode_utf8(node_path@),
            path@.len() > text@.len(),
            start == path@.len() - text@.len(),
            path@.len() <= usize::MAX,
            i <= text@.len(),
            forall|j: int|
                0 <= j < i ==> path@[start + j] == space_to_dash_byte(#[trigger] text@[j]),
        decreases text@.len() - i,
    {
        let t = text[i];
        let mapped: u8 = if t == 32 {
            45
        } else {
            t
        };
        if path[start + i] != mapped {
            proof {
                let suffix = path@.skip(start as int);
                assert(suffix[i as int] == path@[start + i]);
                assert(text@.map_values(|b: u8| space_to_dash_byte(b))[i as int]
                    == space_to_dash_byte(text@[i as int]));
            }
            return false;
        }
        i = i + 1;
    }
    proof {
        assert(path@.skip(start as int) =~= text@.map_values(|b: u8| space_to_dash_byte(b)));
    }
    true
}


/// A string without the separator splits to itself alone.
pub proof fn lemma_split_no_sep(s: Seq<char>, c: char)
    requires
        forall|i: int| 0 <= i < s.len() ==> s[i] != c,
    ensures
        split_char(s, c) == seq![s],
    decreases s.len(),
{
    if s.len() == 0 {
        assert(split_char(s, c) =~~= seq![s]);
    } else {
        lemma_split_no_sep(s.skip(1), c);
        let r = split_char(s.skip(1), c);
        assert(r == seq![s.skip(1)]);
        assert(seq![s[0]] + s.skip(1) =~= s);
        assert(split_char(s, c) =~~= seq![s]);
    }
}

/// Appending a separator and a separator-free tail adds one more part.
pub proof fn lemma_split_append_seg(a: Seq<char>, b: Seq<char>, c: char)
    requires
        forall|i: int| 0 <= i < b.len() ==> b[i] != c,
    ensures
        split_char(a + seq![c] + b, c) == split_char(a, c).push(b),
    decreases a.len(),
{
    let s = a + seq![c] + b;
    if a.len() == 0 {
        assert(s[0] == c);
        assert(s.skip(1) =~= b);
        lemma_split_no_sep(b, c);
        assert(split_char(s, c) =~~= seq![Seq::<char>::empty()] + seq![b]);
        assert(split_char(a, c) =~~= seq![Seq::<char>::empty()]);
        assert(seq![Seq::<char>::empty()] + seq![b] =~~= seq![Seq::<char>::empty()].push(b));
    } else {
        lemma_split_append_seg(a.skip(1), b, c);
        assert(s.skip(1) =~= a.skip(1) + seq![c] + b);
        assert(s[0] == a[0]);
        let ra = split_char(a.skip(1), c);
        lemma_split_char_len(a.skip(1), c);
        if a[0] == c {
            assert(split_char(s, c) == seq![Seq::<char>::empty()] + split_char(s.skip(1), c));
            assert(split_char(a, c) == seq![Seq::<char>::empty()] + ra);
            assert(seq![Seq::<char>::empty()] + ra.push(b) =~~= (seq![Seq::<char>::empty()]
                + ra).push(b));
        } else {
            let rs = split_char(s.skip(1), c);
            assert(rs == ra.push(b));
            assert(rs[0] == ra[0]);
            assert(split_char(s, c) == rs.update(0, seq![s[0]] + rs[0]));
            assert(split_char(a, c) == ra.update(0, seq![a[0]] + ra[0]));
            assert(ra.push(b).update(0, seq![a[0]] + ra[0]) =~~= ra.update(
                0,
                seq![a[0]] + ra[0],
            ).push(b));
        }
    }
}

/// Every `/`-segment of the key holds a hyphen, as every well-formed
/// identifier segment does.
pub open spec fn segs_dashed(id: Seq<char>) -> bool {
    forall|i: int|
        0 <= i < split_char(id, '/').len() ==> contains_char(
            #[trigger] split_char(id, '/')[i],
            '-',
        )
}


pub proof fn lemma_pow10_strict(a: nat, b: nat)
    requires
        a < b,
    ensures
        pow10(a) < pow10(b),
    decreases b,
{
    lemma_pow10_pos(a);
    if a + 1 == b {
        assert(pow10(b) == 10 * pow10(a));
    } else {
        lemma_pow10_strict(a, (b - 1) as nat);
        lemma_pow10_pos((b - 1) as nat);
        assert(pow10(b) == 10 * pow10((b - 1) as nat));
    }
}

/// The exponent of an exact power of ten at or above ten, if any.
pub open spec fn pow10_exp(m: nat) -> Option<nat> {
    if exists|k: nat| 1 <= k && m == pow10(k) {
        Some(choose|k: nat| 1 <= k && m == pow10(k))
    } else {
        None
    }
}

/// `pow10_exp` agrees with whatever witness is at hand: powers of ten have
/// unique exponents.
pub proof fn lemma_pow10_exp_unique(m: nat, k: nat)
    requires
        1 <= k,
        m == pow10(k),
    ensures
        pow10_exp(m) == Some(k),
{
    assert(exists|j: nat| 1 <= j && m == pow10(j));
    let j = choose|j: nat| 1 <= j && m == pow10(j);
    if j < k {
        lemma_pow10_strict(j, k);
    } else if j > k {
        lemma_pow10_strict(k, j);
    }
}

} // verus!
